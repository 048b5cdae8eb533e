//! Default rules for ambiguous queries.
//!
//! Each line of the configuration is blank, a comment starting with `#`, a
//! literal default `name = relative/path`, or a glob pattern matched against a
//! candidate's full relative path. Patterns are consulted in the order given.

use vstd::prelude::*;
use vstd::utf8::{decode_utf8, valid_utf8};

verus! {

/// Whether `pattern` compiles as a glob pattern.
pub uninterp spec fn glob_valid(pattern: Seq<char>) -> bool;

/// Whether `pattern` compiles as a glob pattern and that pattern matches `text`.
pub uninterp spec fn glob_match(pattern: Seq<char>, text: Seq<char>) -> bool;

/// Relies on `glob::Pattern::new`: `None` when the pattern compiles, else the
/// message of the `PatternError` it returns.
#[verifier::external_body]
fn glob_error(pattern: &str) -> (r: Option<String>)
    ensures
        r is None <==> glob_valid(pattern@),
{
    glob::Pattern::new(pattern).err().map(|e| e.msg.to_string())
}

/// Relies on `glob::Pattern::matches` (on the pattern that `glob::Pattern::new`
/// compiles): whether the pattern matches the whole of `text`.
#[verifier::external_body]
fn glob_matches(pattern: &str, text: &str) -> (r: bool)
    ensures
        r == glob_match(pattern@, text@),
{
    match glob::Pattern::new(pattern) {
        Ok(p) => p.matches(text),
        Err(_) => false,
    }
}

/// Relies on `std::str::from_utf8`: the bytes as text when they are valid UTF-8.
#[verifier::external_body]
fn utf8_text(bytes: &[u8]) -> (r: Option<&str>)
    ensures
        r is Some <==> valid_utf8(bytes@),
        r matches Some(s) ==> s@ == decode_utf8(bytes@),
{
    std::str::from_utf8(bytes).ok()
}

/// Whether the glob pattern `pattern` matches the relative path `path`; a
/// path that is not valid UTF-8 matches no pattern.
pub open spec fn path_glob_match(pattern: Seq<char>, path: Seq<u8>) -> bool {
    valid_utf8(path) && glob_match(pattern, decode_utf8(path))
}

/// Whether the glob pattern `pattern` matches the relative path `path`.
pub fn pattern_matches_path(pattern: &String, path: &Vec<u8>) -> (r: bool)
    ensures
        r == path_glob_match(pattern@, path@),
{
    match utf8_text(path.as_slice()) {
        Some(text) => glob_matches(pattern.as_str(), text),
        None => false,
    }
}

/// The byte `=`, which separates a literal default's name from its path.
pub const EQUALS: u8 = 0x3d;

/// The byte `#`, which starts a comment line.
pub const HASH: u8 = 0x23;

/// ASCII whitespace: space, tab, line feed, vertical tab, form feed, carriage return.
pub open spec fn is_space(b: u8) -> bool {
    b == 32 || (9 <= b && b <= 13)
}

/// The position of the first non-space byte at or after `i`.
pub open spec fn skip_spaces(s: Seq<u8>, i: int) -> int
    decreases s.len() - i,
{
    if i < s.len() && is_space(s[i]) {
        skip_spaces(s, i + 1)
    } else {
        i
    }
}

/// The end of `s.subrange(lo, j)` once trailing spaces are dropped.
pub open spec fn drop_spaces_back(s: Seq<u8>, lo: int, j: int) -> int
    decreases j - lo,
{
    if j > lo && is_space(s[j - 1]) {
        drop_spaces_back(s, lo, j - 1)
    } else {
        j
    }
}

/// `s` without its leading and trailing whitespace.
pub open spec fn trim(s: Seq<u8>) -> Seq<u8> {
    let lo = skip_spaces(s, 0);
    s.subrange(lo, drop_spaces_back(s, lo, s.len() as int))
}

/// The position of the first `=` at or after `i`, or the length of `s`.
pub open spec fn find_equals(s: Seq<u8>, i: int) -> int
    decreases s.len() - i,
{
    if i >= s.len() {
        s.len() as int
    } else if s[i] == EQUALS {
        i
    } else {
        find_equals(s, i + 1)
    }
}

/// What one line of the configuration says.
pub enum LineMeaning {
    /// Nothing: blank, a comment, or a default with an empty side.
    Nothing,
    /// A literal default: the name and the relative path it resolves to.
    Default(Seq<u8>, Seq<u8>),
    /// A glob pattern, as bytes.
    Pattern(Seq<u8>),
}

/// The meaning of one configuration line.
pub open spec fn line_meaning(line: Seq<u8>) -> LineMeaning {
    let t = trim(line);
    if t.len() == 0 || t[0] == HASH {
        LineMeaning::Nothing
    } else {
        let q = find_equals(t, 0);
        if q < t.len() {
            let name = trim(t.subrange(0, q));
            let path = trim(t.subrange(q + 1, t.len() as int));
            if name.len() > 0 && path.len() > 0 {
                LineMeaning::Default(name, path)
            } else {
                LineMeaning::Nothing
            }
        } else {
            LineMeaning::Pattern(t)
        }
    }
}

/// The path that the literal defaults give for `name`: the last one stated wins.
pub open spec fn default_for(rules: Seq<(Seq<u8>, Seq<u8>)>, name: Seq<u8>) -> Option<Seq<u8>>
    decreases rules.len(),
{
    if rules.len() == 0 {
        None
    } else if rules.last().0 == name {
        Some(rules.last().1)
    } else {
        default_for(rules.drop_last(), name)
    }
}

/// Why a configuration line was refused.
#[derive(PartialEq, Eq, Debug)]
pub enum ConfigError {
    /// A pattern line is not valid UTF-8.
    NotText,
    /// A pattern line does not compile; the glob crate's message.
    BadPattern(String),
}

/// A literal default: the exact name it applies to and the relative path it selects.
pub struct DefaultRule {
    pub name: Vec<u8>,
    pub path: Vec<u8>,
}

impl View for DefaultRule {
    type V = (Seq<u8>, Seq<u8>);

    open spec fn view(&self) -> (Seq<u8>, Seq<u8>) {
        (self.name@, self.path@)
    }
}

/// The default rules: literal defaults in the order given, and glob patterns
/// in the order given.
pub struct Config {
    defaults: Vec<DefaultRule>,
    patterns: Vec<String>,
}

/// The view of the configuration.
pub struct ConfigView {
    pub defaults: Seq<(Seq<u8>, Seq<u8>)>,
    pub patterns: Seq<Seq<char>>,
}

impl View for Config {
    type V = ConfigView;

    closed spec fn view(&self) -> ConfigView {
        ConfigView {
            defaults: self.defaults@.map_values(|r: DefaultRule| r@),
            patterns: self.patterns@.map_values(|p: String| p@),
        }
    }
}

/// Trims a byte string on both sides.
pub fn trim_bytes(s: &Vec<u8>, from: usize, to: usize) -> (r: Vec<u8>)
    requires
        from <= to <= s@.len(),
    ensures
        r@ == trim(s@.subrange(from as int, to as int)),
{
    let ghost t = s@.subrange(from as int, to as int);
    let mut lo: usize = from;
    while lo < to && (s[lo] == 32 || (9 <= s[lo] && s[lo] <= 13))
        invariant
            from <= lo <= to <= s@.len(),
            t == s@.subrange(from as int, to as int),
            skip_spaces(t, 0) == skip_spaces(t, lo - from),
        decreases to - lo,
    {
        lo = lo + 1;
    }
    let mut hi: usize = to;
    while hi > lo && (s[hi - 1] == 32 || (9 <= s[hi - 1] && s[hi - 1] <= 13))
        invariant
            from <= lo <= hi <= to <= s@.len(),
            t == s@.subrange(from as int, to as int),
            drop_spaces_back(t, lo - from, t.len() as int) == drop_spaces_back(
                t,
                lo - from,
                hi - from,
            ),
        decreases hi - lo,
    {
        hi = hi - 1;
    }
    let mut r: Vec<u8> = Vec::new();
    let mut k: usize = lo;
    while k < hi
        invariant
            lo <= k <= hi <= s@.len(),
            r@ == s@.subrange(lo as int, k as int),
        decreases hi - k,
    {
        r.push(s[k]);
        k = k + 1;
    }
    assert(r@ =~= t.subrange(lo - from, hi - from));
    r
}

impl Config {
    /// A configuration without rules.
    pub fn new() -> (c: Config)
        ensures
            c@.defaults == Seq::<(Seq<u8>, Seq<u8>)>::empty(),
            c@.patterns == Seq::<Seq<char>>::empty(),
    {
        let c = Config { defaults: Vec::new(), patterns: Vec::new() };
        assert(c@.defaults =~= Seq::<(Seq<u8>, Seq<u8>)>::empty());
        assert(c@.patterns =~= Seq::<Seq<char>>::empty());
        c
    }

    /// Adds a literal default after those already held.
    pub fn add_default(&mut self, name: Vec<u8>, path: Vec<u8>)
        ensures
            final(self)@.defaults == old(self)@.defaults.push((name@, path@)),
            final(self)@.patterns == old(self)@.patterns,
    {
        let ghost before = self@;
        let rule = DefaultRule { name, path };
        self.defaults.push(rule);
        assert(self@.defaults =~= before.defaults.push((name@, path@)));
        assert(self@.patterns =~= before.patterns);
    }

    /// Adds a glob pattern after those already held, if it compiles.
    pub fn add_pattern(&mut self, pattern: &str) -> (r: Result<(), ConfigError>)
        ensures
            r is Ok <==> glob_valid(pattern@),
            r is Err ==> r matches Err(ConfigError::BadPattern(_)),
            r is Ok ==> final(self)@.patterns == old(self)@.patterns.push(pattern@),
            r is Err ==> final(self)@.patterns == old(self)@.patterns,
            final(self)@.defaults == old(self)@.defaults,
    {
        match glob_error(pattern) {
            Some(msg) => Err(ConfigError::BadPattern(msg)),
            None => {
                let ghost before = self@;
                let owned = pattern.to_owned();
                self.patterns.push(owned);
                assert(self@.patterns =~= before.patterns.push(pattern@));
                assert(self@.defaults =~= before.defaults);
                Ok(())
            },
        }
    }

    /// Takes in one line of the configuration file.
    pub fn add_line(&mut self, line: &Vec<u8>) -> (r: Result<(), ConfigError>)
        ensures
            match line_meaning(line@) {
                LineMeaning::Nothing => r is Ok && final(self)@ == old(self)@,
                LineMeaning::Default(name, path) => r is Ok && final(self)@.defaults == old(
                    self,
                )@.defaults.push((name, path)) && final(self)@.patterns == old(self)@.patterns,
                LineMeaning::Pattern(t) => {
                    &&& (r is Ok <==> valid_utf8(t) && glob_valid(decode_utf8(t)))
                    &&& (r == Err::<(), ConfigError>(ConfigError::NotText) <==> !valid_utf8(t))
                    &&& r is Ok ==> final(self)@.patterns == old(self)@.patterns.push(
                        decode_utf8(t),
                    )
                    &&& r is Err ==> final(self)@.patterns == old(self)@.patterns
                    &&& final(self)@.defaults == old(self)@.defaults
                },
            },
    {
        let t = trim_bytes(line, 0, line.len());
        assert(line@.subrange(0, line@.len() as int) =~= line@);
        if t.len() == 0 || t[0] == HASH {
            assert(self@ == old(self)@);
            return Ok(());
        }
        let mut q: usize = 0;
        while q < t.len() && t[q] != EQUALS
            invariant
                q <= t@.len(),
                find_equals(t@, 0) == find_equals(t@, q as int),
            decreases t@.len() - q,
        {
            q = q + 1;
        }
        if q < t.len() {
            assert(find_equals(t@, q as int) == q);
            let name = trim_bytes(&t, 0, q);
            let path = trim_bytes(&t, q + 1, t.len());
            if name.len() > 0 && path.len() > 0 {
                self.add_default(name, path);
            }
            Ok(())
        } else {
            assert(find_equals(t@, q as int) == q);
            match utf8_text(t.as_slice()) {
                None => Err(ConfigError::NotText),
                Some(text) => self.add_pattern(text),
            }
        }
    }

    /// The literal path that a default gives for `name`, the last stated one winning.
    pub fn default_path(&self, name: &Vec<u8>) -> (r: Option<&Vec<u8>>)
        ensures
            match default_for(self@.defaults, name@) {
                Some(p) => r matches Some(v) && v@ == p,
                None => r is None,
            },
    {
        let ghost dv = self@.defaults;
        let mut i: usize = self.defaults.len();
        assert(dv.subrange(0, i as int) =~= dv);
        while i > 0
            invariant
                dv == self@.defaults,
                i <= self.defaults@.len(),
                default_for(dv, name@) == default_for(dv.subrange(0, i as int), name@),
            decreases i,
        {
            assert(dv.subrange(0, i - 1) =~= dv.subrange(0, i as int).drop_last());
            if crate::bytes::bytes_eq(&self.defaults[i - 1].name, name) {
                return Some(&self.defaults[i - 1].path);
            }
            i = i - 1;
        }
        None
    }

    /// The number of glob patterns.
    pub fn pattern_count(&self) -> (r: usize)
        ensures
            r == self@.patterns.len(),
    {
        self.patterns.len()
    }

    /// Whether the `k`-th glob pattern matches the relative path `path`.
    pub fn pattern_matches(&self, k: usize, path: &Vec<u8>) -> (r: bool)
        requires
            k < self@.patterns.len(),
        ensures
            r == path_glob_match(self@.patterns[k as int], path@),
    {
        pattern_matches_path(&self.patterns[k], path)
    }
}

/// The configuration after taking in one more line that is not refused.
pub open spec fn apply_line(c: ConfigView, line: Seq<u8>) -> ConfigView {
    match line_meaning(line) {
        LineMeaning::Nothing => c,
        LineMeaning::Default(name, path) => ConfigView {
            defaults: c.defaults.push((name, path)),
            patterns: c.patterns,
        },
        LineMeaning::Pattern(t) => ConfigView {
            defaults: c.defaults,
            patterns: c.patterns.push(decode_utf8(t)),
        },
    }
}

/// The configuration that a list of lines, none of them refused, states.
pub open spec fn config_of(lines: Seq<Seq<u8>>) -> ConfigView
    decreases lines.len(),
{
    if lines.len() == 0 {
        ConfigView { defaults: Seq::empty(), patterns: Seq::empty() }
    } else {
        apply_line(config_of(lines.drop_last()), lines.last())
    }
}

/// Builds the configuration from the lines of the configuration file, stopping
/// at the first line that is refused.
pub fn parse_config(lines: &Vec<Vec<u8>>) -> (r: Result<Config, ConfigError>)
    ensures
        r is Err <==> exists|i: int|
            0 <= i < lines@.len() && #[trigger] line_refused(lines@[i]@),
        r matches Ok(c) ==> c@ == config_of(crate::bytes::names_view(lines@)),
{
    let ghost lv = crate::bytes::names_view(lines@);
    let mut c = Config::new();
    assert(c@ == config_of(lv.subrange(0, 0)));
    let mut i: usize = 0;
    while i < lines.len()
        invariant
            lv == crate::bytes::names_view(lines@),
            i <= lines@.len(),
            forall|j: int| 0 <= j < i ==> !#[trigger] line_refused(lines@[j]@),
            c@ == config_of(lv.subrange(0, i as int)),
        decreases lines@.len() - i,
    {
        match c.add_line(&lines[i]) {
            Err(e) => {
                assert(line_refused(lines@[i as int]@));
                return Err(e);
            },
            Ok(()) => {},
        }
        assert(lv.subrange(0, i + 1).drop_last() =~= lv.subrange(0, i as int));
        assert(lv.subrange(0, i + 1).last() == lines@[i as int]@);
        i = i + 1;
    }
    assert(lv.subrange(0, lv.len() as int) =~= lv);
    Ok(c)
}

/// Whether a configuration line is refused: a pattern that is not valid
/// UTF-8 or does not compile.
pub open spec fn line_refused(line: Seq<u8>) -> bool {
    match line_meaning(line) {
        LineMeaning::Pattern(t) => !(valid_utf8(t) && glob_valid(decode_utf8(t))),
        _ => false,
    }
}

} // verus!
