//! The resolver: narrows the discovered entries to the one a query names.
//!
//! The stages run in order: the wildcard query, the match on the final path
//! component, one rescan when a cached entry list matched nothing, the index
//! filter, the substring filter, and the default rules for what is still
//! ambiguous.

use vstd::prelude::*;
use crate::bytes::{bytes_eq, contains_bytes, is_infix, names_view, occurs_at};
use crate::config::{default_for, path_glob_match, Config, ConfigView};
use crate::scan::SEPARATOR;

verus! {

/// The byte `_`: a query for this name lists the names of all entries.
pub const WILDCARD: u8 = 0x5f;

/// The byte `+`, which may lead a numeric filter.
pub const PLUS: u8 = 0x2b;

/// The position of the first separator at or after `i`, or the length of `s`.
pub open spec fn find_separator(s: Seq<u8>, i: int) -> int
    decreases s.len() - i,
{
    if i >= s.len() {
        s.len() as int
    } else if s[i] == SEPARATOR {
        i
    } else {
        find_separator(s, i + 1)
    }
}

/// Splits a query argument at its first separator into the wanted name and
/// the subdirectory suffix, which keeps its leading separator.
pub fn split_name(arg: &Vec<u8>) -> (r: (Vec<u8>, Option<Vec<u8>>))
    ensures
        r.0@ == arg@.subrange(0, find_separator(arg@, 0)),
        find_separator(arg@, 0) == arg@.len() ==> r.1 is None,
        find_separator(arg@, 0) < arg@.len() ==> (r.1 matches Some(s) && s@ == arg@.subrange(
            find_separator(arg@, 0),
            arg@.len() as int,
        )),
{
    let n: usize = arg.len();
    let mut name: Vec<u8> = Vec::new();
    let mut k: usize = 0;
    while k < n && arg[k] != SEPARATOR
        invariant
            n == arg@.len(),
            k <= n,
            name@ == arg@.subrange(0, k as int),
            find_separator(arg@, 0) == find_separator(arg@, k as int),
        decreases n - k,
    {
        name.push(arg[k]);
        k = k + 1;
    }
    if k == n {
        return (name, None);
    }
    let ghost at = k;
    let mut rest: Vec<u8> = Vec::new();
    while k < n
        invariant
            n == arg@.len(),
            at <= k <= n,
            rest@ == arg@.subrange(at as int, k as int),
        decreases n - k,
    {
        rest.push(arg[k]);
        k = k + 1;
    }
    (name, Some(rest))
}

/// A query: the wanted name, the suffix appended to the result unchanged,
/// and the filter (an index or a substring; empty when absent).
pub struct Query {
    pub name: Vec<u8>,
    pub subdir: Option<Vec<u8>>,
    pub filter: Vec<u8>,
}

/// A decimal digit.
pub open spec fn is_digit(b: u8) -> bool {
    48 <= b && b <= 57
}

/// The value of a string of decimal digits.
pub open spec fn digits_value(s: Seq<u8>) -> nat
    decreases s.len(),
{
    if s.len() == 0 {
        0
    } else {
        digits_value(s.drop_last()) * 10 + (s.last() - 48) as nat
    }
}

/// The digits of a filter, without one leading `+`.
pub open spec fn unsigned_digits(s: Seq<u8>) -> Seq<u8> {
    if s.len() > 0 && s[0] == PLUS {
        s.drop_first()
    } else {
        s
    }
}

/// The index a filter names: decimal digits, after an optional `+`, whose
/// value fits in `usize`.
pub open spec fn filter_index(s: Seq<u8>) -> Option<nat> {
    let d = unsigned_digits(s);
    if d.len() > 0 && (forall|i: int| 0 <= i < d.len() ==> is_digit(#[trigger] d[i]))
        && digits_value(d) <= usize::MAX {
        Some(digits_value(d))
    } else {
        None
    }
}

/// Reads a filter as an index, if it is one.
pub fn parse_index(filter: &Vec<u8>) -> (r: Option<usize>)
    ensures
        match filter_index(filter@) {
            Some(n) => r == Some(n as usize),
            None => r is None,
        },
{
    let n: usize = filter.len();
    let start: usize = if n > 0 && filter[0] == PLUS {
        1
    } else {
        0
    };
    let ghost d = unsigned_digits(filter@);
    assert(d =~= filter@.subrange(start as int, n as int));
    if start == n {
        return None;
    }
    let mut v: usize = 0;
    let mut overflow = false;
    let mut k: usize = start;
    while k < n
        invariant
            n == filter@.len(),
            start <= k <= n,
            d == filter@.subrange(start as int, n as int),
            d == unsigned_digits(filter@),
            forall|j: int| 0 <= j < k - start ==> is_digit(#[trigger] d[j]),
            !overflow ==> v == digits_value(d.subrange(0, k - start)),
            overflow ==> digits_value(d.subrange(0, k - start)) > usize::MAX,
        decreases n - k,
    {
        let b = filter[k];
        if b < 48 || b > 57 {
            assert(!is_digit(d[k - start]));
            return None;
        }
        let digit: usize = (b - 48) as usize;
        let ghost prev = digits_value(d.subrange(0, k - start));
        assert(d.subrange(0, k + 1 - start).drop_last() =~= d.subrange(0, k - start));
        assert(digits_value(d.subrange(0, k + 1 - start)) == prev * 10 + digit);
        if overflow {
            assert(prev * 10 + digit > usize::MAX) by (nonlinear_arith)
                requires
                    prev > usize::MAX,
            ;
        } else if v > (usize::MAX - digit) / 10 {
            assert(prev * 10 + digit > usize::MAX) by (nonlinear_arith)
                requires
                    prev == v,
                    v > (usize::MAX - digit) / 10,
                    digit <= 9,
            ;
            overflow = true;
        } else {
            assert(v * 10 + digit <= usize::MAX) by (nonlinear_arith)
                requires
                    v <= (usize::MAX - digit) / 10,
                    digit <= 9,
            ;
            v = v * 10 + digit;
        }
        k = k + 1;
    }
    assert(d.subrange(0, n - start) =~= d);
    if overflow {
        None
    } else {
        Some(v)
    }
}

/// The final path components of `path` are exactly `name`: `path` is `name`,
/// or ends with a separator followed by `name`. An empty name has no
/// components and is matched by every path.
pub open spec fn name_matches(path: Seq<u8>, name: Seq<u8>) -> bool {
    name.len() == 0 || path == name || (path.len() > name.len() && path.subrange(
        path.len() - name.len(),
        path.len() as int,
    ) == name && path[path.len() - name.len() - 1] == SEPARATOR)
}

/// Whether the final path components of `path` are exactly `name`.
pub fn matches_name(path: &Vec<u8>, name: &Vec<u8>) -> (r: bool)
    ensures
        r == name_matches(path@, name@),
{
    if name.len() == 0 {
        return true;
    }
    if path.len() < name.len() {
        return false;
    }
    if path.len() == name.len() {
        return bytes_eq(path, name);
    }
    let at: usize = path.len() - name.len();
    occurs_at(path, name, at) && path[at - 1] == SEPARATOR
}

/// The entries whose final components are the wanted name, in their order.
pub open spec fn matching(entries: Seq<Seq<u8>>, name: Seq<u8>) -> Seq<Seq<u8>> {
    entries.filter(|p: Seq<u8>| name_matches(p, name))
}

/// What precedes the matched name in `path`.
pub open spec fn dir_part(path: Seq<u8>, name: Seq<u8>) -> Seq<u8> {
    if path.len() >= name.len() {
        path.subrange(0, path.len() - name.len())
    } else {
        Seq::empty()
    }
}

/// The candidates whose part before the matched name contains `filter`.
pub open spec fn narrowed(cands: Seq<Seq<u8>>, name: Seq<u8>, filter: Seq<u8>) -> Seq<Seq<u8>> {
    cands.filter(|p: Seq<u8>| is_infix(filter, dir_part(p, name)))
}

/// Keeps the entries whose final components are `name`.
pub fn keep_matching(entries: &Vec<Vec<u8>>, name: &Vec<u8>) -> (r: Vec<Vec<u8>>)
    ensures
        names_view(r@) == matching(names_view(entries@), name@),
{
    let ghost ev = names_view(entries@);
    let ghost keep = |p: Seq<u8>| name_matches(p, name@);
    let mut r: Vec<Vec<u8>> = Vec::new();
    let mut i: usize = 0;
    while i < entries.len()
        invariant
            ev == names_view(entries@),
            keep == (|p: Seq<u8>| name_matches(p, name@)),
            i <= entries@.len(),
            names_view(r@) == ev.subrange(0, i as int).filter(keep),
        decreases entries@.len() - i,
    {
        proof {
            assert(ev.subrange(0, i + 1) =~= ev.subrange(0, i as int).push(ev[i as int]));
            ev.subrange(0, i as int).lemma_filter_push(ev[i as int], keep);
        }
        if matches_name(&entries[i], name) {
            let c = entries[i].clone();
            assert(c@ =~= ev[i as int]);
            let ghost prev = names_view(r@);
            r.push(c);
            assert(names_view(r@) =~= prev.push(ev[i as int]));
        }
        i = i + 1;
    }
    assert(ev.subrange(0, ev.len() as int) =~= ev);
    r
}

/// Keeps the candidates whose part before the matched name `name` contains `filter`.
pub fn keep_containing(cands: &Vec<Vec<u8>>, name: &Vec<u8>, filter: &Vec<u8>) -> (r: Vec<
    Vec<u8>,
>)
    ensures
        names_view(r@) == narrowed(names_view(cands@), name@, filter@),
{
    let ghost cv = names_view(cands@);
    let ghost keep = |p: Seq<u8>| is_infix(filter@, dir_part(p, name@));
    let mut r: Vec<Vec<u8>> = Vec::new();
    let mut i: usize = 0;
    while i < cands.len()
        invariant
            cv == names_view(cands@),
            keep == (|p: Seq<u8>| is_infix(filter@, dir_part(p, name@))),
            i <= cands@.len(),
            names_view(r@) == cv.subrange(0, i as int).filter(keep),
        decreases cands@.len() - i,
    {
        proof {
            assert(cv.subrange(0, i + 1) =~= cv.subrange(0, i as int).push(cv[i as int]));
            cv.subrange(0, i as int).lemma_filter_push(cv[i as int], keep);
        }
        let c = &cands[i];
        let mut head: Vec<u8> = Vec::new();
        if c.len() >= name.len() {
            let end: usize = c.len() - name.len();
            let mut k: usize = 0;
            while k < end
                invariant
                    end <= c@.len(),
                    k <= end,
                    head@ == c@.subrange(0, k as int),
                decreases end - k,
            {
                head.push(c[k]);
                k = k + 1;
            }
        }
        assert(head@ =~= dir_part(c@, name@));
        if contains_bytes(&head, filter) {
            let copy = c.clone();
            assert(copy@ =~= cv[i as int]);
            let ghost prev = names_view(r@);
            r.push(copy);
            assert(names_view(r@) =~= prev.push(cv[i as int]));
        }
        i = i + 1;
    }
    assert(cv.subrange(0, cv.len() as int) =~= cv);
    r
}

/// Where the final component of `path.subrange(0, j)` starts: just after
/// its last separator, or at 0.
pub open spec fn component_start(path: Seq<u8>, j: int) -> int
    decreases j,
{
    if j <= 0 {
        0
    } else if path[j - 1] == SEPARATOR {
        j
    } else {
        component_start(path, j - 1)
    }
}

/// The final component of a relative path.
pub open spec fn basename(path: Seq<u8>) -> Seq<u8> {
    path.subrange(component_start(path, path.len() as int), path.len() as int)
}

/// The non-empty final components of the entries, each once, in the order of
/// their first appearance.
pub open spec fn distinct_basenames(entries: Seq<Seq<u8>>) -> Seq<Seq<u8>>
    decreases entries.len(),
{
    if entries.len() == 0 {
        Seq::empty()
    } else {
        let prev = distinct_basenames(entries.drop_last());
        let b = basename(entries.last());
        if b.len() > 0 && !prev.contains(b) {
            prev.push(b)
        } else {
            prev
        }
    }
}

/// The wildcard listing names every entry's final component, and each name once.
pub proof fn lemma_basenames_once(entries: Seq<Seq<u8>>)
    ensures
        distinct_basenames(entries).no_duplicates(),
        forall|i: int|
            0 <= i < entries.len() && basename(#[trigger] entries[i]).len() > 0
                ==> distinct_basenames(entries).contains(basename(entries[i])),
        forall|j: int|
            #![trigger distinct_basenames(entries)[j]]
            0 <= j < distinct_basenames(entries).len() ==> exists|i: int|
                0 <= i < entries.len() && basename(#[trigger] entries[i])
                    == distinct_basenames(entries)[j],
    decreases entries.len(),
{
    if entries.len() > 0 {
        let prefix = entries.drop_last();
        lemma_basenames_once(prefix);
        let prev = distinct_basenames(prefix);
        let b = basename(entries.last());
        assert forall|i: int|
            0 <= i < entries.len() && basename(#[trigger] entries[i]).len() > 0 implies distinct_basenames(
            entries,
        ).contains(basename(entries[i])) by {
            if i < entries.len() - 1 {
                assert(entries[i] == prefix[i]);
                let k = choose|k: int| 0 <= k < prev.len() && prev[k] == basename(prefix[i]);
                if b.len() > 0 && !prev.contains(b) {
                    assert(distinct_basenames(entries)[k] == prev[k]);
                }
            } else if !prev.contains(b) {
                assert(distinct_basenames(entries)[prev.len() as int] == b);
            }
        }
        assert forall|j: int|
            #![trigger distinct_basenames(entries)[j]]
            0 <= j < distinct_basenames(entries).len() implies exists|i: int|
            0 <= i < entries.len() && basename(#[trigger] entries[i])
                == distinct_basenames(entries)[j] by {
            if j < prev.len() {
                let i = choose|i: int| 0 <= i < prefix.len() && basename(#[trigger] prefix[i]) == prev[j];
                assert(entries[i] == prefix[i]);
            } else {
                assert(basename(entries[entries.len() - 1]) == distinct_basenames(entries)[j]);
            }
        }
    }
}

/// The final component of a relative path.
pub fn file_name(path: &Vec<u8>) -> (r: Vec<u8>)
    ensures
        r@ == basename(path@),
{
    let n: usize = path.len();
    let mut j: usize = n;
    while j > 0 && path[j - 1] != SEPARATOR
        invariant
            n == path@.len(),
            j <= n,
            component_start(path@, n as int) == component_start(path@, j as int),
        decreases j,
    {
        j = j - 1;
    }
    let ghost start = j;
    let mut r: Vec<u8> = Vec::new();
    while j < n
        invariant
            n == path@.len(),
            start <= j <= n,
            r@ == path@.subrange(start as int, j as int),
        decreases n - j,
    {
        r.push(path[j]);
        j = j + 1;
    }
    r
}

/// The distinct non-empty final components of the entries.
pub fn basenames(entries: &Vec<Vec<u8>>) -> (r: Vec<Vec<u8>>)
    ensures
        names_view(r@) == distinct_basenames(names_view(entries@)),
{
    let ghost ev = names_view(entries@);
    let mut r: Vec<Vec<u8>> = Vec::new();
    let mut i: usize = 0;
    while i < entries.len()
        invariant
            ev == names_view(entries@),
            i <= entries@.len(),
            names_view(r@) == distinct_basenames(ev.subrange(0, i as int)),
        decreases entries@.len() - i,
    {
        let b = file_name(&entries[i]);
        proof {
            assert(ev.subrange(0, i + 1).drop_last() =~= ev.subrange(0, i as int));
            assert(ev.subrange(0, i + 1).last() == entries@[i as int]@);
            crate::scan::lemma_holds_contains(r@, b@);
        }
        if b.len() > 0 && !crate::bytes::holds(&r, &b) {
            let ghost prev = names_view(r@);
            let ghost bv = b@;
            r.push(b);
            assert(names_view(r@) =~= prev.push(bv));
        }
        i = i + 1;
    }
    assert(ev.subrange(0, ev.len() as int) =~= ev);
    r
}

/// The first candidate at or after `i` equal to `path`.
pub open spec fn first_equal(cands: Seq<Seq<u8>>, path: Seq<u8>, i: int) -> Option<int>
    decreases cands.len() - i,
{
    if i < 0 || i >= cands.len() {
        None
    } else if cands[i] == path {
        Some(i)
    } else {
        first_equal(cands, path, i + 1)
    }
}

/// The first candidate at or after `i` that the glob pattern matches.
pub open spec fn first_glob(pattern: Seq<char>, cands: Seq<Seq<u8>>, i: int) -> Option<int>
    decreases cands.len() - i,
{
    if i < 0 || i >= cands.len() {
        None
    } else if path_glob_match(pattern, cands[i]) {
        Some(i)
    } else {
        first_glob(pattern, cands, i + 1)
    }
}

/// The choice of the glob patterns from the `k`-th on: the first pattern that
/// matches any candidate picks the first candidate it matches.
pub open spec fn pattern_choice(patterns: Seq<Seq<char>>, cands: Seq<Seq<u8>>, k: int) -> Option<
    int,
>
    decreases patterns.len() - k,
{
    if k < 0 || k >= patterns.len() {
        None
    } else {
        match first_glob(patterns[k], cands, 0) {
            Some(i) => Some(i),
            None => pattern_choice(patterns, cands, k + 1),
        }
    }
}

/// The candidate that the default rules pick for `name`: the one equal to
/// the literal default for `name`, if there is such a default and such a
/// candidate, else the choice of the glob patterns.
pub open spec fn default_choice(config: ConfigView, name: Seq<u8>, cands: Seq<Seq<u8>>) -> Option<
    int,
> {
    match default_for(config.defaults, name) {
        Some(p) => match first_equal(cands, p, 0) {
            Some(i) => Some(i),
            None => pattern_choice(config.patterns, cands, 0),
        },
        None => pattern_choice(config.patterns, cands, 0),
    }
}

proof fn lemma_first_equal_finds(cands: Seq<Seq<u8>>, path: Seq<u8>, i: int, j: int)
    requires
        0 <= i <= j < cands.len(),
        cands[j] == path,
    ensures
        first_equal(cands, path, i) matches Some(k) && i <= k <= j && cands[k] == path,
    decreases j - i,
{
    if cands[i] != path {
        lemma_first_equal_finds(cands, path, i + 1, j);
    }
}

proof fn lemma_first_equal_range(cands: Seq<Seq<u8>>, path: Seq<u8>, i: int)
    ensures
        first_equal(cands, path, i) matches Some(k) ==> 0 <= k < cands.len() && cands[k] == path,
    decreases cands.len() - i,
{
    if 0 <= i < cands.len() && cands[i] != path {
        lemma_first_equal_range(cands, path, i + 1);
    }
}

proof fn lemma_first_glob_range(pattern: Seq<char>, cands: Seq<Seq<u8>>, i: int)
    ensures
        first_glob(pattern, cands, i) matches Some(k) ==> 0 <= k < cands.len(),
    decreases cands.len() - i,
{
    if 0 <= i < cands.len() && !path_glob_match(pattern, cands[i]) {
        lemma_first_glob_range(pattern, cands, i + 1);
    }
}

proof fn lemma_pattern_choice_range(patterns: Seq<Seq<char>>, cands: Seq<Seq<u8>>, k: int)
    ensures
        pattern_choice(patterns, cands, k) matches Some(i) ==> 0 <= i < cands.len(),
    decreases patterns.len() - k,
{
    if 0 <= k < patterns.len() {
        lemma_first_glob_range(patterns[k], cands, 0);
        lemma_pattern_choice_range(patterns, cands, k + 1);
    }
}

/// A literal default decides whatever the order of the candidates: when the
/// default for `name` is one of the candidates, the default rules pick that
/// candidate.
pub proof fn lemma_literal_default_decides(
    config: ConfigView,
    name: Seq<u8>,
    cands: Seq<Seq<u8>>,
    path: Seq<u8>,
)
    requires
        default_for(config.defaults, name) == Some(path),
        cands.contains(path),
    ensures
        default_choice(config, name, cands) matches Some(i) && 0 <= i < cands.len() && cands[i]
            == path,
{
    let j = choose|j: int| 0 <= j < cands.len() && cands[j] == path;
    lemma_first_equal_finds(cands, path, 0, j);
}

/// The glob patterns are tried in order, each against every candidate before
/// the next: when the first `k` patterns match no candidate, the choice is
/// that of the patterns from the `k`-th on.
pub proof fn lemma_earlier_patterns_first(
    patterns: Seq<Seq<char>>,
    cands: Seq<Seq<u8>>,
    k: int,
)
    requires
        0 <= k <= patterns.len(),
        forall|m: int, i: int|
            0 <= m < k && 0 <= i < cands.len() ==> !#[trigger] path_glob_match(
                patterns[m],
                #[trigger] cands[i],
            ),
    ensures
        pattern_choice(patterns, cands, 0) == pattern_choice(patterns, cands, k),
    decreases k,
{
    if k > 0 {
        lemma_earlier_patterns_first(patterns, cands, k - 1);
        lemma_first_glob_none(patterns[k - 1], cands, 0);
    }
}

proof fn lemma_first_glob_none(pattern: Seq<char>, cands: Seq<Seq<u8>>, i: int)
    requires
        0 <= i,
        forall|j: int| 0 <= j < cands.len() ==> !path_glob_match(pattern, #[trigger] cands[j]),
    ensures
        first_glob(pattern, cands, i) is None,
    decreases cands.len() - i,
{
    if i < cands.len() {
        lemma_first_glob_none(pattern, cands, i + 1);
    }
}

/// Picks one of several candidates by the default rules, as an index.
pub fn resolve_default(config: &Config, wanted: &Vec<u8>, codebases: &Vec<Vec<u8>>) -> (r: Option<
    usize,
>)
    ensures
        match default_choice(config@, wanted@, names_view(codebases@)) {
            Some(i) => r == Some(i as usize),
            None => r is None,
        },
{
    let ghost cv = names_view(codebases@);
    let found = config.default_path(wanted);
    match found {
        Some(p) => {
            assert(default_for(config@.defaults, wanted@) == Some(p@));
            let mut i: usize = 0;
            while i < codebases.len()
                invariant
                    cv == names_view(codebases@),
                    i <= codebases@.len(),
                    first_equal(cv, p@, 0) == first_equal(cv, p@, i as int),
                    default_for(config@.defaults, wanted@) == Some(p@),
                decreases codebases@.len() - i,
            {
                assert(cv[i as int] == codebases@[i as int]@);
                if bytes_eq(&codebases[i], p) {
                    assert(first_equal(cv, p@, i as int) == Some(i as int));
                    return Some(i);
                }
                i = i + 1;
            }
            assert(default_choice(config@, wanted@, cv) == pattern_choice(config@.patterns, cv, 0));
        },
        None => {
            assert(default_choice(config@, wanted@, cv) == pattern_choice(config@.patterns, cv, 0));
        },
    }
    let n: usize = config.pattern_count();
    let mut k: usize = 0;
    while k < n
        invariant
            cv == names_view(codebases@),
            n == config@.patterns.len(),
            k <= n,
            default_choice(config@, wanted@, cv) == pattern_choice(config@.patterns, cv, 0),
            pattern_choice(config@.patterns, cv, 0) == pattern_choice(config@.patterns, cv, k as int),
        decreases n - k,
    {
        let mut i: usize = 0;
        while i < codebases.len()
            invariant
                cv == names_view(codebases@),
                n == config@.patterns.len(),
                k < n,
                i <= codebases@.len(),
                default_choice(config@, wanted@, cv) == pattern_choice(config@.patterns, cv, 0),
                first_glob(config@.patterns[k as int], cv, 0) == first_glob(
                    config@.patterns[k as int],
                    cv,
                    i as int,
                ),
                pattern_choice(config@.patterns, cv, 0) == pattern_choice(
                    config@.patterns,
                    cv,
                    k as int,
                ),
            decreases codebases@.len() - i,
        {
            assert(cv[i as int] == codebases@[i as int]@);
            if config.pattern_matches(k, &codebases[i]) {
                assert(first_glob(config@.patterns[k as int], cv, i as int) == Some(i as int));
                assert(pattern_choice(config@.patterns, cv, k as int) == Some(i as int));
                return Some(i);
            }
            i = i + 1;
        }
        k = k + 1;
    }
    assert(pattern_choice(config@.patterns, cv, n as int) is None);
    None
}

/// What resolving a query comes to, over views.
pub enum Outcome {
    Names(Seq<Seq<u8>>),
    Rescan,
    Chosen(Seq<u8>),
    NoMatches,
    OutOfRange(nat, Seq<Seq<u8>>),
    Ambiguous(Seq<Seq<u8>>),
}

/// What resolving a query comes to.
#[derive(PartialEq, Eq, Debug)]
pub enum Resolution {
    /// The wildcard query: the distinct final components of all entries.
    Names(Vec<Vec<u8>>),
    /// Nothing matched and the entries came from the cache: the caller
    /// rescans, rewrites the cache and resolves again with the fresh entries.
    Rescan,
    /// The relative path of the one entry chosen.
    Chosen(Vec<u8>),
    /// No candidate is left after filtering.
    NoMatches,
    /// The index filter is outside `1..=candidates.len()`.
    OutOfRange(usize, Vec<Vec<u8>>),
    /// Several candidates are left and no default rule picks one.
    Ambiguous(Vec<Vec<u8>>),
}

impl View for Resolution {
    type V = Outcome;

    open spec fn view(&self) -> Outcome {
        match self {
            Resolution::Names(v) => Outcome::Names(names_view(v@)),
            Resolution::Rescan => Outcome::Rescan,
            Resolution::Chosen(p) => Outcome::Chosen(p@),
            Resolution::NoMatches => Outcome::NoMatches,
            Resolution::OutOfRange(n, v) => Outcome::OutOfRange(*n as nat, names_view(v@)),
            Resolution::Ambiguous(v) => Outcome::Ambiguous(names_view(v@)),
        }
    }
}

/// The wanted name is the wildcard `_`.
pub open spec fn is_wildcard(name: Seq<u8>) -> bool {
    name == seq![WILDCARD]
}

/// The outcome once the candidates that match the name are known and the
/// filter is no index: the substring filter, then the default rules.
pub open spec fn after_filter(
    cands: Seq<Seq<u8>>,
    name: Seq<u8>,
    filter: Seq<u8>,
    config: ConfigView,
) -> Outcome {
    let d = if filter.len() == 0 {
        cands
    } else {
        narrowed(cands, name, filter)
    };
    if d.len() == 0 {
        Outcome::NoMatches
    } else if d.len() == 1 {
        Outcome::Chosen(d[0])
    } else {
        match default_choice(config, name, d) {
            Some(i) => Outcome::Chosen(d[i]),
            None => Outcome::Ambiguous(d),
        }
    }
}

/// The outcome of resolving the query `name` with `filter` against `entries`.
pub open spec fn outcome(
    entries: Seq<Seq<u8>>,
    from_cache: bool,
    name: Seq<u8>,
    filter: Seq<u8>,
    config: ConfigView,
) -> Outcome {
    if is_wildcard(name) {
        Outcome::Names(distinct_basenames(entries))
    } else {
        let c = matching(entries, name);
        if c.len() == 0 && from_cache {
            Outcome::Rescan
        } else {
            match filter_index(filter) {
                Some(n) => if 1 <= n && n <= c.len() {
                    Outcome::Chosen(c[n - 1])
                } else {
                    Outcome::OutOfRange(n, c)
                },
                None => after_filter(c, name, filter, config),
            }
        }
    }
}

/// Resolves a query against the discovered entries; `from_cache` tells
/// whether they were read from the cache rather than scanned just now.
pub fn resolve(entries: &Vec<Vec<u8>>, from_cache: bool, query: &Query, config: &Config) -> (r:
    Resolution)
    ensures
        r@ == outcome(names_view(entries@), from_cache, query.name@, query.filter@, config@),
{
    let name = &query.name;
    let filter = &query.filter;
    if name.len() == 1 && name[0] == WILDCARD {
        assert(name@ =~= seq![WILDCARD]);
        return Resolution::Names(basenames(entries));
    }
    assert(!is_wildcard(name@)) by {
        if is_wildcard(name@) {
            assert(name@.len() == 1 && name@[0] == WILDCARD);
        }
    }
    let cands = keep_matching(entries, name);
    let ghost cv = names_view(cands@);
    if cands.len() == 0 && from_cache {
        return Resolution::Rescan;
    }
    match parse_index(filter) {
        Some(n) => {
            if 1 <= n && n <= cands.len() {
                let c = cands[n - 1].clone();
                assert(c@ =~= cv[n - 1]);
                return Resolution::Chosen(c);
            } else {
                return Resolution::OutOfRange(n, cands);
            }
        },
        None => {},
    }
    let d = if filter.len() == 0 {
        cands
    } else {
        keep_containing(&cands, name, filter)
    };
    let ghost dv = names_view(d@);
    if d.len() == 0 {
        return Resolution::NoMatches;
    }
    if d.len() == 1 {
        let c = d[0].clone();
        assert(c@ =~= dv[0]);
        return Resolution::Chosen(c);
    }
    match resolve_default(config, name, &d) {
        Some(i) => {
            proof {
                lemma_pattern_choice_range(config@.patterns, dv, 0);
                match default_for(config@.defaults, name@) {
                    Some(p) => lemma_first_equal_range(dv, p, 0),
                    None => {},
                }
            }
            let c = d[i].clone();
            assert(c@ =~= dv[i as int]);
            Resolution::Chosen(c)
        },
        None => Resolution::Ambiguous(d),
    }
}

/// `rel` joined under `root` as a path: a separator is put between them
/// unless `root` is empty or already ends with one.
pub open spec fn joined(root: Seq<u8>, rel: Seq<u8>) -> Seq<u8> {
    if root.len() == 0 {
        rel
    } else if root.last() == SEPARATOR {
        root + rel
    } else {
        root.push(SEPARATOR) + rel
    }
}

/// The printed form of a result: `rel` joined under `root`, then the
/// subdirectory suffix unchanged.
pub open spec fn rendered(root: Seq<u8>, rel: Seq<u8>, subdir: Option<Seq<u8>>) -> Seq<u8> {
    match subdir {
        Some(s) => joined(root, rel) + s,
        None => joined(root, rel),
    }
}

fn append_bytes(out: &mut Vec<u8>, s: &Vec<u8>)
    ensures
        final(out)@ == old(out)@ + s@,
{
    let ghost start = out@;
    let mut i: usize = 0;
    while i < s.len()
        invariant
            i <= s@.len(),
            out@ == start + s@.subrange(0, i as int),
        decreases s@.len() - i,
    {
        out.push(s[i]);
        i = i + 1;
    }
    assert(s@.subrange(0, s@.len() as int) =~= s@);
}

/// The path printed for the relative path `rel` under the search root `root`,
/// followed by the subdirectory suffix when there is one.
pub fn render_path(root: &Vec<u8>, rel: &Vec<u8>, subdir: &Option<Vec<u8>>) -> (r: Vec<u8>)
    ensures
        r@ == rendered(
            root@,
            rel@,
            match subdir {
                Some(s) => Some(s@),
                None => None,
            },
        ),
{
    let mut r: Vec<u8> = Vec::new();
    append_bytes(&mut r, root);
    if root.len() > 0 && root[root.len() - 1] != SEPARATOR {
        r.push(SEPARATOR);
    }
    append_bytes(&mut r, rel);
    assert(r@ =~= joined(root@, rel@));
    match subdir {
        Some(s) => {
            append_bytes(&mut r, s);
        },
        None => {},
    }
    r
}

} // verus!
