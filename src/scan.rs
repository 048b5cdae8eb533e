//! The scanner's decisions.
//!
//! The caller walks the directory tree and reports, for each directory that
//! the scan asks about, what it found there: the kind of its `.git` entry and
//! the names of its subdirectories and symbolic links. [`Scan`] decides which
//! directories are repository roots, which symbolic links stand in for a
//! longer sibling name, and which directories are visited next.

use vstd::prelude::*;
use crate::bytes::{holds, holds_bytes, names_view};

verus! {

/// The path separator byte, `/`.
pub const SEPARATOR: u8 = 0x2f;

/// `name` appended to `parent` as one more path component.
pub open spec fn join_spec(parent: Seq<u8>, name: Seq<u8>) -> Seq<u8> {
    if parent.len() == 0 {
        name
    } else {
        parent.push(SEPARATOR) + name
    }
}

/// Appends `name` to the relative path `parent` as one more component.
pub fn join_path(parent: &Vec<u8>, name: &Vec<u8>) -> (r: Vec<u8>)
    ensures
        r@ == join_spec(parent@, name@),
{
    let mut r: Vec<u8> = Vec::new();
    let mut i: usize = 0;
    while i < parent.len()
        invariant
            i <= parent@.len(),
            r@ == parent@.subrange(0, i as int),
        decreases parent@.len() - i,
    {
        r.push(parent[i]);
        i = i + 1;
    }
    if parent.len() > 0 {
        r.push(SEPARATOR);
    }
    let ghost base = r@;
    let mut j: usize = 0;
    while j < name.len()
        invariant
            j <= name@.len(),
            r@ == base + name@.subrange(0, j as int),
        decreases name@.len() - j,
    {
        r.push(name[j]);
        j = j + 1;
    }
    assert(parent@.subrange(0, parent@.len() as int) =~= parent@);
    assert(name@.subrange(0, name@.len() as int) =~= name@);
    assert(r@ =~= join_spec(parent@, name@));
    r
}

/// A symbolic link found in a directory: its own name and the text it points to.
pub struct Link {
    pub name: Vec<u8>,
    pub target: Vec<u8>,
}

impl View for Link {
    type V = (Seq<u8>, Seq<u8>);

    open spec fn view(&self) -> (Seq<u8>, Seq<u8>) {
        (self.name@, self.target@)
    }
}

/// The views of a list of links.
pub open spec fn links_view(links: Seq<Link>) -> Seq<(Seq<u8>, Seq<u8>)> {
    links.map_values(|l: Link| l@)
}

/// A link is kept as an alias when its target is a sibling subdirectory and
/// its own name is strictly shorter than the target's.
pub open spec fn alias_kept(subdirs: Seq<Seq<u8>>, link: (Seq<u8>, Seq<u8>)) -> bool {
    link.0.len() < link.1.len() && subdirs.contains(link.1)
}

/// The links that survive pruning, in their listed order.
pub open spec fn kept_aliases(subdirs: Seq<Seq<u8>>, links: Seq<(Seq<u8>, Seq<u8>)>) -> Seq<
    (Seq<u8>, Seq<u8>),
> {
    links.filter(|l: (Seq<u8>, Seq<u8>)| alias_kept(subdirs, l))
}

/// `d` is the target of one of `aliases`.
pub open spec fn is_alias_target(aliases: Seq<(Seq<u8>, Seq<u8>)>, d: Seq<u8>) -> bool {
    exists|i: int| 0 <= i < aliases.len() && (#[trigger] aliases[i]).1 == d
}

/// The subdirectories that are visited under their own name: those that no
/// kept alias stands in for.
pub open spec fn plain_subdirs(subdirs: Seq<Seq<u8>>, aliases: Seq<(Seq<u8>, Seq<u8>)>) -> Seq<
    Seq<u8>,
> {
    subdirs.filter(|d: Seq<u8>| !is_alias_target(aliases, d))
}

/// What a directory holds, as far as the scan needs it.
pub struct DirListing {
    /// Names of the plain subdirectories.
    pub subdirs: Vec<Vec<u8>>,
    /// The symbolic links, with the text each points to.
    pub links: Vec<Link>,
}

/// How the children of a directory are visited.
pub struct ChildPlan {
    /// Links that stand in for a longer sibling name.
    pub aliases: Vec<Link>,
    /// Subdirectories visited under their own name.
    pub plain: Vec<Vec<u8>>,
}

/// Whether `d` is the target of one of `aliases`.
fn targets_hold(aliases: &Vec<Link>, d: &Vec<u8>) -> (r: bool)
    ensures
        r == is_alias_target(links_view(aliases@), d@),
{
    let ghost av = links_view(aliases@);
    let mut i: usize = 0;
    while i < aliases.len()
        invariant
            av == links_view(aliases@),
            i <= aliases@.len(),
            forall|j: int| 0 <= j < i ==> (#[trigger] av[j]).1 != d@,
        decreases aliases@.len() - i,
    {
        if crate::bytes::bytes_eq(&aliases[i].target, d) {
            assert(av[i as int].1 == d@);
            return true;
        }
        i = i + 1;
    }
    false
}

/// A list holds a byte string exactly when the views of its items contain it.
pub proof fn lemma_holds_contains(v: Seq<Vec<u8>>, x: Seq<u8>)
    ensures
        holds_bytes(v, x) == names_view(v).contains(x),
{
    let w = names_view(v);
    if holds_bytes(v, x) {
        let i = choose|i: int| 0 <= i < v.len() && (#[trigger] v[i])@ == x;
        assert(w[i] == x);
    }
    if w.contains(x) {
        let i = choose|i: int| 0 <= i < w.len() && w[i] == x;
        assert(v[i]@ == x);
    }
}

/// Prunes the links of a directory and splits its children into aliases and
/// plain subdirectories.
pub fn plan_children(listing: &DirListing) -> (plan: ChildPlan)
    ensures
        links_view(plan.aliases@) == kept_aliases(
            names_view(listing.subdirs@),
            links_view(listing.links@),
        ),
        names_view(plan.plain@) == plain_subdirs(
            names_view(listing.subdirs@),
            links_view(plan.aliases@),
        ),
{
    let ghost subs = names_view(listing.subdirs@);
    let ghost lv = links_view(listing.links@);
    let ghost keep = |l: (Seq<u8>, Seq<u8>)| alias_kept(subs, l);
    let mut aliases: Vec<Link> = Vec::new();
    let mut i: usize = 0;
    while i < listing.links.len()
        invariant
            subs == names_view(listing.subdirs@),
            lv == links_view(listing.links@),
            keep == (|l: (Seq<u8>, Seq<u8>)| alias_kept(subs, l)),
            i <= listing.links@.len(),
            links_view(aliases@) == lv.subrange(0, i as int).filter(keep),
        decreases listing.links@.len() - i,
    {
        let link = &listing.links[i];
        proof {
            lemma_holds_contains(listing.subdirs@, link.target@);
            assert(lv.subrange(0, i + 1) =~= lv.subrange(0, i as int).push(lv[i as int]));
            lv.subrange(0, i as int).lemma_filter_push(lv[i as int], keep);
        }
        if link.name.len() < link.target.len() && holds(&listing.subdirs, &link.target) {
            let kept = Link { name: link.name.clone(), target: link.target.clone() };
            assert(kept.name@ =~= link.name@);
            assert(kept.target@ =~= link.target@);
            aliases.push(kept);
            assert(links_view(aliases@) =~= lv.subrange(0, i as int).filter(keep).push(lv[i as int]));
        } else {
            assert(links_view(aliases@) =~= lv.subrange(0, i + 1).filter(keep));
        }
        i = i + 1;
    }
    assert(lv.subrange(0, lv.len() as int) =~= lv);
    let ghost av = links_view(aliases@);
    let ghost drop = |d: Seq<u8>| !is_alias_target(av, d);
    let mut plain: Vec<Vec<u8>> = Vec::new();
    let mut k: usize = 0;
    while k < listing.subdirs.len()
        invariant
            subs == names_view(listing.subdirs@),
            av == links_view(aliases@),
            drop == (|d: Seq<u8>| !is_alias_target(av, d)),
            k <= listing.subdirs@.len(),
            names_view(plain@) == subs.subrange(0, k as int).filter(drop),
        decreases listing.subdirs@.len() - k,
    {
        let d = &listing.subdirs[k];
        proof {
            assert(subs.subrange(0, k + 1) =~= subs.subrange(0, k as int).push(subs[k as int]));
            subs.subrange(0, k as int).lemma_filter_push(subs[k as int], drop);
        }
        if !targets_hold(&aliases, d) {
            let c = d.clone();
            assert(c@ =~= d@);
            plain.push(c);
            assert(names_view(plain@) =~= subs.subrange(0, k as int).filter(drop).push(subs[k as int]));
        } else {
            assert(names_view(plain@) =~= subs.subrange(0, k + 1).filter(drop));
        }
        k = k + 1;
    }
    assert(subs.subrange(0, subs.len() as int) =~= subs);
    ChildPlan { aliases, plain }
}

/// The kind of the `.git` entry of a directory.
#[derive(Clone, Copy, PartialEq, Eq, Debug)]
pub enum GitMarker {
    /// There is no `.git` entry.
    Absent,
    /// `.git` is a directory: the directory is a repository root.
    Directory,
    /// `.git` is something else, such as a submodule's gitlink file.
    Other,
}

/// A directory waiting to be visited: the relative path it is reached by and,
/// when it is reached through an alias, the path through the alias's target.
pub struct Visit {
    pub path: Vec<u8>,
    pub twin: Option<Vec<u8>>,
}

/// The view of a pending visit.
pub type VisitView = (Seq<u8>, Option<Seq<u8>>);

impl View for Visit {
    type V = VisitView;

    open spec fn view(&self) -> VisitView {
        (
            self.path@,
            match self.twin {
                Some(t) => Some(t@),
                None => None,
            },
        )
    }
}

/// The views of a list of pending visits.
pub open spec fn visits_view(v: Seq<Visit>) -> Seq<VisitView> {
    v.map_values(|x: Visit| x@)
}

/// Visits of the kept aliases of the directory at `parent`: each is reached
/// through the alias and carries the path through its target.
pub open spec fn alias_visits(parent: Seq<u8>, aliases: Seq<(Seq<u8>, Seq<u8>)>) -> Seq<
    VisitView,
> {
    aliases.map_values(
        |a: (Seq<u8>, Seq<u8>)| (join_spec(parent, a.0), Some(join_spec(parent, a.1))),
    )
}

/// Visits of the plain subdirectories of the directory at `parent`.
pub open spec fn plain_visits(parent: Seq<u8>, plain: Seq<Seq<u8>>) -> Seq<VisitView> {
    plain.map_values(|d: Seq<u8>| (join_spec(parent, d), None::<Seq<u8>>))
}

/// The visits that a directory at `parent` without a `.git` entry gives rise to.
pub open spec fn child_visits(
    parent: Seq<u8>,
    subdirs: Seq<Seq<u8>>,
    links: Seq<(Seq<u8>, Seq<u8>)>,
) -> Seq<VisitView> {
    let aliases = kept_aliases(subdirs, links);
    alias_visits(parent, aliases) + plain_visits(parent, plain_subdirs(subdirs, aliases))
}

/// The entries recorded for a repository root reached by visit `v`: its path,
/// and then the path through the alias's target when it was reached by one.
pub open spec fn leaf_entries(v: VisitView) -> Seq<Seq<u8>> {
    match v.1 {
        Some(t) => seq![v.0, t],
        None => seq![v.0],
    }
}

/// A scan in progress: the entries found so far and the directories still to visit.
pub struct Scan {
    found: Vec<Vec<u8>>,
    pending: Vec<Visit>,
}

impl View for Scan {
    type V = (Seq<Seq<u8>>, Seq<VisitView>);

    closed spec fn view(&self) -> (Seq<Seq<u8>>, Seq<VisitView>) {
        (names_view(self.found@), visits_view(self.pending@))
    }
}

impl Scan {
    /// A scan that starts at the search root, whose relative path is empty.
    pub fn new() -> (s: Scan)
        ensures
            s@.0 == Seq::<Seq<u8>>::empty(),
            s@.1 == seq![(Seq::<u8>::empty(), None::<Seq<u8>>)],
    {
        let mut pending: Vec<Visit> = Vec::new();
        pending.push(Visit { path: Vec::new(), twin: None });
        let s = Scan { found: Vec::new(), pending };
        assert(s@.0 =~= Seq::<Seq<u8>>::empty());
        assert(s@.1 =~= seq![(Seq::<u8>::empty(), None::<Seq<u8>>)]);
        s
    }

    /// The relative path of the directory to inspect next, or `None` once the
    /// scan is complete.
    pub fn next_dir(&self) -> (r: Option<Vec<u8>>)
        ensures
            r is None <==> self@.1.len() == 0,
            r matches Some(p) ==> p@ == self@.1.last().0,
    {
        if self.pending.len() == 0 {
            None
        } else {
            let last = self.pending.len() - 1;
            let p = self.pending[last].path.clone();
            assert(p@ =~= self.pending@[last as int].path@);
            Some(p)
        }
    }

    /// Takes in what was found in the directory that [`Scan::next_dir`] named.
    ///
    /// A `.git` directory makes it a repository root: its entries are recorded
    /// and nothing below it is visited. Another kind of `.git` entry makes it a
    /// dead end. Without one, its children are queued: each kept alias, then
    /// each plain subdirectory.
    pub fn visit(&mut self, marker: GitMarker, listing: &DirListing)
        requires
            old(self)@.1.len() > 0,
        ensures
            marker == GitMarker::Directory ==> final(self)@.0 == old(self)@.0 + leaf_entries(
                old(self)@.1.last(),
            ) && final(self)@.1 == old(self)@.1.drop_last(),
            marker == GitMarker::Other ==> final(self)@ == (old(self)@.0, old(self)@.1.drop_last()),
            marker == GitMarker::Absent ==> final(self)@.0 == old(self)@.0 && final(self)@.1
                == old(self)@.1.drop_last() + child_visits(
                old(self)@.1.last().0,
                names_view(listing.subdirs@),
                links_view(listing.links@),
            ),
    {
        let ghost old_pending = visits_view(self.pending@);
        let ghost old_found = names_view(self.found@);
        let current = self.pending.pop().unwrap();
        assert(visits_view(self.pending@) =~= old_pending.drop_last());
        assert(current@ == old_pending.last());
        match marker {
            GitMarker::Directory => {
                let ghost cur = current@;
                self.found.push(current.path);
                match current.twin {
                    Some(t) => {
                        self.found.push(t);
                    },
                    None => {},
                }
                assert(names_view(self.found@) =~= old_found + leaf_entries(cur));
            },
            GitMarker::Other => {
                assert(names_view(self.found@) =~= old_found);
            },
            GitMarker::Absent => {
                let plan = plan_children(listing);
                let ghost base = visits_view(self.pending@);
                let ghost parent = current.path@;
                let ghost av = links_view(plan.aliases@);
                let mut i: usize = 0;
                while i < plan.aliases.len()
                    invariant
                        av == links_view(plan.aliases@),
                        parent == current.path@,
                        i <= plan.aliases@.len(),
                        visits_view(self.pending@) == base + alias_visits(
                            parent,
                            av.subrange(0, i as int),
                        ),
                        names_view(self.found@) == old_found,
                    decreases plan.aliases@.len() - i,
                {
                    let a = &plan.aliases[i];
                    let path = join_path(&current.path, &a.name);
                    let twin = join_path(&current.path, &a.target);
                    let v = Visit { path, twin: Some(twin) };
                    let ghost prev = self.pending@;
                    assert(av[i as int] == a@);
                    self.pending.push(v);
                    assert(visits_view(self.pending@) =~= visits_view(prev).push(v@));
                    assert(av.subrange(0, i + 1) =~= av.subrange(0, i as int).push(av[i as int]));
                    assert(alias_visits(parent, av.subrange(0, i + 1)) =~= alias_visits(
                        parent,
                        av.subrange(0, i as int),
                    ).push(v@));
                    assert(visits_view(self.pending@) =~= base + alias_visits(
                        parent,
                        av.subrange(0, i + 1),
                    ));
                    i = i + 1;
                }
                assert(av.subrange(0, av.len() as int) =~= av);
                let ghost mid = visits_view(self.pending@);
                let ghost pv = names_view(plan.plain@);
                let mut k: usize = 0;
                while k < plan.plain.len()
                    invariant
                        pv == names_view(plan.plain@),
                        parent == current.path@,
                        k <= plan.plain@.len(),
                        visits_view(self.pending@) == mid + plain_visits(
                            parent,
                            pv.subrange(0, k as int),
                        ),
                        names_view(self.found@) == old_found,
                    decreases plan.plain@.len() - k,
                {
                    let path = join_path(&current.path, &plan.plain[k]);
                    let v = Visit { path, twin: None };
                    let ghost prev = self.pending@;
                    self.pending.push(v);
                    assert(visits_view(self.pending@) =~= visits_view(prev).push(v@));
                    assert(pv.subrange(0, k + 1) =~= pv.subrange(0, k as int).push(pv[k as int]));
                    assert(plain_visits(parent, pv.subrange(0, k + 1)) =~= plain_visits(
                        parent,
                        pv.subrange(0, k as int),
                    ).push(v@));
                    assert(visits_view(self.pending@) =~= mid + plain_visits(
                        parent,
                        pv.subrange(0, k + 1),
                    ));
                    k = k + 1;
                }
                assert(pv.subrange(0, pv.len() as int) =~= pv);
                assert(visits_view(self.pending@) =~= base + child_visits(
                    parent,
                    names_view(listing.subdirs@),
                    links_view(listing.links@),
                ));
            },
        }
    }

    /// The entries found, in the order they were recorded.
    pub fn found(&self) -> (r: Vec<Vec<u8>>)
        ensures
            names_view(r@) == self@.0,
    {
        let mut r: Vec<Vec<u8>> = Vec::new();
        let mut i: usize = 0;
        while i < self.found.len()
            invariant
                i <= self.found@.len(),
                names_view(r@) == names_view(self.found@).subrange(0, i as int),
            decreases self.found@.len() - i,
        {
            let c = self.found[i].clone();
            assert(c@ =~= self.found@[i as int]@);
            let ghost prev = r@;
            r.push(c);
            assert(names_view(r@) =~= names_view(prev).push(self.found@[i as int]@));
            assert(names_view(r@) =~= names_view(self.found@).subrange(0, i + 1));
            i = i + 1;
        }
        assert(names_view(r@) =~= names_view(self.found@));
        r
    }
}

} // verus!
