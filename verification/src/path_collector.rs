//! The paths seen so far, prefix by prefix.

use vstd::prelude::*;

use crate::common_suffix::{path_views, same_path};
use crate::error::Error;
use crate::prefix_map::PrefixMap;
use crate::routing_prefix::RoutingPrefix;
use crate::sequences::{lemma_next_is_new, lemma_take_next};

verus! {

/// `s` without the repeats of an element next to itself: what is left of a
/// path when prepending is taken out.
pub open spec fn dedup_adjacent(s: Seq<u32>) -> Seq<u32>
    decreases s.len(),
{
    if s.len() <= 1 {
        s
    } else if s[s.len() - 1] == s[s.len() - 2] {
        dedup_adjacent(s.drop_last())
    } else {
        dedup_adjacent(s.drop_last()).push(s.last())
    }
}

/// What is left of a path that holds something holds something, and starts
/// and ends as the path does.
pub proof fn lemma_dedup_keeps_ends(s: Seq<u32>)
    requires
        s.len() > 0,
    ensures
        dedup_adjacent(s).len() > 0,
        dedup_adjacent(s)[0] == s[0],
        dedup_adjacent(s).last() == s.last(),
    decreases s.len(),
{
    if s.len() > 1 {
        lemma_dedup_keeps_ends(s.drop_last());
    }
}

/// Takes out the repeats of an element next to itself.
pub fn dedup(path: &Vec<u32>) -> (out: Vec<u32>)
    ensures
        out@ == dedup_adjacent(path@),
{
    let mut out: Vec<u32> = Vec::new();
    let mut i: usize = 0;
    proof {
        assert(path@.take(0) =~= Seq::<u32>::empty());
    }
    while i < path.len()
        invariant
            i <= path@.len(),
            out@ == dedup_adjacent(path@.take(i as int)),
        decreases path@.len() - i,
    {
        proof {
            let next = path@.take(i + 1);
            assert(next.drop_last() =~= path@.take(i as int));
            if i > 0 {
                assert(next[next.len() - 2] == path@[i - 1]);
            } else {
                assert(next =~= seq![path@[0]]);
            }
        }
        if i == 0 || path[i] != path[i - 1] {
            out.push(path[i]);
        }
        i += 1;
    }
    assert(path@.take(path@.len() as int) =~= path@);
    out
}

/// Whether `list` holds `path`.
pub fn contains_path(list: &Vec<Vec<u32>>, path: &Vec<u32>) -> (r: bool)
    ensures
        r == path_views(list@).contains(path@),
{
    let mut i: usize = 0;
    while i < list.len()
        invariant
            i <= list@.len(),
            forall|j: int| 0 <= j < i ==> path_views(list@)[j] != path@,
        decreases list@.len() - i,
    {
        if same_path(&list[i], path) {
            assert(path_views(list@)[i as int] == path@);
            return true;
        }
        i += 1;
    }
    false
}

/// The set of paths that `m` holds for `prefix`: none where `m` does not
/// know the prefix.
pub open spec fn paths_of(m: Map<RoutingPrefix, Set<Seq<u32>>>, prefix: RoutingPrefix) -> Set<
    Seq<u32>,
> {
    if m.dom().contains(prefix) {
        m[prefix]
    } else {
        Set::empty()
    }
}

/// `m` with one more path for `prefix`.
pub open spec fn with_path(
    m: Map<RoutingPrefix, Set<Seq<u32>>>,
    prefix: RoutingPrefix,
    path: Seq<u32>,
) -> Map<RoutingPrefix, Set<Seq<u32>>> {
    m.insert(prefix, paths_of(m, prefix).insert(path))
}

/// `m` with more paths for `prefix`.
pub open spec fn with_paths(
    m: Map<RoutingPrefix, Set<Seq<u32>>>,
    prefix: RoutingPrefix,
    paths: Set<Seq<u32>>,
) -> Map<RoutingPrefix, Set<Seq<u32>>> {
    m.insert(prefix, paths_of(m, prefix).union(paths))
}

/// What two collections hold together: every prefix of either, with the
/// paths that either holds for it.
pub open spec fn merged(
    a: Map<RoutingPrefix, Set<Seq<u32>>>,
    b: Map<RoutingPrefix, Set<Seq<u32>>>,
) -> Map<RoutingPrefix, Set<Seq<u32>>> {
    Map::new(
        |k: RoutingPrefix| a.dom().contains(k) || b.dom().contains(k),
        |k: RoutingPrefix| paths_of(a, k).union(paths_of(b, k)),
    )
}

/// The order in which two paths are recorded does not matter.
pub proof fn lemma_insertion_order(
    m: Map<RoutingPrefix, Set<Seq<u32>>>,
    first_prefix: RoutingPrefix,
    first_path: Seq<u32>,
    second_prefix: RoutingPrefix,
    second_path: Seq<u32>,
)
    ensures
        with_path(with_path(m, first_prefix, first_path), second_prefix, second_path)
            == with_path(with_path(m, second_prefix, second_path), first_prefix, first_path),
{
    let one = with_path(with_path(m, first_prefix, first_path), second_prefix, second_path);
    let other = with_path(with_path(m, second_prefix, second_path), first_prefix, first_path);
    assert forall|k: RoutingPrefix| one.dom().contains(k) implies one[k] =~= other[k] by {}
    assert(one =~= other);
}

/// Recording a path twice is recording it once.
pub proof fn lemma_insertion_twice(
    m: Map<RoutingPrefix, Set<Seq<u32>>>,
    prefix: RoutingPrefix,
    path: Seq<u32>,
)
    ensures
        with_path(with_path(m, prefix, path), prefix, path) == with_path(m, prefix, path),
{
    let once = with_path(m, prefix, path);
    assert(with_path(once, prefix, path)[prefix] =~= once[prefix]);
    assert(with_path(once, prefix, path) =~= once);
}

/// Merging does not depend on which collection comes first.
pub proof fn lemma_merge_commutes(
    a: Map<RoutingPrefix, Set<Seq<u32>>>,
    b: Map<RoutingPrefix, Set<Seq<u32>>>,
)
    ensures
        merged(a, b) == merged(b, a),
{
    assert forall|k: RoutingPrefix| merged(a, b).dom().contains(k) implies merged(a, b)[k]
        =~= merged(b, a)[k] by {}
    assert(merged(a, b) =~= merged(b, a));
}

/// Merging three collections does not depend on which two are merged
/// first.
pub proof fn lemma_merge_associates(
    a: Map<RoutingPrefix, Set<Seq<u32>>>,
    b: Map<RoutingPrefix, Set<Seq<u32>>>,
    c: Map<RoutingPrefix, Set<Seq<u32>>>,
)
    ensures
        merged(merged(a, b), c) == merged(a, merged(b, c)),
{
    let left = merged(merged(a, b), c);
    let right = merged(a, merged(b, c));
    assert forall|k: RoutingPrefix| left.dom().contains(k) implies left[k] =~= right[k] by {}
    assert(left =~= right);
}

/// Merging with a collection that holds nothing changes nothing.
pub proof fn lemma_merge_empty(a: Map<RoutingPrefix, Set<Seq<u32>>>)
    ensures
        merged(a, Map::empty()) == a,
        merged(Map::empty(), a) == a,
{
    let none = Map::<RoutingPrefix, Set<Seq<u32>>>::empty();
    assert forall|k: RoutingPrefix| a.dom().contains(k) implies merged(a, none)[k] =~= a[k]
        && merged(none, a)[k] =~= a[k] by {}
    assert(merged(a, none) =~= a);
    assert(merged(none, a) =~= a);
}

/// Recording a path in the second of two collections and merging is
/// merging and then recording the path.
pub proof fn lemma_with_path_merges(
    a: Map<RoutingPrefix, Set<Seq<u32>>>,
    b: Map<RoutingPrefix, Set<Seq<u32>>>,
    prefix: RoutingPrefix,
    path: Seq<u32>,
)
    ensures
        with_path(merged(a, b), prefix, path) == merged(a, with_path(b, prefix, path)),
{
    let one = with_path(merged(a, b), prefix, path);
    let other = merged(a, with_path(b, prefix, path));
    assert forall|k: RoutingPrefix| one.dom().contains(k) implies one[k] =~= other[k] by {}
    assert(one =~= other);
}

/// A copy of `path`.
pub fn copy_path(path: &Vec<u32>) -> (copy: Vec<u32>)
    ensures
        copy@ == path@,
{
    let mut copy: Vec<u32> = Vec::new();
    let mut i: usize = 0;
    while i < path.len()
        invariant
            i <= path@.len(),
            copy@ == path@.take(i as int),
        decreases path@.len() - i,
    {
        copy.push(path[i]);
        assert(copy@ =~= path@.take(i + 1));
        i += 1;
    }
    assert(path@.take(path@.len() as int) =~= path@);
    copy
}

/// For every prefix the distinct paths that were seen towards it.
pub struct PathCollector {
    paths: PrefixMap<Vec<Vec<u32>>>,
}

impl PathCollector {
    /// The prefixes in the order in which they were first seen.
    pub closed spec fn prefixes(&self) -> Seq<RoutingPrefix> {
        self.paths.keys()
    }

    /// The paths of each prefix, in the order in which they were first
    /// seen.
    pub closed spec fn path_lists(&self) -> Seq<Seq<Seq<u32>>> {
        Seq::new(self.paths.values().len(), |i: int| path_views(self.paths.values()[i]@))
    }

    /// No prefix occurs twice; every prefix has a path; no path occurs
    /// twice for a prefix, and no path is empty.
    pub closed spec fn wf(&self) -> bool {
        &&& self.paths.wf()
        &&& forall|i: int|
            0 <= i < self.path_lists().len() ==> {
                &&& (#[trigger] self.path_lists()[i]).len() > 0
                &&& self.path_lists()[i].no_duplicates()
                &&& forall|j: int|
                    0 <= j < self.path_lists()[i].len() ==> (
                    #[trigger] self.path_lists()[i][j]).len() > 0
            }
    }

    /// The set of paths of each prefix.
    pub open spec fn view(&self) -> Map<RoutingPrefix, Set<Seq<u32>>> {
        Map::new(
            |k: RoutingPrefix| self.prefixes().contains(k),
            |k: RoutingPrefix| self.path_lists()[self.prefixes().index_of(k)].to_set(),
        )
    }

    /// What well-formedness means for the prefixes and their paths.
    pub proof fn lemma_wf(&self)
        requires
            self.wf(),
        ensures
            self.prefixes().len() == self.path_lists().len(),
            self.prefixes().no_duplicates(),
            forall|i: int|
                0 <= i < self.path_lists().len() ==> (#[trigger] self.path_lists()[i]).len() > 0,
            forall|i: int, j: int|
                0 <= i < self.path_lists().len() && 0 <= j < self.path_lists()[i].len() ==> (
                #[trigger] self.path_lists()[i][j]).len() > 0,
    {
        assert forall|i: int, j: int|
            0 <= i < self.path_lists().len() && 0 <= j < self.path_lists()[i].len() implies (
        #[trigger] self.path_lists()[i][j]).len() > 0 by {
            assert(self.path_lists()[i].len() > 0);
        }
    }

    /// The set of paths of the prefix at place `i`.
    pub proof fn lemma_view_at(&self, i: int)
        requires
            self.wf(),
            0 <= i < self.prefixes().len(),
        ensures
            self@.dom().contains(self.prefixes()[i]),
            self@[self.prefixes()[i]] == self.path_lists()[i].to_set(),
    {
        let k = self.prefixes()[i];
        let j = self.prefixes().index_of(k);
        assert(self.prefixes()[j] == k);
    }

    /// A collector that has seen nothing.
    pub fn new() -> (collector: Self)
        ensures
            collector.wf(),
            collector.prefixes() == Seq::<RoutingPrefix>::empty(),
            collector@ == Map::<RoutingPrefix, Set<Seq<u32>>>::empty(),
    {
        let collector = PathCollector { paths: PrefixMap::new() };
        assert(collector.path_lists() =~= Seq::<Seq<Seq<u32>>>::empty());
        assert(collector@ =~= Map::<RoutingPrefix, Set<Seq<u32>>>::empty());
        collector
    }

    /// The number of prefixes.
    pub fn len(&self) -> (n: usize)
        ensures
            n == self.prefixes().len(),
            n == self.path_lists().len(),
    {
        self.paths.len()
    }

    /// The prefix at place `i`.
    pub fn prefix(&self, i: usize) -> (prefix: RoutingPrefix)
        requires
            i < self.prefixes().len(),
        ensures
            prefix == self.prefixes()[i as int],
    {
        self.paths.key(i)
    }

    /// The paths of the prefix at place `i`.
    pub fn paths(&self, i: usize) -> (paths: &Vec<Vec<u32>>)
        requires
            i < self.path_lists().len(),
        ensures
            path_views(paths@) == self.path_lists()[i as int],
    {
        self.paths.value(i)
    }

    /// The paths of `prefix`, if it was seen.
    pub fn get(&self, prefix: &RoutingPrefix) -> (paths: Option<&Vec<Vec<u32>>>)
        requires
            self.wf(),
        ensures
            match paths {
                Some(list) => self@.dom().contains(*prefix) && self@[*prefix] == path_views(
                    list@,
                ).to_set(),
                None => !self@.dom().contains(*prefix),
            },
    {
        match self.paths.index_of(prefix) {
            Some(i) => {
                proof {
                    self.lemma_view_at(i as int);
                }
                Some(self.paths.value(i))
            },
            None => None,
        }
    }

    /// Records `path` for `prefix`, with prepending taken out. A path that
    /// is there already changes nothing; an empty path is refused.
    pub fn insert(&mut self, prefix: RoutingPrefix, path: Vec<u32>) -> (r: Result<(), Error>)
        requires
            old(self).wf(),
        ensures
            final(self).wf(),
            path@.len() == 0 ==> r == Err::<(), Error>(Error::NoAsPathInAttributePath),
            path@.len() == 0 ==> *final(self) == *old(self),
            path@.len() > 0 ==> r == Ok::<(), Error>(()) && final(self)@ == with_path(
                old(self)@,
                prefix,
                dedup_adjacent(path@),
            ),
            path@.len() > 0 ==> (if old(self).prefixes().contains(prefix) {
                final(self).prefixes() == old(self).prefixes()
            } else {
                final(self).prefixes() == old(self).prefixes().push(prefix)
            }),
    {
        if path.len() == 0 {
            return Err(Error::NoAsPathInAttributePath);
        }
        proof {
            lemma_dedup_keeps_ends(path@);
        }
        self.add(prefix, dedup(&path));
        Ok(())
    }

    /// Records `path` for `prefix` as it is.
    fn add(&mut self, prefix: RoutingPrefix, path: Vec<u32>)
        requires
            old(self).wf(),
            path@.len() > 0,
        ensures
            final(self).wf(),
            final(self)@ == with_path(old(self)@, prefix, path@),
            if old(self).prefixes().contains(prefix) {
                final(self).prefixes() == old(self).prefixes()
            } else {
                final(self).prefixes() == old(self).prefixes().push(prefix)
            },
    {
        let ghost before = *self;
        let ghost lists = self.path_lists();
        let ghost keys = self.prefixes();
        match self.paths.index_of(&prefix) {
            Some(i) => {
                proof {
                    before.lemma_view_at(i as int);
                }
                let ghost p = path@;
                let list = self.paths.value_mut(i);
                let ghost old_list = path_views(list@);
                let known = contains_path(list, &path);
                if !known {
                    list.push(path);
                    assert(path_views(list@) =~= old_list.push(p));
                }
                proof {
                    let new_list = if known {
                        old_list
                    } else {
                        old_list.push(p)
                    };
                    assert(old_list == lists[i as int]);
                    assert(self.path_lists() =~= lists.update(i as int, new_list));
                    assert(new_list.to_set() =~= old_list.to_set().insert(p)) by {
                        assert forall|q: Seq<u32>| new_list.to_set().contains(q)
                            == old_list.to_set().insert(p).contains(q) by {
                            if known {
                                if q == p {
                                    assert(old_list.contains(p));
                                }
                            } else {
                                if old_list.contains(q) {
                                    let j = choose|j: int|
                                        0 <= j < old_list.len() && old_list[j] == q;
                                    assert(new_list[j] == q);
                                }
                                if q == p {
                                    assert(new_list[old_list.len() as int] == p);
                                }
                                if new_list.contains(q) {
                                    let j = choose|j: int|
                                        0 <= j < new_list.len() && new_list[j] == q;
                                    if j < old_list.len() {
                                        assert(old_list[j] == q);
                                    }
                                }
                            }
                        }
                    }
                    assert(new_list.no_duplicates()) by {
                        if !known {
                            assert forall|a: int, b: int|
                                0 <= a < new_list.len() && 0 <= b < new_list.len() && a
                                    != b implies new_list[a] != new_list[b] by {
                                if a < old_list.len() && b < old_list.len() {
                                    assert(old_list[a] != old_list[b]);
                                } else if a < old_list.len() {
                                    assert(old_list[a] != p);
                                } else {
                                    assert(old_list[b] != p);
                                }
                            }
                        }
                    }
                    assert forall|j: int| 0 <= j < new_list.len() implies (
                    #[trigger] new_list[j]).len() > 0 by {
                        if j < old_list.len() {
                            assert(lists[i as int][j].len() > 0);
                        }
                    }
                    assert(self.wf()) by {
                        assert forall|a: int| 0 <= a < self.path_lists().len() implies {
                            &&& (#[trigger] self.path_lists()[a]).len() > 0
                            &&& self.path_lists()[a].no_duplicates()
                            &&& forall|j: int|
                                0 <= j < self.path_lists()[a].len() ==> (
                                #[trigger] self.path_lists()[a][j]).len() > 0
                        } by {
                            if a != i {
                                assert(self.path_lists()[a] == lists[a]);
                            }
                        }
                    }
                    assert(self@ =~= with_path(before@, prefix, p)) by {
                        assert forall|k: RoutingPrefix| self.prefixes().contains(k) implies self@[k]
                            == with_path(before@, prefix, p)[k] by {
                            let j = keys.index_of(k);
                            assert(keys[j] == k);
                            if k != prefix {
                                assert(j != i);
                                assert(self.path_lists()[j] == lists[j]);
                            } else {
                                assert(j == i);
                            }
                        }
                    }
                    assert(keys.contains(prefix));
                }
            },
            None => {
                let ghost p = path@;
                let mut list: Vec<Vec<u32>> = Vec::new();
                list.push(path);
                assert(path_views(list@) =~= seq![p]);
                self.paths.insert(prefix, list);
                proof {
                    assert(self.prefixes() == keys.push(prefix));
                    assert(self.path_lists() =~= lists.push(seq![p]));
                    assert(seq![p][0] == p);
                    assert(seq![p].to_set() =~= Set::<Seq<u32>>::empty().insert(p));
                    assert(self.wf()) by {
                        assert forall|a: int| 0 <= a < self.path_lists().len() implies {
                            &&& (#[trigger] self.path_lists()[a]).len() > 0
                            &&& self.path_lists()[a].no_duplicates()
                            &&& forall|j: int|
                                0 <= j < self.path_lists()[a].len() ==> (
                                #[trigger] self.path_lists()[a][j]).len() > 0
                        } by {
                            if a < lists.len() {
                                assert(self.path_lists()[a] == lists[a]);
                            }
                        }
                    }
                    assert(self@ =~= with_path(before@, prefix, p)) by {
                        assert forall|k: RoutingPrefix| #[trigger]
                            self.prefixes().contains(k) == with_path(
                                before@,
                                prefix,
                                p,
                            ).dom().contains(k) by {
                            if keys.contains(k) {
                                let j = keys.index_of(k);
                                assert(keys[j] == k);
                                assert(self.prefixes()[j] == k);
                            }
                            if k == prefix {
                                assert(self.prefixes()[keys.len() as int] == k);
                            }
                            if self.prefixes().contains(k) {
                                let j = self.prefixes().index_of(k);
                                assert(self.prefixes()[j] == k);
                                if j < keys.len() {
                                    assert(keys[j] == k);
                                }
                            }
                        }
                        assert forall|k: RoutingPrefix| self.prefixes().contains(k) implies self@[k]
                            == with_path(before@, prefix, p)[k] by {
                            let j = self.prefixes().index_of(k);
                            assert(self.prefixes()[j] == k);
                            if j < keys.len() {
                                assert(keys[j] == k);
                                let j0 = keys.index_of(k);
                                assert(keys[j0] == k);
                                assert(self.prefixes()[j0] == k);
                                assert(self.path_lists()[j] == lists[j]);
                            }
                        }
                    }
                }
            },
        }
    }

    /// Records every path of `paths` for `prefix`, each as it is.
    fn add_all(&mut self, prefix: RoutingPrefix, paths: &Vec<Vec<u32>>)
        requires
            old(self).wf(),
            paths@.len() > 0,
            forall|j: int| 0 <= j < paths@.len() ==> (#[trigger] paths@[j])@.len() > 0,
        ensures
            final(self).wf(),
            final(self)@ == with_paths(old(self)@, prefix, path_views(paths@).to_set()),
    {
        let ghost before = self@;
        let ghost views = path_views(paths@);
        let mut j: usize = 0;
        while j < paths.len()
            invariant
                j <= paths@.len(),
                views == path_views(paths@),
                forall|t: int| 0 <= t < paths@.len() ==> (#[trigger] paths@[t])@.len() > 0,
                self.wf(),
                j == 0 ==> self@ == before,
                j > 0 ==> self@ == with_paths(before, prefix, views.take(j as int).to_set()),
            decreases paths@.len() - j,
        {
            let ghost so_far = self@;
            let ghost done = views.take(j as int).to_set();
            proof {
                lemma_take_next(views, j as int);
                assert(views[j as int] == paths@[j as int]@);
                if j == 0 {
                    assert(views.take(0) =~= Seq::<Seq<u32>>::empty());
                    assert(done =~= Set::<Seq<u32>>::empty());
                }
            }
            self.add(prefix, copy_path(&paths[j]));
            proof {
                let next = done.insert(views[j as int]);
                assert(with_path(so_far, prefix, views[j as int])[prefix] =~= with_paths(
                    before,
                    prefix,
                    next,
                )[prefix]);
                assert(self@ =~= with_paths(before, prefix, next));
            }
            j += 1;
        }
        proof {
            assert(views.take(views.len() as int) =~= views);
        }
    }

    /// Takes over what `other` has seen: afterwards the collector holds
    /// every prefix of either, with the paths that either held for it.
    pub fn merge(&mut self, other: &PathCollector)
        requires
            old(self).wf(),
            other.wf(),
        ensures
            final(self).wf(),
            final(self)@ == merged(old(self)@, other@),
    {
        let ghost before = self@;
        let ghost prefixes = other.prefixes();
        let ghost theirs = other@;
        let n = other.len();
        let mut i: usize = 0;
        proof {
            other.lemma_wf();
            assert(prefixes.take(0).to_set() =~= Set::<RoutingPrefix>::empty());
            assert(theirs.restrict(prefixes.take(0).to_set()) =~= Map::<
                RoutingPrefix,
                Set<Seq<u32>>,
            >::empty());
            lemma_merge_empty(before);
        }
        while i < n
            invariant
                i <= n,
                n == prefixes.len(),
                n == other.path_lists().len(),
                other.wf(),
                prefixes == other.prefixes(),
                theirs == other@,
                self.wf(),
                self@ == merged(before, theirs.restrict(prefixes.take(i as int).to_set())),
            decreases n - i,
        {
            let prefix = other.prefix(i);
            let paths = other.paths(i);
            let ghost seen = prefixes.take(i as int).to_set();
            let ghost seen_next = prefixes.take(i + 1).to_set();
            let ghost so_far = self@;
            proof {
                other.lemma_wf();
                other.lemma_view_at(i as int);
                other.lemma_paths_at(i as int, paths);
                lemma_take_next(prefixes, i as int);
                lemma_next_is_new(prefixes, i as int);
            }
            self.add_all(prefix, paths);
            proof {
                let next = merged(before, theirs.restrict(seen_next));
                assert forall|k: RoutingPrefix| self@.dom().contains(k) implies #[trigger] self@[k]
                    =~= next[k] by {
                    if k == prefix {
                        assert(paths_of(theirs.restrict(seen), k) =~= Set::<Seq<u32>>::empty());
                    }
                }
                assert(self@ =~= next);
            }
            i += 1;
        }
        proof {
            assert(prefixes.take(n as int) =~= prefixes);
            assert(theirs.restrict(prefixes.to_set()) =~= theirs);
        }
    }

    /// The paths at place `i` are not empty, and there is one at least.
    proof fn lemma_paths_at(&self, i: int, paths: &Vec<Vec<u32>>)
        requires
            self.wf(),
            0 <= i < self.path_lists().len(),
            path_views(paths@) == self.path_lists()[i],
        ensures
            paths@.len() > 0,
            forall|j: int| 0 <= j < paths@.len() ==> (#[trigger] paths@[j])@.len() > 0,
    {
        let views = self.path_lists()[i];
        assert(views.len() > 0);
        assert forall|j: int| 0 <= j < paths@.len() implies (#[trigger] paths@[j])@.len() > 0 by {
            assert(views[j] == paths@[j]@);
            assert(views[j].len() > 0);
        }
    }
}

} // verus!
