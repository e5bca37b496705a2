//! The reduction of one prefix's paths to what they have in common.
//!
//! A path lists AS numbers from the observer to the origin, origin last.
//! What all paths towards a prefix share is therefore a common suffix, and
//! the bottleneck is the first AS number of the longest one.

use vstd::prelude::*;

verus! {

/// Whether `path` ends with `suffix`.
pub open spec fn is_suffix_of(suffix: Seq<u32>, path: Seq<u32>) -> bool {
    &&& suffix.len() <= path.len()
    &&& forall|i: int|
        0 <= i < suffix.len() ==> #[trigger] suffix[i] == path[path.len() - suffix.len() + i]
}

/// Whether every path of `paths` ends with `suffix`.
pub open spec fn is_common_suffix(paths: Set<Seq<u32>>, suffix: Seq<u32>) -> bool {
    forall|p: Seq<u32>| #[trigger] paths.contains(p) ==> is_suffix_of(suffix, p)
}

/// Whether `suffix` is a common suffix of `paths` and no common suffix is
/// longer.
pub open spec fn is_longest_common_suffix(paths: Set<Seq<u32>>, suffix: Seq<u32>) -> bool {
    &&& is_common_suffix(paths, suffix)
    &&& forall|other: Seq<u32>| #[trigger]
        is_common_suffix(paths, other) ==> other.len() <= suffix.len()
}

/// The longest common suffix of `paths`. It is only meaningful for a set
/// that holds a path.
pub open spec fn longest_common_suffix(paths: Set<Seq<u32>>) -> Seq<u32> {
    choose|suffix: Seq<u32>| is_longest_common_suffix(paths, suffix)
}

/// Whether `paths` holds no path at all.
pub open spec fn no_paths(paths: Set<Seq<u32>>) -> bool {
    forall|p: Seq<u32>| !paths.contains(p)
}

/// What the paths of one prefix have in common, in path order: nothing
/// where there is no path or the paths do not even share their origin.
pub open spec fn common_suffix_of(paths: Set<Seq<u32>>) -> Option<Seq<u32>> {
    if no_paths(paths) || longest_common_suffix(paths).len() == 0 {
        None
    } else {
        Some(longest_common_suffix(paths))
    }
}

/// The bottleneck of one prefix: the AS number farthest from the origin
/// that lies on every path.
pub open spec fn bottleneck_of(paths: Set<Seq<u32>>) -> Option<u32> {
    match common_suffix_of(paths) {
        Some(suffix) => Some(suffix[0]),
        None => None,
    }
}

/// The paths of a list, as sequences.
pub open spec fn path_views(paths: Seq<Vec<u32>>) -> Seq<Seq<u32>> {
    Seq::new(paths.len(), |i: int| paths[i]@)
}

/// The set of the paths of a list.
pub open spec fn path_set(paths: Seq<Vec<u32>>) -> Set<Seq<u32>> {
    path_views(paths).to_set()
}

/// The last `k` elements of `path`.
pub open spec fn tail_of(path: Seq<u32>, k: int) -> Seq<u32> {
    path.subrange(path.len() - k, path.len() as int)
}

/// A suffix of a suffix of a path is a suffix of the path.
pub proof fn lemma_suffix_transitive(a: Seq<u32>, b: Seq<u32>, c: Seq<u32>)
    requires
        is_suffix_of(a, b),
        is_suffix_of(b, c),
    ensures
        is_suffix_of(a, c),
{
    assert forall|i: int| 0 <= i < a.len() implies #[trigger] a[i] == c[c.len() - a.len() + i] by {
        assert(a[i] == b[b.len() - a.len() + i]);
        assert(b[b.len() - a.len() + i] == c[c.len() - b.len() + (b.len() - a.len() + i)]);
    }
}

/// Of two suffixes of one path, the shorter is a suffix of the longer.
pub proof fn lemma_suffixes_nest(a: Seq<u32>, b: Seq<u32>, path: Seq<u32>)
    requires
        is_suffix_of(a, path),
        is_suffix_of(b, path),
        a.len() <= b.len(),
    ensures
        is_suffix_of(a, b),
{
    assert forall|i: int| 0 <= i < a.len() implies #[trigger] a[i] == b[b.len() - a.len() + i] by {
        assert(a[i] == path[path.len() - a.len() + i]);
        assert(b[b.len() - a.len() + i] == path[path.len() - b.len() + (b.len() - a.len() + i)]);
    }
}

/// A suffix of a path is the tail of the path of that length.
pub proof fn lemma_suffix_is_tail(suffix: Seq<u32>, path: Seq<u32>)
    requires
        is_suffix_of(suffix, path),
    ensures
        suffix == tail_of(path, suffix.len() as int),
{
    assert(suffix =~= tail_of(path, suffix.len() as int));
}

/// A set that holds a path has at most one longest common suffix.
pub proof fn lemma_longest_is_unique(paths: Set<Seq<u32>>, a: Seq<u32>, b: Seq<u32>)
    requires
        !no_paths(paths),
        is_longest_common_suffix(paths, a),
        is_longest_common_suffix(paths, b),
    ensures
        a == b,
{
    let p = choose|p: Seq<u32>| paths.contains(p);
    assert(paths.contains(p));
    assert(is_common_suffix(paths, a));
    assert(is_common_suffix(paths, b));
    assert(a.len() == b.len());
    lemma_suffix_is_tail(a, p);
    lemma_suffix_is_tail(b, p);
}

/// A longest common suffix of a set that holds a path is the one that
/// [`longest_common_suffix`] names.
pub proof fn lemma_longest_is_chosen(paths: Set<Seq<u32>>, suffix: Seq<u32>)
    requires
        !no_paths(paths),
        is_longest_common_suffix(paths, suffix),
    ensures
        longest_common_suffix(paths) == suffix,
{
    lemma_longest_is_unique(paths, suffix, longest_common_suffix(paths));
}

/// Compares two paths element by element.
pub fn same_path(a: &Vec<u32>, b: &Vec<u32>) -> (r: bool)
    ensures
        r == (a@ == b@),
{
    if a.len() != b.len() {
        return false;
    }
    let mut i: usize = 0;
    while i < a.len()
        invariant
            a@.len() == b@.len(),
            i <= a@.len(),
            forall|k: int| 0 <= k < i ==> a@[k] == b@[k],
        decreases a@.len() - i,
    {
        if a[i] != b[i] {
            return false;
        }
        i += 1;
    }
    assert(a@ =~= b@);
    true
}

/// How many elements `first` and `other` share at their ends, counted up to
/// `limit`.
fn shared_tail(first: &Vec<u32>, other: &Vec<u32>, limit: usize) -> (k: usize)
    requires
        limit <= first@.len(),
    ensures
        k <= limit,
        is_suffix_of(tail_of(first@, k as int), other@),
        k < limit ==> !is_suffix_of(tail_of(first@, k + 1), other@),
{
    let n = first.len();
    let m = other.len();
    let mut k: usize = 0;
    while k < limit && k < m && first[n - 1 - k] == other[m - 1 - k]
        invariant
            n == first@.len(),
            m == other@.len(),
            limit <= n,
            k <= limit,
            k <= m,
            forall|i: int| n - k <= i < n ==> #[trigger] first@[i] == other@[i - n + m],
        decreases limit - k,
    {
        k += 1;
    }
    proof {
        let tail = tail_of(first@, k as int);
        assert forall|i: int| 0 <= i < tail.len() implies #[trigger] tail[i] == other@[other@.len()
            - tail.len() + i] by {
            assert(first@[n - k + i] == other@[n - k + i - n + m]);
        }
        if k < limit {
            let longer = tail_of(first@, k + 1);
            if k < m {
                assert(longer[0] == first@[n - 1 - k]);
                assert(other@[other@.len() - longer.len() + 0] == other@[m - 1 - k]);
            }
        }
    }
    k
}

/// The length of the longest common suffix of `paths`.
fn common_suffix_len(paths: &Vec<Vec<u32>>) -> (k: usize)
    requires
        paths@.len() > 0,
    ensures
        k <= paths@[0]@.len(),
        is_longest_common_suffix(path_set(paths@), tail_of(paths@[0]@, k as int)),
{
    let first = &paths[0];
    let mut k: usize = first.len();
    let ghost mut witness: int = 0;
    let mut j: usize = 1;
    proof {
        let whole = tail_of(first@, k as int);
        assert(whole =~= first@);
        assert(is_suffix_of(whole, paths@[0]@));
    }
    while j < paths.len()
        invariant
            paths@.len() > 0,
            first@ == paths@[0]@,
            1 <= j <= paths@.len(),
            k <= first@.len(),
            forall|i: int|
                0 <= i < j ==> is_suffix_of(tail_of(first@, k as int), (#[trigger] paths@[i])@),
            k < first@.len() ==> 0 <= witness < j && !is_suffix_of(
                tail_of(first@, k + 1),
                paths@[witness]@,
            ),
        decreases paths@.len() - j,
    {
        let shared = shared_tail(first, &paths[j], k);
        proof {
            let shorter = tail_of(first@, shared as int);
            let longer = tail_of(first@, k as int);
            assert(is_suffix_of(shorter, longer)) by {
                assert forall|i: int| 0 <= i < shorter.len() implies #[trigger] shorter[i]
                    == longer[longer.len() - shorter.len() + i] by {}
            }
            assert forall|i: int| 0 <= i < j + 1 implies is_suffix_of(
                shorter,
                (#[trigger] paths@[i])@,
            ) by {
                if i < j {
                    lemma_suffix_transitive(shorter, longer, paths@[i]@);
                }
            }
            if shared < k {
                witness = j as int;
            }
        }
        k = shared;
        j += 1;
    }
    proof {
        let set = path_set(paths@);
        let suffix = tail_of(first@, k as int);
        assert(is_common_suffix(set, suffix)) by {
            assert forall|p: Seq<u32>| #[trigger] set.contains(p) implies is_suffix_of(
                suffix,
                p,
            ) by {
                let i = choose|i: int|
                    0 <= i < paths@.len() && #[trigger] path_views(paths@)[i] == p;
                assert(is_suffix_of(suffix, paths@[i]@));
            }
        }
        assert forall|other: Seq<u32>| #[trigger] is_common_suffix(set, other) implies other.len()
            <= suffix.len() by {
            assert(path_views(paths@)[0] == first@);
            assert(set.contains(first@));
            assert(is_suffix_of(other, first@));
            if other.len() > k {
                let longer = tail_of(first@, k + 1);
                assert(is_suffix_of(longer, first@)) by {
                    assert forall|i: int| 0 <= i < longer.len() implies #[trigger] longer[i]
                        == first@[first@.len() - longer.len() + i] by {}
                }
                lemma_suffixes_nest(longer, other, first@);
                assert(path_views(paths@)[witness] == paths@[witness]@);
                assert(set.contains(paths@[witness]@));
                assert(is_suffix_of(other, paths@[witness]@));
                lemma_suffix_transitive(longer, other, paths@[witness]@);
            }
        }
    }
    k
}

/// What the paths have in common, in path order. There is nothing where
/// `paths` is empty or two paths end in different origins.
pub fn common_suffix(paths: &Vec<Vec<u32>>) -> (r: Option<Vec<u32>>)
    ensures
        match r {
            Some(suffix) => common_suffix_of(path_set(paths@)) == Some(suffix@),
            None => common_suffix_of(path_set(paths@)) == None::<Seq<u32>>,
        },
{
    if paths.len() == 0 {
        return None;
    }
    let k = common_suffix_len(paths);
    let first = &paths[0];
    proof {
        assert(path_views(paths@)[0] == paths@[0]@);
        assert(path_set(paths@).contains(paths@[0]@));
        lemma_longest_is_chosen(path_set(paths@), tail_of(first@, k as int));
    }
    if k == 0 {
        return None;
    }
    let n = first.len();
    let mut suffix: Vec<u32> = Vec::new();
    let mut i: usize = n - k;
    while i < n
        invariant
            n == first@.len(),
            0 < k <= n,
            n - k <= i <= n,
            suffix@ == first@.subrange(n - k, i as int),
        decreases n - i,
    {
        suffix.push(first[i]);
        assert(suffix@ =~= first@.subrange(n - k, i + 1));
        i += 1;
    }
    Some(suffix)
}

/// What the paths have in common, origin first: the candidate that is
/// cut back while the paths are compared from their origin outwards.
pub fn candidate(paths: &Vec<Vec<u32>>) -> (r: Option<Vec<u32>>)
    ensures
        match r {
            Some(c) => common_suffix_of(path_set(paths@)) is Some && c@ == common_suffix_of(
                path_set(paths@),
            )->Some_0.reverse(),
            None => common_suffix_of(path_set(paths@)) is None,
        },
{
    match common_suffix(paths) {
        None => None,
        Some(suffix) => {
            let n = suffix.len();
            let mut c: Vec<u32> = Vec::new();
            let mut i: usize = 0;
            while i < n
                invariant
                    n == suffix@.len(),
                    i <= n,
                    c@.len() == i,
                    forall|k: int| 0 <= k < i ==> c@[k] == suffix@[n - 1 - k],
                decreases n - i,
            {
                c.push(suffix[n - 1 - i]);
                i += 1;
            }
            assert(c@ =~= suffix@.reverse());
            Some(c)
        },
    }
}

/// The bottleneck of the paths: the first AS number of what they have in
/// common.
pub fn bottleneck(paths: &Vec<Vec<u32>>) -> (r: Option<u32>)
    ensures
        r == bottleneck_of(path_set(paths@)),
{
    if paths.len() == 0 {
        return None;
    }
    let k = common_suffix_len(paths);
    let first = &paths[0];
    proof {
        assert(path_views(paths@)[0] == paths@[0]@);
        assert(path_set(paths@).contains(paths@[0]@));
        lemma_longest_is_chosen(path_set(paths@), tail_of(first@, k as int));
    }
    if k == 0 {
        None
    } else {
        Some(first[first.len() - k])
    }
}

/// Among the suffixes of `p` no longer than `k`, one is a longest common
/// suffix, provided that no common suffix is longer than `k`.
proof fn lemma_longest_below(paths: Set<Seq<u32>>, p: Seq<u32>, k: int)
    requires
        paths.contains(p),
        0 <= k <= p.len(),
        forall|other: Seq<u32>| #[trigger] is_common_suffix(paths, other) ==> other.len() <= k,
    ensures
        exists|suffix: Seq<u32>| is_longest_common_suffix(paths, suffix),
    decreases k,
{
    let candidate = tail_of(p, k);
    if is_common_suffix(paths, candidate) {
        assert(is_longest_common_suffix(paths, candidate));
    } else {
        assert(k > 0) by {
            if k == 0 {
                assert forall|q: Seq<u32>| #[trigger] paths.contains(q) implies is_suffix_of(
                    candidate,
                    q,
                ) by {}
            }
        }
        assert forall|other: Seq<u32>| #[trigger] is_common_suffix(paths, other) implies other.len()
            <= k - 1 by {
            if other.len() == k {
                assert(is_suffix_of(other, p));
                lemma_suffix_is_tail(other, p);
            }
        }
        lemma_longest_below(paths, p, k - 1);
    }
}

/// A set that holds a path has a longest common suffix, and
/// [`longest_common_suffix`] names it.
pub proof fn lemma_longest_exists(paths: Set<Seq<u32>>)
    requires
        !no_paths(paths),
    ensures
        is_longest_common_suffix(paths, longest_common_suffix(paths)),
{
    let p = choose|p: Seq<u32>| paths.contains(p);
    assert forall|other: Seq<u32>| #[trigger] is_common_suffix(paths, other) implies other.len()
        <= p.len() by {
        assert(is_suffix_of(other, p));
    }
    lemma_longest_below(paths, p, p.len() as int);
}

/// The bottleneck lies on every path, and so does everything between it and
/// the origin: what the paths have in common is a suffix of each of them.
pub proof fn lemma_common_suffix_on_every_path(paths: Set<Seq<u32>>, p: Seq<u32>)
    requires
        paths.contains(p),
        common_suffix_of(paths) is Some,
    ensures
        is_suffix_of(common_suffix_of(paths)->Some_0, p),
        bottleneck_of(paths) == Some(p[p.len() - common_suffix_of(paths)->Some_0.len()]),
{
    lemma_longest_exists(paths);
    let suffix = longest_common_suffix(paths);
    assert(is_suffix_of(suffix, p));
    assert(suffix[0] == p[p.len() - suffix.len() + 0]);
}

/// The order in which the paths of a prefix are listed does not matter:
/// two lists that hold the same paths, each as often as the other, have the
/// same common suffix and the same bottleneck.
pub proof fn lemma_order_independent(a: Seq<Seq<u32>>, b: Seq<Seq<u32>>)
    requires
        a.to_multiset() == b.to_multiset(),
    ensures
        a.to_set() == b.to_set(),
        common_suffix_of(a.to_set()) == common_suffix_of(b.to_set()),
        bottleneck_of(a.to_set()) == bottleneck_of(b.to_set()),
{
    a.to_multiset_ensures();
    b.to_multiset_ensures();
    assert forall|p: Seq<u32>| a.to_set().contains(p) == b.to_set().contains(p) by {
        assert(a.contains(p) <==> a.to_multiset().count(p) > 0);
        assert(b.contains(p) <==> b.to_multiset().count(p) > 0);
    }
    assert(a.to_set() =~= b.to_set());
}

/// A prefix with one path has that whole path in common, and its first AS
/// number as bottleneck.
pub proof fn lemma_single_path(p: Seq<u32>)
    requires
        p.len() > 0,
    ensures
        common_suffix_of(set![p]) == Some(p),
        bottleneck_of(set![p]) == Some(p[0]),
{
    let paths = set![p];
    assert(paths.contains(p));
    assert(is_suffix_of(p, p));
    assert(is_common_suffix(paths, p));
    assert forall|other: Seq<u32>| #[trigger] is_common_suffix(paths, other) implies other.len()
        <= p.len() by {
        assert(is_suffix_of(other, p));
    }
    lemma_longest_is_chosen(paths, p);
}

/// Paths that end in different origins have nothing in common: their prefix
/// has no bottleneck. The same holds where a path is empty.
pub proof fn lemma_different_origins(paths: Set<Seq<u32>>, p: Seq<u32>, q: Seq<u32>)
    requires
        paths.contains(p),
        paths.contains(q),
        p.len() == 0 || q.len() == 0 || p.last() != q.last(),
    ensures
        common_suffix_of(paths) == None::<Seq<u32>>,
        bottleneck_of(paths) == None::<u32>,
{
    lemma_longest_exists(paths);
    let suffix = longest_common_suffix(paths);
    assert(is_suffix_of(suffix, p));
    assert(is_suffix_of(suffix, q));
    if suffix.len() > 0 {
        let last = suffix.len() - 1;
        assert(suffix[last] == p[p.len() - suffix.len() + last]);
        assert(suffix[last] == q[q.len() - suffix.len() + last]);
    }
}

/// Paths that share their origin have a bottleneck.
pub proof fn lemma_same_origin(paths: Set<Seq<u32>>, p: Seq<u32>)
    requires
        paths.contains(p),
        p.len() > 0,
        forall|q: Seq<u32>| #[trigger] paths.contains(q) ==> q.len() > 0 && q.last() == p.last(),
    ensures
        bottleneck_of(paths) is Some,
{
    lemma_longest_exists(paths);
    let origin = seq![p.last()];
    assert forall|q: Seq<u32>| #[trigger] paths.contains(q) implies is_suffix_of(origin, q) by {}
    assert(is_common_suffix(paths, origin));
}

} // verus!
