use vstd::prelude::*;
use std::cmp::Ordering;
use rayon::slice::ParallelSliceMut;
use crate::node::Node;

verus! {

/// A value that sorts by an integer key.
pub trait Keyed {
    spec fn key_of(&self) -> int;

    fn key(&self) -> (k: i32)
        ensures
            k == self.key_of(),
    ;
}

impl Keyed for Node {
    open spec fn key_of(&self) -> int {
        self.node_cost as int
    }

    fn key(&self) -> (k: i32) {
        self.node_cost
    }
}

/// A penalty of one row or column: the difference of costs first, then the
/// row or column it belongs to.
impl Keyed for (i32, i32) {
    open spec fn key_of(&self) -> int {
        self.0 as int
    }

    fn key(&self) -> (k: i32) {
        self.0
    }
}

/// The three-way comparison of two keyed values by their keys.
pub fn compare_keys<T: Keyed>(a: &T, b: &T) -> (o: Ordering)
    ensures
        (o == Ordering::Less) == (a.key_of() < b.key_of()),
        (o == Ordering::Equal) == (a.key_of() == b.key_of()),
        (o == Ordering::Greater) == (a.key_of() > b.key_of()),
{
    let ka = a.key();
    let kb = b.key();
    if ka < kb {
        Ordering::Less
    } else if ka == kb {
        Ordering::Equal
    } else {
        Ordering::Greater
    }
}

/// `new` holds the elements of `old`, element `i` of `new` being element
/// `p[i]` of `old`, each element of `old` used exactly once.
pub open spec fn is_permutation<T>(old: Seq<T>, new: Seq<T>, p: Seq<int>) -> bool {
    &&& new.len() == old.len()
    &&& p.len() == old.len()
    &&& forall|i: int| 0 <= i < new.len() ==> 0 <= #[trigger] p[i] < old.len() && new[i] == old[p[i]]
    &&& forall|i: int, j: int| 0 <= i < j < new.len() ==> #[trigger] p[i] != #[trigger] p[j]
    &&& forall|k: int| 0 <= k < old.len() ==> #[trigger] hits(p, new.len() as int, k)
}

/// Some position before `n` of `p` holds `k`.
pub open spec fn hits(p: Seq<int>, n: int, k: int) -> bool {
    exists|i: int| 0 <= i < n && p[i] == k
}

/// The keys never decrease along `s`.
pub open spec fn sorted_by_key<T: Keyed>(s: Seq<T>) -> bool {
    forall|i: int, j: int| 0 <= i <= j < s.len() ==> (#[trigger] s[i]).key_of() <= (#[trigger] s[j]).key_of()
}

/// `new` is `old` sorted by key, elements of equal key kept in their order.
pub open spec fn stable_sorted<T: Keyed>(old: Seq<T>, new: Seq<T>) -> bool {
    &&& sorted_by_key(new)
    &&& exists|p: Seq<int>|
        #[trigger] is_permutation(old, new, p) && forall|i: int, j: int|
            0 <= i < j < new.len() && (#[trigger] new[i]).key_of() == (#[trigger] new[j]).key_of()
                ==> p[i] < p[j]
}

/// `k` is the first position of a smallest key in `s`.
pub open spec fn is_first_min<T: Keyed>(s: Seq<T>, k: int) -> bool {
    &&& 0 <= k < s.len()
    &&& forall|j: int| 0 <= j < s.len() ==> s[k].key_of() <= (#[trigger] s[j]).key_of()
    &&& forall|j: int| 0 <= j < k ==> (#[trigger] s[j]).key_of() > s[k].key_of()
}

/// `k` is the last position of a largest key in `s`.
pub open spec fn is_last_max<T: Keyed>(s: Seq<T>, k: int) -> bool {
    &&& 0 <= k < s.len()
    &&& forall|j: int| 0 <= j < s.len() ==> (#[trigger] s[j]).key_of() <= s[k].key_of()
    &&& forall|j: int| k < j < s.len() ==> (#[trigger] s[j]).key_of() < s[k].key_of()
}

/// `c` is the smallest key of `s` once the first smallest element, at `k`, is set aside.
pub open spec fn is_runner_up_key<T: Keyed>(s: Seq<T>, k: int, c: int) -> bool {
    &&& exists|j: int| 0 <= j < s.len() && j != k && (#[trigger] s[j]).key_of() == c
    &&& forall|j: int| 0 <= j < s.len() && j != k ==> c <= (#[trigger] s[j]).key_of()
}

/// The first position of a smallest key.
pub open spec fn first_min<T: Keyed>(s: Seq<T>) -> int {
    choose|k: int| is_first_min(s, k)
}

/// The last position of a largest key.
pub open spec fn last_max<T: Keyed>(s: Seq<T>) -> int {
    choose|k: int| is_last_max(s, k)
}

/// The smallest key once the first smallest element is set aside.
pub open spec fn runner_up_key<T: Keyed>(s: Seq<T>) -> int {
    choose|c: int| is_runner_up_key(s, first_min(s), c)
}

/// The first position of a smallest key is unique.
pub proof fn lemma_first_min_unique<T: Keyed>(s: Seq<T>, k: int)
    requires
        is_first_min(s, k),
    ensures
        first_min(s) == k,
{
    let k2 = first_min(s);
    assert(is_first_min(s, k2));
    if k2 < k {
        assert(s[k2].key_of() > s[k].key_of());
    } else if k < k2 {
        assert(s[k].key_of() > s[k2].key_of());
    }
}

/// The last position of a largest key is unique.
pub proof fn lemma_last_max_unique<T: Keyed>(s: Seq<T>, k: int)
    requires
        is_last_max(s, k),
    ensures
        last_max(s) == k,
{
    let k2 = last_max(s);
    assert(is_last_max(s, k2));
    if k2 < k {
        assert(s[k].key_of() < s[k2].key_of());
    } else if k < k2 {
        assert(s[k2].key_of() < s[k].key_of());
    }
}

/// The first element of a stable sort is the first smallest element, and the
/// second one carries the runner-up key.
pub proof fn lemma_stable_sorted_front<T: Keyed>(old: Seq<T>, new: Seq<T>)
    requires
        stable_sorted(old, new),
        old.len() > 0,
    ensures
        new[0] == old[first_min(old)],
        is_first_min(old, first_min(old)),
        old.len() > 1 ==> new[1].key_of() == runner_up_key(old),
{
    let p = choose|p: Seq<int>|
        #[trigger] is_permutation(old, new, p) && forall|i: int, j: int|
            0 <= i < j < new.len() && (#[trigger] new[i]).key_of() == (#[trigger] new[j]).key_of()
                ==> p[i] < p[j];
    let k0 = p[0];
    assert forall|j: int| 0 <= j < old.len() implies old[k0].key_of() <= (#[trigger] old[j]).key_of() by {
        assert(hits(p, new.len() as int, j));
        let i = choose|i: int| 0 <= i < new.len() && p[i] == j;
        assert(new[0].key_of() <= new[i].key_of());
    }
    assert forall|j: int| 0 <= j < k0 implies (#[trigger] old[j]).key_of() > old[k0].key_of() by {
        assert(hits(p, new.len() as int, j));
        let i = choose|i: int| 0 <= i < new.len() && p[i] == j;
        if old[j].key_of() <= old[k0].key_of() {
            assert(new[0].key_of() <= new[i].key_of());
            assert(i != 0);
            assert(p[0] < p[i]);
        }
    }
    assert(is_first_min(old, k0));
    lemma_first_min_unique(old, k0);
    if old.len() > 1 {
        let c = new[1].key_of();
        assert(p[1] != p[0]);
        assert(old[p[1]] == new[1]);
        assert forall|j: int| 0 <= j < old.len() && j != k0 implies c <= (#[trigger] old[j]).key_of() by {
            assert(hits(p, new.len() as int, j));
        let i = choose|i: int| 0 <= i < new.len() && p[i] == j;
            assert(i != 0);
            assert(new[1].key_of() <= new[i].key_of());
        }
        assert(is_runner_up_key(old, k0, c));
        let c2 = runner_up_key(old);
        assert(is_runner_up_key(old, k0, c2));
        let j2 = choose|j: int| 0 <= j < old.len() && j != k0 && (#[trigger] old[j]).key_of() == c2;
        assert(c <= c2);
        assert(c2 <= old[p[1]].key_of());
    }
}

/// The last element of a stable sort is the last largest element.
pub proof fn lemma_stable_sorted_back<T: Keyed>(old: Seq<T>, new: Seq<T>)
    requires
        stable_sorted(old, new),
        old.len() > 0,
    ensures
        new[new.len() - 1] == old[last_max(old)],
        is_last_max(old, last_max(old)),
{
    let p = choose|p: Seq<int>|
        #[trigger] is_permutation(old, new, p) && forall|i: int, j: int|
            0 <= i < j < new.len() && (#[trigger] new[i]).key_of() == (#[trigger] new[j]).key_of()
                ==> p[i] < p[j];
    let n = new.len() - 1;
    let km = p[n];
    assert forall|j: int| 0 <= j < old.len() implies (#[trigger] old[j]).key_of() <= old[km].key_of() by {
        assert(hits(p, new.len() as int, j));
        let i = choose|i: int| 0 <= i < new.len() && p[i] == j;
        assert(new[i].key_of() <= new[n].key_of());
    }
    assert forall|j: int| km < j < old.len() implies (#[trigger] old[j]).key_of() < old[km].key_of() by {
        assert(hits(p, new.len() as int, j));
        let i = choose|i: int| 0 <= i < new.len() && p[i] == j;
        assert(new[i].key_of() <= new[n].key_of());
        if old[j].key_of() == old[km].key_of() {
            assert(i != n);
            assert(p[i] < p[n]);
        }
    }
    assert(is_last_max(old, km));
    lemma_last_max_unique(old, km);
}

// ---------------------------------------------------------------------------
// Trusted sorts.
// ---------------------------------------------------------------------------

/// `slice::sort_by_key` of std with the node's cost as key: std documents it
/// as a sort that keeps the order of equal elements.
#[verifier::external_body]
pub(crate) fn sort_by_cost(v: &mut Vec<Node>)
    ensures
        stable_sorted(old(v)@, final(v)@),
{
    v.sort_by_key(|node| node.node_cost)
}

/// `ParallelSliceMut::par_sort_by` of rayon with `compare_keys` as the
/// comparator: rayon documents it as a stable sort.
#[verifier::external_body]
pub(crate) fn par_sort_stable<T: Keyed + Send>(v: &mut Vec<T>)
    ensures
        stable_sorted(old(v)@, final(v)@),
{
    v.par_sort_by(|a, b| compare_keys(a, b))
}

/// The preference of a cell first, its cost next.
pub open spec fn preference_le(a: (i64, Node), b: (i64, Node)) -> bool {
    a.0 < b.0 || (a.0 == b.0 && a.1.node_cost <= b.1.node_cost)
}

/// The key a preference-and-node pair sorts by.
pub fn preference_key(item: &(i64, Node)) -> (k: (i64, i32))
    ensures
        k == (item.0, item.1.node_cost),
{
    (item.0, item.1.node_cost)
}

/// `ParallelSliceMut::par_sort_unstable_by_key` of rayon with
/// `preference_key` as the key: the result is a permutation ordered by the
/// key, tuples ordering lexicographically; the order of equal keys is left open.
#[verifier::external_body]
pub(crate) fn par_sort_by_preference(v: &mut Vec<(i64, Node)>)
    ensures
        forall|i: int, j: int|
            0 <= i <= j < final(v)@.len() ==> preference_le(#[trigger] final(v)@[i], #[trigger] final(v)@[j]),
        exists|p: Seq<int>| #[trigger] is_permutation(old(v)@, final(v)@, p),
{
    v.par_sort_unstable_by_key(|item| preference_key(item))
}

} // verus!
