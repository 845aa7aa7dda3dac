//! Vectors of items kept in increasing order of a key, read as maps.
//!
//! Both collections of the registry are such vectors. This module holds
//! what they share: the map a sequence stands for, the lookup by bisection,
//! and the facts that appending, replacing and selecting items do to the
//! map what one expects.

use vstd::prelude::*;

verus! {

/// An item that is ordered by a number.
pub(crate) trait Ranked {
    /// The number the item is ordered by.
    spec fn rank(&self) -> usize;

    /// Reads the number the item is ordered by.
    fn rank_of(&self) -> (r: usize)
        ensures
            r == self.rank(),
    ;
}

/// The ranks strictly increase along the sequence.
pub(crate) open spec fn rising<T: Ranked>(s: Seq<T>) -> bool {
    forall|i: int, j: int| 0 <= i < j < s.len() ==> s[i].rank() < s[j].rank()
}

/// The item at index `i` has the key `k`.
pub(crate) open spec fn sits_at<T, K>(s: Seq<T>, key: spec_fn(T) -> K, k: K, i: int) -> bool {
    0 <= i < s.len() && key(s[i]) == k
}

/// No two items of the sequence have the same key.
pub(crate) open spec fn distinct<T, K>(s: Seq<T>, key: spec_fn(T) -> K) -> bool {
    forall|i: int, j: int| 0 <= i < j < s.len() ==> key(s[i]) != key(s[j])
}

/// An index at which the key `k` sits.
pub(crate) open spec fn position<T, K>(s: Seq<T>, key: spec_fn(T) -> K, k: K) -> int {
    choose|i: int| sits_at(s, key, k, i)
}

/// The map that the sequence stands for: each item's key to its value.
pub(crate) open spec fn as_map<T, K, V>(s: Seq<T>, key: spec_fn(T) -> K, val: spec_fn(T) -> V) -> Map<
    K,
    V,
> {
    Map::new(|k: K| exists|i: int| sits_at(s, key, k, i), |k: K| val(s[position(s, key, k)]))
}

/// `origin` picks, in increasing order, exactly the indices below `upto`
/// that satisfy `picked`.
pub(crate) open spec fn selects(origin: Seq<int>, upto: int, picked: spec_fn(int) -> bool) -> bool {
    &&& forall|k: int| 0 <= k < origin.len() ==> 0 <= #[trigger] origin[k] < upto && picked(origin[k])
    &&& forall|k: int, l: int| 0 <= k < l < origin.len() ==> origin[k] < origin[l]
    &&& forall|j: int|
        0 <= j < upto && #[trigger] picked(j) ==> exists|k: int|
            0 <= k < origin.len() && #[trigger] origin[k] == j
}

/// Extending the range by an index that is picked.
pub(crate) proof fn lemma_selects_take(origin: Seq<int>, upto: int, picked: spec_fn(int) -> bool)
    requires
        selects(origin, upto, picked),
        picked(upto),
        0 <= upto,
    ensures
        selects(origin.push(upto), upto + 1, picked),
{
    let next = origin.push(upto);
    assert forall|j: int| 0 <= j < upto + 1 && #[trigger] picked(j) implies exists|k: int|
        0 <= k < next.len() && #[trigger] next[k] == j by {
        if j == upto {
            assert(next[origin.len() as int] == j);
        } else {
            let k = choose|k: int| 0 <= k < origin.len() && #[trigger] origin[k] == j;
            assert(next[k] == j);
        }
    }
}

/// Extending the range by an index that is not picked.
pub(crate) proof fn lemma_selects_skip(origin: Seq<int>, upto: int, picked: spec_fn(int) -> bool)
    requires
        selects(origin, upto, picked),
        !picked(upto),
    ensures
        selects(origin, upto + 1, picked),
{
}

/// Items whose keys say their ranks have distinct keys when their ranks
/// rise.
pub(crate) proof fn lemma_rising_distinct<T: Ranked, K>(s: Seq<T>, key: spec_fn(T) -> K)
    requires
        rising(s),
        forall|a: T, b: T| #[trigger] key(a) == #[trigger] key(b) ==> a.rank() == b.rank(),
    ensures
        distinct(s, key),
{
    assert forall|i: int, j: int| 0 <= i < j < s.len() implies key(s[i]) != key(s[j]) by {
        assert(s[i].rank() < s[j].rank());
    }
}

/// Each item of a sequence with distinct keys is what the map holds under
/// its key.
pub(crate) proof fn lemma_item_in_map<T, K, V>(
    s: Seq<T>,
    key: spec_fn(T) -> K,
    val: spec_fn(T) -> V,
    i: int,
)
    requires
        distinct(s, key),
        0 <= i < s.len(),
    ensures
        as_map(s, key, val).contains_key(key(s[i])),
        as_map(s, key, val)[key(s[i])] == val(s[i]),
        position(s, key, key(s[i])) == i,
{
    let k = key(s[i]);
    assert(sits_at(s, key, k, i));
    let j = position(s, key, k);
    assert(sits_at(s, key, k, j));
    if j < i {
        assert(key(s[j]) != key(s[i]));
    } else if i < j {
        assert(key(s[i]) != key(s[j]));
    }
}

/// Appending an item inserts it into the map.
pub(crate) proof fn lemma_map_push<T, K, V>(s: Seq<T>, key: spec_fn(T) -> K, val: spec_fn(T) -> V, e: T)
    requires
        distinct(s.push(e), key),
    ensures
        distinct(s, key),
        as_map(s.push(e), key, val) == as_map(s, key, val).insert(key(e), val(e)),
{
    let t = s.push(e);
    let n = s.len() as int;
    assert(distinct(s, key)) by {
        assert forall|i: int, j: int| 0 <= i < j < s.len() implies key(s[i]) != key(s[j]) by {
            assert(key(t[i]) != key(t[j]));
        }
    }
    let left = as_map(t, key, val);
    let right = as_map(s, key, val).insert(key(e), val(e));
    assert forall|k: K| #[trigger] left.contains_key(k) <==> right.contains_key(k) by {
        if left.contains_key(k) {
            let i = position(t, key, k);
            assert(sits_at(t, key, k, i));
            if i < n {
                assert(sits_at(s, key, k, i));
            }
        }
        if right.contains_key(k) {
            if k == key(e) {
                assert(sits_at(t, key, k, n));
            } else {
                let i = position(s, key, k);
                assert(sits_at(s, key, k, i));
                assert(sits_at(t, key, k, i));
            }
        }
    }
    assert forall|k: K| left.contains_key(k) implies #[trigger] left[k] == right[k] by {
        let i = position(t, key, k);
        assert(sits_at(t, key, k, i));
        lemma_item_in_map(t, key, val, i);
        if i < n {
            lemma_item_in_map(s, key, val, i);
            assert(key(t[i]) != key(t[n]));
        }
    }
    assert(left =~= right);
}

/// Replacing an item by one with the same key overwrites it in the map.
pub(crate) proof fn lemma_map_update<T, K, V>(
    s: Seq<T>,
    key: spec_fn(T) -> K,
    val: spec_fn(T) -> V,
    i: int,
    e: T,
)
    requires
        distinct(s, key),
        0 <= i < s.len(),
        key(e) == key(s[i]),
    ensures
        distinct(s.update(i, e), key),
        as_map(s.update(i, e), key, val) == as_map(s, key, val).insert(key(e), val(e)),
{
    let t = s.update(i, e);
    assert(distinct(t, key)) by {
        assert forall|a: int, b: int| 0 <= a < b < t.len() implies key(t[a]) != key(t[b]) by {
            assert(key(s[a]) != key(s[b]));
        }
    }
    let left = as_map(t, key, val);
    let right = as_map(s, key, val).insert(key(e), val(e));
    assert forall|k: K| #[trigger] left.contains_key(k) <==> right.contains_key(k) by {
        if left.contains_key(k) {
            let j = position(t, key, k);
            assert(sits_at(t, key, k, j));
            assert(sits_at(s, key, k, j));
        }
        if right.contains_key(k) {
            if k == key(e) {
                assert(sits_at(t, key, k, i));
            } else {
                let j = position(s, key, k);
                assert(sits_at(s, key, k, j));
                assert(sits_at(t, key, k, j));
            }
        }
    }
    assert forall|k: K| left.contains_key(k) implies #[trigger] left[k] == right[k] by {
        let j = position(t, key, k);
        assert(sits_at(t, key, k, j));
        lemma_item_in_map(t, key, val, j);
        lemma_item_in_map(s, key, val, j);
    }
    assert(left =~= right);
}

/// The keys that sit at an index that is not picked.
pub(crate) open spec fn dropped_keys<T, K>(s: Seq<T>, key: spec_fn(T) -> K, picked: spec_fn(int) -> bool) -> Set<
    K,
> {
    Set::new(|k: K| exists|j: int| sits_at(s, key, k, j) && !picked(j))
}

/// Keeping a selection of the items removes the keys of the others from
/// the map, and keeps the ranks rising.
pub(crate) proof fn lemma_selection<T: Ranked, K, V>(
    before: Seq<T>,
    key: spec_fn(T) -> K,
    val: spec_fn(T) -> V,
    kept: Seq<T>,
    origin: Seq<int>,
    picked: spec_fn(int) -> bool,
)
    requires
        rising(before),
        distinct(before, key),
        origin.len() == kept.len(),
        selects(origin, before.len() as int, picked),
        forall|k: int| 0 <= k < kept.len() ==> #[trigger] kept[k] == before[origin[k]],
    ensures
        rising(kept),
        distinct(kept, key),
        as_map(kept, key, val) == as_map(before, key, val).remove_keys(
            dropped_keys(before, key, picked),
        ),
{
    assert forall|a: int, b: int| 0 <= a < b < kept.len() implies kept[a].rank() < kept[b].rank()
        && key(kept[a]) != key(kept[b]) by {
        assert(kept[a] == before[origin[a]]);
        assert(kept[b] == before[origin[b]]);
        assert(origin[a] < origin[b]);
    }
    let left = as_map(kept, key, val);
    let right = as_map(before, key, val).remove_keys(dropped_keys(before, key, picked));
    assert forall|k: K| #[trigger] left.contains_key(k) <==> right.contains_key(k) by {
        if left.contains_key(k) {
            let a = position(kept, key, k);
            assert(sits_at(kept, key, k, a));
            let j = origin[a];
            assert(kept[a] == before[j]);
            assert(sits_at(before, key, k, j));
            assert(picked(j));
            if dropped_keys(before, key, picked).contains(k) {
                let other = choose|other: int| sits_at(before, key, k, other) && !picked(other);
                if other < j {
                    assert(key(before[other]) != key(before[j]));
                } else if j < other {
                    assert(key(before[j]) != key(before[other]));
                }
            }
        }
        if right.contains_key(k) {
            let j = position(before, key, k);
            assert(sits_at(before, key, k, j));
            assert(picked(j));
            let a = choose|a: int| 0 <= a < origin.len() && #[trigger] origin[a] == j;
            assert(kept[a] == before[j]);
            assert(sits_at(kept, key, k, a));
        }
    }
    assert forall|k: K| left.contains_key(k) implies #[trigger] left[k] == right[k] by {
        let a = position(kept, key, k);
        assert(sits_at(kept, key, k, a));
        lemma_item_in_map(kept, key, val, a);
        let j = origin[a];
        assert(kept[a] == before[j]);
        lemma_item_in_map(before, key, val, j);
    }
    assert(left =~= right);
}

/// Finds the item with the given rank by bisection.
pub(crate) fn bisect<T: Ranked>(items: &Vec<T>, rank: usize) -> (found: Option<usize>)
    requires
        rising(items@),
    ensures
        match found {
            Some(i) => i < items.len() && items[i as int].rank() == rank,
            None => forall|i: int| 0 <= i < items.len() ==> items[i].rank() != rank,
        },
{
    let mut low: usize = 0;
    let mut high: usize = items.len();
    while low < high
        invariant
            rising(items@),
            low <= high <= items.len(),
            forall|i: int| 0 <= i < low ==> items[i].rank() < rank,
            forall|i: int| high <= i < items.len() ==> rank < items[i].rank(),
        decreases high - low,
    {
        let mid: usize = low + (high - low) / 2;
        let here: usize = items[mid].rank_of();
        if here == rank {
            return Some(mid);
        } else if here < rank {
            low = mid + 1;
        } else {
            high = mid;
        }
    }
    None
}

/// The indices that `marks` marks.
pub(crate) open spec fn marked(marks: Seq<bool>) -> spec_fn(int) -> bool {
    |j: int| marks[j]
}

/// The indices that `marks` does not mark.
pub(crate) open spec fn unmarked(marks: Seq<bool>) -> spec_fn(int) -> bool {
    |j: int| !marks[j]
}

/// Takes the marked items out of the vector. The unmarked ones stay, the
/// marked ones are returned, both in the order they had. The ghost results
/// give, for each item that stays and for each that leaves, the index it
/// had.
pub(crate) fn split<T>(items: &mut Vec<T>, marks: &Vec<bool>) -> (out: (
    Vec<T>,
    Ghost<Seq<int>>,
    Ghost<Seq<int>>,
))
    requires
        marks.len() == old(items).len(),
    ensures
        selects(out.1@, old(items).len() as int, unmarked(marks@)),
        selects(out.2@, old(items).len() as int, marked(marks@)),
        final(items).len() == out.1@.len(),
        forall|k: int|
            0 <= k < final(items).len() ==> #[trigger] final(items)[k] == old(items)[out.1@[k]],
        out.0.len() == out.2@.len(),
        forall|k: int| 0 <= k < out.0.len() ==> #[trigger] out.0[k] == old(items)[out.2@[k]],
{
    let ghost before = items@;
    let mut taken: Vec<T> = Vec::new();
    core::mem::swap(items, &mut taken);
    let mut dropped: Vec<T> = Vec::new();
    let ghost mut origin: Seq<int> = Seq::empty();
    let ghost mut gone: Seq<int> = Seq::empty();
    let mut i: usize = 0;
    for item in it: taken
        invariant
            it.seq() == before,
            i == it.index(),
            marks.len() == before.len(),
            origin.len() == items.len(),
            selects(origin, i as int, unmarked(marks@)),
            forall|k: int| 0 <= k < items.len() ==> #[trigger] items[k] == before[origin[k]],
            gone.len() == dropped.len(),
            selects(gone, i as int, marked(marks@)),
            forall|k: int| 0 <= k < dropped.len() ==> #[trigger] dropped[k] == before[gone[k]],
    {
        if marks[i] {
            dropped.push(item);
            proof {
                lemma_selects_skip(origin, i as int, unmarked(marks@));
                lemma_selects_take(gone, i as int, marked(marks@));
                gone = gone.push(i as int);
            }
        } else {
            items.push(item);
            proof {
                lemma_selects_take(origin, i as int, unmarked(marks@));
                lemma_selects_skip(gone, i as int, marked(marks@));
                origin = origin.push(i as int);
            }
        }
        i = i + 1;
    }
    (dropped, Ghost(origin), Ghost(gone))
}

} // verus!
