//! Offset-keyed sequences: items tagged with a `u64` offset, kept in
//! non-decreasing offset order by stable insertion.

use vstd::prelude::*;

verus! {

/// The items of `s` appear in non-decreasing order of their offsets.
pub open spec fn sorted_by_offset<T>(s: Seq<(u64, T)>) -> bool {
    forall|i: int, j: int| 0 <= i <= j < s.len() ==> s[i].0 <= s[j].0
}

/// Where an item with offset `key` goes when inserted into `s`: just after the
/// last item whose offset is at most `key` (so equal offsets keep their
/// insertion order).
pub open spec fn insertion_point<T>(s: Seq<(u64, T)>, key: u64) -> int
    decreases s.len(),
{
    if s.len() == 0 {
        0
    } else if s.last().0 <= key {
        s.len() as int
    } else {
        insertion_point(s.drop_last(), key)
    }
}

/// `s` with `e` inserted at its insertion point.
pub open spec fn insert_by_offset<T>(s: Seq<(u64, T)>, e: (u64, T)) -> Seq<(u64, T)> {
    let k = insertion_point(s, e.0);
    s.take(k) + seq![e] + s.skip(k)
}

/// Stable sort by offset: the items of `s` inserted one after the other.
pub open spec fn sort_by_offset<T>(s: Seq<(u64, T)>) -> Seq<(u64, T)>
    decreases s.len(),
{
    if s.len() == 0 {
        s
    } else {
        insert_by_offset(sort_by_offset(s.drop_last()), s.last())
    }
}

/// A partition index of a sorted sequence is its insertion point.
pub proof fn lemma_insertion_point_is_partition<T>(s: Seq<(u64, T)>, key: u64, idx: int)
    requires
        0 <= idx <= s.len(),
        forall|i: int| 0 <= i < idx ==> s[i].0 <= key,
        forall|i: int| idx <= i < s.len() ==> s[i].0 > key,
    ensures
        insertion_point(s, key) == idx,
    decreases s.len(),
{
    if s.len() > 0 && idx < s.len() {
        let t = s.drop_last();
        assert forall|i: int| idx <= i < t.len() implies t[i].0 > key by {
            assert(t[i] == s[i]);
        }
        lemma_insertion_point_is_partition(t, key, idx);
    }
}

/// The insertion point lies within the sequence and splits it into the items
/// at most `key` and the items above it.
pub proof fn lemma_insertion_point_bounds<T>(s: Seq<(u64, T)>, key: u64)
    requires
        sorted_by_offset(s),
    ensures
        0 <= insertion_point(s, key) <= s.len(),
        forall|i: int| 0 <= i < insertion_point(s, key) ==> s[i].0 <= key,
        forall|i: int| insertion_point(s, key) <= i < s.len() ==> s[i].0 > key,
    decreases s.len(),
{
    if s.len() > 0 {
        let t = s.drop_last();
        assert(sorted_by_offset(t));
        lemma_insertion_point_bounds(t, key);
        if s.last().0 > key {
            assert forall|i: int| insertion_point(s, key) <= i < s.len() implies s[i].0 > key by {
                if i < t.len() {
                    assert(s[i] == t[i]);
                }
            }
            assert forall|i: int| 0 <= i < insertion_point(s, key) implies s[i].0 <= key by {
                assert(s[i] == t[i]);
            }
        } else {
            assert forall|i: int| 0 <= i < s.len() implies s[i].0 <= key by {
                assert(s[i].0 <= s[s.len() - 1].0);
            }
        }
    }
}

/// Inserting keeps a sorted sequence sorted and adds exactly one item.
pub proof fn lemma_insert_sorted<T>(s: Seq<(u64, T)>, e: (u64, T))
    requires
        sorted_by_offset(s),
    ensures
        sorted_by_offset(insert_by_offset(s, e)),
        insert_by_offset(s, e).len() == s.len() + 1,
        insert_by_offset(s, e).to_multiset() == s.to_multiset().insert(e),
{
    lemma_insertion_point_bounds(s, e.0);
    let k = insertion_point(s, e.0);
    let r = insert_by_offset(s, e);
    assert(r.len() == s.len() + 1);
    assert forall|i: int, j: int| 0 <= i <= j < r.len() implies r[i].0 <= r[j].0 by {
        if i < k {
            assert(r[i] == s[i]);
        } else if i == k {
            assert(r[i] == e);
        } else {
            assert(r[i] == s[i - 1]);
        }
        if j < k {
            assert(r[j] == s[j]);
        } else if j == k {
            assert(r[j] == e);
        } else {
            assert(r[j] == s[j - 1]);
        }
    }
    broadcast use vstd::seq_lib::group_to_multiset_ensures;
    assert(r =~= s.insert(k, e));
}

/// The stable sort is sorted, keeps the length, and is a permutation.
pub proof fn lemma_sort_by_offset<T>(s: Seq<(u64, T)>)
    ensures
        sorted_by_offset(sort_by_offset(s)),
        sort_by_offset(s).len() == s.len(),
        sort_by_offset(s).to_multiset() == s.to_multiset(),
    decreases s.len(),
{
    if s.len() > 0 {
        let t = s.drop_last();
        lemma_sort_by_offset(t);
        lemma_insert_sorted(sort_by_offset(t), s.last());
        broadcast use vstd::seq_lib::group_to_multiset_ensures;
        assert(s =~= t.push(s.last()));
    }
}

/// Index at which an item with offset `key` is to be inserted into `v`
/// (binary search for the first item whose offset exceeds `key`).
pub fn find_insertion_point<T>(v: &Vec<(u64, T)>, key: u64) -> (idx: usize)
    requires
        sorted_by_offset(v@),
    ensures
        idx == insertion_point(v@, key),
        idx <= v.len(),
{
    let mut lo: usize = 0;
    let mut hi: usize = v.len();
    while lo < hi
        invariant
            0 <= lo <= hi <= v.len(),
            sorted_by_offset(v@),
            forall|i: int| 0 <= i < lo ==> v@[i].0 <= key,
            forall|i: int| hi <= i < v.len() ==> v@[i].0 > key,
        decreases hi - lo,
    {
        let mid = lo + (hi - lo) / 2;
        if v[mid].0 <= key {
            lo = mid + 1;
        } else {
            hi = mid;
        }
    }
    proof {
        lemma_insertion_point_is_partition(v@, key, lo as int);
    }
    lo
}

/// Insert `e` into the sorted vector `v` at its insertion point.
pub fn insert_sorted<T>(v: &mut Vec<(u64, T)>, e: (u64, T))
    requires
        sorted_by_offset(old(v)@),
    ensures
        final(v)@ == insert_by_offset(old(v)@, e),
        sorted_by_offset(final(v)@),
{
    let idx = find_insertion_point(v, e.0);
    proof {
        lemma_insert_sorted(v@, e);
    }
    v.insert(idx, e);
    assert(v@ =~= insert_by_offset(old(v)@, e));
}

/// The items of `v` in reverse order, so that popping them from the end
/// yields them in their original order.
pub fn reversed<T>(v: Vec<T>) -> (r: Vec<T>)
    ensures
        r@.len() == v@.len(),
        forall|j: int| 0 <= j < r@.len() ==> #[trigger] r@[j] == v@[v@.len() - 1 - j],
{
    let ghost orig = v@;
    let mut src = v;
    let mut out: Vec<T> = Vec::new();
    while src.len() > 0
        invariant
            src@ == orig.subrange(0, src@.len() as int),
            out@.len() + src@.len() == orig.len(),
            forall|j: int| 0 <= j < out@.len() ==> #[trigger] out@[j] == orig[orig.len() - 1 - j],
        decreases src@.len(),
    {
        let e = src.pop().unwrap();
        out.push(e);
        assert(src@ =~= orig.subrange(0, src@.len() as int));
    }
    out
}

/// Stable sort of `v` by offset.
pub fn sort_by_offset_vec<T>(v: Vec<(u64, T)>) -> (r: Vec<(u64, T)>)
    ensures
        r@ == sort_by_offset(v@),
{
    let ghost orig = v@;
    let mut rest = reversed(v);
    let mut out: Vec<(u64, T)> = Vec::new();
    let ghost mut k: int = 0;
    proof {
        assert(orig.take(0) =~= Seq::<(u64, T)>::empty());
    }
    while rest.len() > 0
        invariant
            0 <= k <= orig.len(),
            rest@.len() == orig.len() - k,
            forall|j: int| 0 <= j < rest@.len() ==> #[trigger] rest@[j] == orig[orig.len() - 1 - j],
            out@ == sort_by_offset(orig.take(k)),
        decreases rest.len(),
    {
        let ghost r0 = rest@;
        let e = rest.pop().unwrap();
        proof {
            assert(e == r0[r0.len() - 1]);
            assert(e == orig[k]);
            lemma_sort_by_offset(orig.take(k));
            assert(orig.take(k + 1).drop_last() =~= orig.take(k));
            assert(orig.take(k + 1).last() == orig[k]);
        }
        insert_sorted(&mut out, e);
        proof {
            k = k + 1;
            assert forall|j: int| 0 <= j < rest@.len() implies #[trigger] rest@[j] == orig[orig.len() - 1 - j] by {
                assert(rest@[j] == r0[j]);
            }
        }
    }
    proof {
        assert(orig.take(k) =~= orig);
    }
    out
}

} // verus!
