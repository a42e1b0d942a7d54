//! Fragment-backed byte-range readers.
//!
//! A [`FragmentStore`] holds pieces of a file, each tagged with its absolute
//! offset, sorted by offset. A read of `[offset, offset + length)` is served
//! from the fragments that overlap it, found by two binary searches: one over
//! the fragment starts, one over the running maximum of fragment ends.
//! [`FragmentRangeReader`] fails on any uncovered range;
//! [`RecordingRangeReader`] records the gaps it meets so that a driver can
//! fetch them and retry. [`merge_ranges`] coalesces ranges into a minimal
//! cover.

use vstd::prelude::*;
use crate::error::MdfError;
use crate::keyed::{
    insert_by_offset,
    insert_sorted,
    sort_by_offset,
    sort_by_offset_vec,
    sorted_by_offset,
    lemma_sort_by_offset,
};

verus! {

// ---------------------------------------------------------------------------
// Model
// ---------------------------------------------------------------------------

/// One past the last byte of a fragment.
pub open spec fn frag_end(f: (u64, Vec<u8>)) -> int {
    f.0 + f.1@.len()
}

/// The fragment holds byte `p`.
pub open spec fn frag_covers(f: (u64, Vec<u8>), p: int) -> bool {
    f.0 <= p < frag_end(f)
}

/// The fragment holds all of `[off, end)`.
pub open spec fn frag_contains(f: (u64, Vec<u8>), off: int, end: int) -> bool {
    f.0 <= off && end <= frag_end(f)
}

/// Index of the first fragment at or after `i` that holds all of
/// `[off, end)`, or -1.
pub open spec fn first_container_from(frags: Seq<(u64, Vec<u8>)>, off: int, end: int, i: int) -> int
    decreases frags.len() - i,
{
    if i < 0 || i >= frags.len() {
        -1
    } else if frag_contains(frags[i], off, end) {
        i
    } else {
        first_container_from(frags, off, end, i + 1)
    }
}

/// Index of the last of the first `n` fragments that holds byte `p`, or -1.
pub open spec fn last_cover(frags: Seq<(u64, Vec<u8>)>, p: int, n: int) -> int
    decreases n,
{
    if n <= 0 || n > frags.len() {
        -1
    } else if frag_covers(frags[n - 1], p) {
        n - 1
    } else {
        last_cover(frags, p, n - 1)
    }
}

/// Some fragment holds byte `p`.
pub open spec fn covered(frags: Seq<(u64, Vec<u8>)>, p: int) -> bool {
    last_cover(frags, p, frags.len() as int) >= 0
}

/// The value of byte `p` as the last fragment that holds it gives it.
pub open spec fn byte_at(frags: Seq<(u64, Vec<u8>)>, p: int) -> u8 {
    let j = last_cover(frags, p, frags.len() as int);
    frags[j].1@[p - frags[j].0]
}

/// First byte in `[p, end)` that no fragment holds, or `end`.
pub open spec fn first_uncovered_from(frags: Seq<(u64, Vec<u8>)>, p: int, end: int) -> int
    decreases end - p,
{
    if p >= end {
        end
    } else if !covered(frags, p) {
        p
    } else {
        first_uncovered_from(frags, p + 1, end)
    }
}

/// Abstract outcome of assembling a range.
pub enum Assembled {
    /// The range is covered; these are its bytes.
    Full(Seq<u8>),
    /// The range is not covered: the first missing byte and the length from
    /// there to the end of the request.
    Gap(u64, u64),
}

/// What assembling the non-empty range `[off, off + len)` gives. A single
/// fragment that holds the whole range serves it (the first such fragment in
/// store order); otherwise the range is stitched from all fragments, a later
/// fragment taking precedence where fragments overlap.
pub open spec fn assemble_spec(frags: Seq<(u64, Vec<u8>)>, off: u64, len: u64) -> Assembled {
    let end = off + len;
    let c = first_container_from(frags, off as int, end, 0);
    if c >= 0 {
        Assembled::Full(frags[c].1@.subrange(off - frags[c].0, end - frags[c].0))
    } else {
        let g = first_uncovered_from(frags, off as int, end);
        if g >= end {
            Assembled::Full(Seq::new(len as nat, |k: int| byte_at(frags, off + k)))
        } else {
            Assembled::Gap(g as u64, (end - g) as u64)
        }
    }
}

/// The full outcome of a read of `[offset, offset + length)`, errors included.
pub open spec fn assemble_outcome(frags: Seq<(u64, Vec<u8>)>, offset: u64, length: u64) -> Result<Assembled, MdfError> {
    if length == 0 {
        Ok(Assembled::Full(Seq::empty()))
    } else if offset + length > u64::MAX {
        Err(MdfError::RangeEndOverflow)
    } else if length > usize::MAX {
        Err(MdfError::AddressOverflow(length))
    } else {
        Ok(assemble_spec(frags, offset, length))
    }
}

/// Largest end among the first `n` fragments (0 when there are none).
pub open spec fn prefix_max_end(frags: Seq<(u64, Vec<u8>)>, n: int) -> int
    decreases n,
{
    if n <= 0 {
        0
    } else {
        let m = prefix_max_end(frags, n - 1);
        let e = frag_end(frags[n - 1]);
        if m >= e { m } else { e }
    }
}

// ---------------------------------------------------------------------------
// Lemmas on the model
// ---------------------------------------------------------------------------

proof fn lemma_first_container_skip(frags: Seq<(u64, Vec<u8>)>, off: int, end: int, i: int, k: int)
    requires
        0 <= i <= k <= frags.len(),
        forall|j: int| i <= j < k ==> !frag_contains(#[trigger] frags[j], off, end),
    ensures
        first_container_from(frags, off, end, i) == first_container_from(frags, off, end, k),
    decreases k - i,
{
    if i < k {
        lemma_first_container_skip(frags, off, end, i + 1, k);
    }
}

proof fn lemma_last_cover_skip(frags: Seq<(u64, Vec<u8>)>, p: int, m: int, n: int)
    requires
        0 <= m <= n <= frags.len(),
        forall|j: int| m <= j < n ==> !frag_covers(#[trigger] frags[j], p),
    ensures
        last_cover(frags, p, n) == last_cover(frags, p, m),
    decreases n - m,
{
    if m < n {
        lemma_last_cover_skip(frags, p, m, n - 1);
    }
}

proof fn lemma_last_cover_range(frags: Seq<(u64, Vec<u8>)>, p: int, n: int)
    requires
        0 <= n <= frags.len(),
    ensures
        -1 <= last_cover(frags, p, n) < n,
        last_cover(frags, p, n) >= 0 ==> frag_covers(frags[last_cover(frags, p, n)], p),
    decreases n,
{
    if n > 0 {
        lemma_last_cover_range(frags, p, n - 1);
    }
}

proof fn lemma_first_uncovered_skip(frags: Seq<(u64, Vec<u8>)>, a: int, b: int, end: int)
    requires
        a <= b <= end,
        forall|p: int| a <= p < b ==> #[trigger] covered(frags, p),
    ensures
        first_uncovered_from(frags, a, end) == first_uncovered_from(frags, b, end),
    decreases b - a,
{
    if a < b {
        lemma_first_uncovered_skip(frags, a + 1, b, end);
    }
}

proof fn lemma_first_uncovered_range(frags: Seq<(u64, Vec<u8>)>, p: int, end: int)
    requires
        p <= end,
    ensures
        p <= first_uncovered_from(frags, p, end) <= end,
        forall|q: int| p <= q < first_uncovered_from(frags, p, end) ==> #[trigger] covered(frags, q),
        first_uncovered_from(frags, p, end) < end ==> !covered(frags, first_uncovered_from(frags, p, end)),
    decreases end - p,
{
    if p < end && covered(frags, p) {
        lemma_first_uncovered_range(frags, p + 1, end);
    }
}

proof fn lemma_first_container_range(frags: Seq<(u64, Vec<u8>)>, off: int, end: int, i: int)
    requires
        0 <= i,
    ensures
        first_container_from(frags, off, end, i) == -1 || (i <= first_container_from(frags, off, end, i) < frags.len()
            && frag_contains(frags[first_container_from(frags, off, end, i)], off, end)),
    decreases frags.len() - i,
{
    if i < frags.len() && !frag_contains(frags[i], off, end) {
        lemma_first_container_range(frags, off, end, i + 1);
    }
}

proof fn lemma_prefix_max_end(frags: Seq<(u64, Vec<u8>)>, n: int)
    requires
        0 <= n <= frags.len(),
    ensures
        forall|j: int| 0 <= j < n ==> frag_end(#[trigger] frags[j]) <= prefix_max_end(frags, n),
        forall|m: int| 0 <= m <= n ==> #[trigger] prefix_max_end(frags, m) <= prefix_max_end(frags, n),
        prefix_max_end(frags, n) >= 0,
        n > 0 ==> exists|j: int| 0 <= j < n && frag_end(#[trigger] frags[j]) == prefix_max_end(frags, n),
    decreases n,
{
    if n > 0 {
        lemma_prefix_max_end(frags, n - 1);
        assert forall|m: int| 0 <= m <= n implies #[trigger] prefix_max_end(frags, m) <= prefix_max_end(frags, n) by {
            if m < n {
                assert(prefix_max_end(frags, m) <= prefix_max_end(frags, n - 1));
            }
        }
        if n > 1 && prefix_max_end(frags, n - 1) >= frag_end(frags[n - 1]) {
            let j = choose|j: int| 0 <= j < n - 1 && frag_end(#[trigger] frags[j]) == prefix_max_end(frags, n - 1);
            assert(frag_end(frags[j]) == prefix_max_end(frags, n));
        } else {
            assert(frag_end(frags[n - 1]) == prefix_max_end(frags, n));
        }
    }
}

/// Every fragment is a piece of the file image `file`.
pub open spec fn consistent_with(frags: Seq<(u64, Vec<u8>)>, file: Seq<u8>) -> bool {
    forall|i: int| 0 <= i < frags.len() ==> frag_end(#[trigger] frags[i]) <= file.len()
        && frags[i].1@ == file.subrange(frags[i].0 as int, frag_end(frags[i]))
}

/// A read of a non-empty range succeeds exactly when every byte of the
/// range is held by some fragment; when it fails, the reported gap starts at
/// the first byte that no fragment holds and runs to the end of the request.
pub proof fn lemma_assemble_full_iff_covered(frags: Seq<(u64, Vec<u8>)>, off: u64, len: u64)
    requires
        len > 0,
        off + len <= u64::MAX,
    ensures
        (assemble_spec(frags, off, len) is Full) <==> (forall|p: int| off <= p < off + len ==> #[trigger] covered(frags, p)),
        assemble_spec(frags, off, len) matches Assembled::Gap(m, l) ==> {
            &&& off <= m < off + len
            &&& l == off + len - m
            &&& !covered(frags, m as int)
            &&& forall|p: int| off <= p < m ==> #[trigger] covered(frags, p)
        },
{
    let end = off + len;
    let c = first_container_from(frags, off as int, end, 0);
    lemma_first_container_range(frags, off as int, end, 0);
    lemma_first_uncovered_range(frags, off as int, end);
    if c >= 0 {
        assert forall|p: int| off <= p < off + len implies #[trigger] covered(frags, p) by {
            lemma_last_cover_range(frags, p, frags.len() as int);
            if last_cover(frags, p, frags.len() as int) < 0 {
                assert forall|j: int| 0 <= j < frags.len() implies !frag_covers(#[trigger] frags[j], p) by {
                    if frag_covers(frags[j], p) {
                        lemma_last_cover_nonneg(frags, p, j, frags.len() as int);
                    }
                }
                assert(frag_covers(frags[c], p));
            }
        }
    }
}

proof fn lemma_last_cover_nonneg(frags: Seq<(u64, Vec<u8>)>, p: int, j: int, n: int)
    requires
        0 <= j < n <= frags.len(),
        frag_covers(frags[j], p),
    ensures
        last_cover(frags, p, n) >= j,
    decreases n,
{
    if n - 1 > j && !frag_covers(frags[n - 1], p) {
        lemma_last_cover_nonneg(frags, p, j, n - 1);
    }
}

/// When the fragments are pieces of one file image, a successful read of a
/// range gives back exactly the image's bytes in that range.
pub proof fn lemma_assemble_reads_image(frags: Seq<(u64, Vec<u8>)>, file: Seq<u8>, off: u64, len: u64)
    requires
        len > 0,
        off + len <= u64::MAX,
        consistent_with(frags, file),
        assemble_spec(frags, off, len) is Full,
    ensures
        off + len <= file.len(),
        assemble_spec(frags, off, len) == Assembled::Full(file.subrange(off as int, off + len)),
{
    let end = off + len;
    let c = first_container_from(frags, off as int, end, 0);
    lemma_first_container_range(frags, off as int, end, 0);
    lemma_assemble_full_iff_covered(frags, off, len);
    if c >= 0 {
        let f = frags[c];
        assert(f.1@.subrange(off - f.0, end - f.0) =~= file.subrange(off as int, end));
    } else {
        assert(covered(frags, end - 1));
        lemma_last_cover_range(frags, end - 1, frags.len() as int);
        let want = file.subrange(off as int, end);
        let got = Seq::new(len as nat, |k: int| byte_at(frags, off + k));
        assert forall|k: int| 0 <= k < len implies got[k] == want[k] by {
            assert(covered(frags, off + k));
            lemma_last_cover_range(frags, off + k, frags.len() as int);
            let j = last_cover(frags, off + k, frags.len() as int);
            assert(frags[j].1@ == file.subrange(frags[j].0 as int, frag_end(frags[j])));
            assert(frags[j].1@[off + k - frags[j].0] == file[off + k]);
        }
        assert(got =~= want);
    }
}

/// A fragment pushed into a store of pieces of a file, itself a piece of
/// that file, keeps the store consistent with the file, and reading its
/// range back gives its bytes.
pub proof fn lemma_pushed_fragment_reads_back(frags: Seq<(u64, Vec<u8>)>, file: Seq<u8>, f: (u64, Vec<u8>))
    requires
        sorted_by_offset(frags),
        consistent_with(frags, file),
        frag_end(f) <= file.len(),
        f.1@ == file.subrange(f.0 as int, frag_end(f)),
        f.1@.len() > 0,
        frag_end(f) <= u64::MAX,
    ensures
        consistent_with(insert_by_offset(frags, f), file),
        assemble_spec(insert_by_offset(frags, f), f.0, f.1@.len() as u64) == Assembled::Full(f.1@),
{
    let s = insert_by_offset(frags, f);
    let k = crate::keyed::insertion_point(frags, f.0);
    crate::keyed::lemma_insertion_point_bounds(frags, f.0);
    assert(s[k] == f);
    assert forall|i: int| 0 <= i < s.len() implies frag_end(#[trigger] s[i]) <= file.len()
        && s[i].1@ == file.subrange(s[i].0 as int, frag_end(s[i])) by {
        if i < k {
            assert(s[i] == frags[i]);
        } else if i > k {
            assert(s[i] == frags[i - 1]);
        }
    }
    let len = f.1@.len() as u64;
    assert forall|p: int| f.0 <= p < f.0 + len implies #[trigger] covered(s, p) by {
        lemma_last_cover_nonneg(s, p, k, s.len() as int);
    }
    lemma_assemble_full_iff_covered(s, f.0, len);
    lemma_assemble_reads_image(s, file, f.0, len);
    assert(file.subrange(f.0 as int, f.0 + len) == f.1@);
}

// ---------------------------------------------------------------------------
// Small helpers
// ---------------------------------------------------------------------------

/// Narrow a `u64` byte count or offset to `usize`, failing instead of
/// truncating where the value exceeds the address width.
pub fn u64_to_usize(v: u64) -> (r: Result<usize, MdfError>)
    ensures
        v <= usize::MAX ==> r == Ok::<usize, MdfError>(v as usize),
        v > usize::MAX ==> r == Err::<usize, MdfError>(MdfError::AddressOverflow(v)),
{
    if v <= usize::MAX as u64 {
        Ok(v as usize)
    } else {
        Err(MdfError::AddressOverflow(v))
    }
}

/// End offset of a fragment, failing on overflow instead of wrapping.
pub fn fragment_end(fstart: u64, len: usize) -> (r: Result<u64, MdfError>)
    ensures
        fstart + len <= u64::MAX ==> r == Ok::<u64, MdfError>((fstart + len) as u64),
        fstart + len > u64::MAX ==> r == Err::<u64, MdfError>(MdfError::FragmentEndOverflow),
{
    match fstart.checked_add(len as u64) {
        Some(e) => Ok(e),
        None => Err(MdfError::FragmentEndOverflow),
    }
}

// ---------------------------------------------------------------------------
// Range coalescing
// ---------------------------------------------------------------------------

/// One past the last byte of an `(offset, length)` range.
pub open spec fn range_end(r: (u64, u64)) -> int {
    r.0 + r.1
}

/// Coalescing of ranges taken in order: a range that starts at or before the
/// end of the last output range extends it (if it reaches further), any
/// other range is appended.
pub open spec fn coalesce(s: Seq<(u64, u64)>) -> Seq<(u64, u64)>
    decreases s.len(),
{
    if s.len() == 0 {
        Seq::empty()
    } else {
        let prev = coalesce(s.drop_last());
        let r = s.last();
        if prev.len() > 0 && r.0 <= range_end(prev.last()) {
            if range_end(r) > range_end(prev.last()) {
                prev.update(prev.len() - 1, (prev.last().0, (range_end(r) - prev.last().0) as u64))
            } else {
                prev
            }
        } else {
            prev.push(r)
        }
    }
}

/// No range of `s` ends past `u64::MAX`.
pub open spec fn ranges_in_bounds(s: Seq<(u64, u64)>) -> bool {
    forall|i: int| 0 <= i < s.len() ==> range_end(#[trigger] s[i]) <= u64::MAX
}

proof fn lemma_coalesce_bounds(s: Seq<(u64, u64)>)
    requires
        ranges_in_bounds(s),
    ensures
        ranges_in_bounds(coalesce(s)),
        s.len() > 0 ==> coalesce(s).len() > 0,
    decreases s.len(),
{
    if s.len() > 0 {
        let t = s.drop_last();
        assert(ranges_in_bounds(t)) by {
            assert forall|i: int| 0 <= i < t.len() implies range_end(#[trigger] t[i]) <= u64::MAX by {
                assert(t[i] == s[i]);
            }
        }
        lemma_coalesce_bounds(t);
        assert(range_end(s.last()) <= u64::MAX) by {
            assert(s.last() == s[s.len() - 1]);
        }
    }
}

/// The range holds byte `p`.
pub open spec fn range_covers(r: (u64, u64), p: int) -> bool {
    r.0 <= p < range_end(r)
}

/// Some range of `s` holds byte `p`.
pub open spec fn ranges_cover(s: Seq<(u64, u64)>, p: int) -> bool {
    exists|i: int| 0 <= i < s.len() && range_covers(#[trigger] s[i], p)
}

/// Each range ends strictly before the next one starts: the ranges are in
/// order, disjoint, and not adjacent.
pub open spec fn separated(s: Seq<(u64, u64)>) -> bool {
    forall|i: int, j: int| 0 <= i < j < s.len() ==> range_end(#[trigger] s[i]) < (#[trigger] s[j]).0
}

proof fn lemma_cover_push(s: Seq<(u64, u64)>, r: (u64, u64), p: int)
    ensures
        ranges_cover(s.push(r), p) <==> ranges_cover(s, p) || range_covers(r, p),
{
    let u = s.push(r);
    if ranges_cover(u, p) {
        let i = choose|i: int| 0 <= i < u.len() && range_covers(#[trigger] u[i], p);
        if i < s.len() {
            assert(u[i] == s[i]);
        }
    }
    if ranges_cover(s, p) {
        let i = choose|i: int| 0 <= i < s.len() && range_covers(#[trigger] s[i], p);
        assert(u[i] == s[i]);
    }
    if range_covers(r, p) {
        assert(u[s.len() as int] == r);
    }
}

proof fn lemma_coalesce_sorted(s: Seq<(u64, u64)>)
    requires
        sorted_by_offset(s),
        ranges_in_bounds(s),
    ensures
        separated(coalesce(s)),
        s.len() > 0 ==> forall|i: int| 0 <= i < coalesce(s).len() ==> (#[trigger] coalesce(s)[i]).0 <= s.last().0,
        forall|p: int| ranges_cover(coalesce(s), p) <==> ranges_cover(s, p),
    decreases s.len(),
{
    if s.len() == 0 {
        assert forall|p: int| ranges_cover(coalesce(s), p) <==> ranges_cover(s, p) by {}
    } else {
        let t = s.drop_last();
        let r = s.last();
        let prev = coalesce(t);
        let c = coalesce(s);
        assert(s == t.push(r));
        assert(sorted_by_offset(t));
        assert(ranges_in_bounds(t)) by {
            assert forall|i: int| 0 <= i < t.len() implies range_end(#[trigger] t[i]) <= u64::MAX by {
                assert(t[i] == s[i]);
            }
        }
        lemma_coalesce_sorted(t);
        lemma_coalesce_bounds(t);
        assert(range_end(r) <= u64::MAX) by {
            assert(r == s[s.len() - 1]);
        }
        assert forall|p: int| ranges_cover(s, p) <==> ranges_cover(t, p) || range_covers(r, p) by {
            lemma_cover_push(t, r, p);
        }
        if t.len() > 0 {
            assert(t.last().0 <= r.0) by {
                assert(t.last() == s[s.len() - 2]);
                assert(r == s[s.len() - 1]);
            }
        }
        if prev.len() > 0 && r.0 <= range_end(prev.last()) {
            let a = prev.last().0;
            let last = prev.len() - 1;
            assert(t.len() > 0);
            assert(a <= r.0) by {
                assert(prev[last].0 <= t.last().0);
            }
            if range_end(r) > range_end(prev.last()) {
                let nl = (a, (range_end(r) - a) as u64);
                assert(c == prev.update(last, nl));
                assert(range_end(nl) == range_end(r));
                assert forall|i: int, j: int| 0 <= i < j < c.len() implies range_end(#[trigger] c[i]) < (#[trigger] c[j]).0 by {
                    assert(c[i] == prev[i]);
                    if j < last {
                        assert(c[j] == prev[j]);
                    } else {
                        assert(c[j].0 == prev[j].0);
                    }
                }
                assert forall|i: int| 0 <= i < c.len() implies (#[trigger] c[i]).0 <= s.last().0 by {
                    if i < last {
                        assert(c[i] == prev[i]);
                    }
                }
                assert forall|p: int| ranges_cover(c, p) <==> ranges_cover(s, p) by {
                    if ranges_cover(c, p) {
                        let i = choose|i: int| 0 <= i < c.len() && range_covers(#[trigger] c[i], p);
                        if i < last {
                            assert(c[i] == prev[i]);
                            assert(ranges_cover(prev, p));
                        } else if p < range_end(prev.last()) {
                            assert(range_covers(prev[last], p));
                            assert(ranges_cover(prev, p));
                        } else {
                            assert(range_covers(r, p));
                        }
                    }
                    if ranges_cover(prev, p) {
                        let i = choose|i: int| 0 <= i < prev.len() && range_covers(#[trigger] prev[i], p);
                        if i < last {
                            assert(c[i] == prev[i]);
                        } else {
                            assert(range_covers(c[last], p));
                        }
                    }
                    if range_covers(r, p) {
                        assert(range_covers(c[last], p));
                    }
                }
            } else {
                assert(c == prev);
                assert forall|p: int| ranges_cover(c, p) <==> ranges_cover(s, p) by {
                    if range_covers(r, p) {
                        assert(range_covers(prev[last], p));
                    }
                }
            }
        } else {
            assert(c == prev.push(r));
            assert forall|i: int, j: int| 0 <= i < j < c.len() implies range_end(#[trigger] c[i]) < (#[trigger] c[j]).0 by {
                assert(c[i] == prev[i]);
                if j < prev.len() {
                    assert(c[j] == prev[j]);
                } else {
                    assert(c[j] == r);
                    let last = prev.len() - 1;
                    if i < last {
                        assert(range_end(prev[i]) < prev[last].0);
                    }
                }
            }
            assert forall|i: int| 0 <= i < c.len() implies (#[trigger] c[i]).0 <= s.last().0 by {
                if i < prev.len() {
                    assert(c[i] == prev[i]);
                }
            }
            assert forall|p: int| ranges_cover(c, p) <==> ranges_cover(s, p) by {
                lemma_cover_push(prev, r, p);
            }
        }
    }
}

/// The ranges coalesced from any list are in order, pairwise disjoint and
/// not adjacent, and hold exactly the bytes that the list holds.
pub proof fn lemma_merge_ranges_cover(ranges: Seq<(u64, u64)>)
    requires
        ranges_in_bounds(ranges),
    ensures
        separated(coalesce(sort_by_offset(ranges))),
        forall|p: int| ranges_cover(coalesce(sort_by_offset(ranges)), p) <==> ranges_cover(ranges, p),
{
    let sorted = sort_by_offset(ranges);
    lemma_sort_by_offset(ranges);
    broadcast use vstd::seq_lib::group_to_multiset_ensures;
    assert forall|i: int| 0 <= i < sorted.len() implies range_end(#[trigger] sorted[i]) <= u64::MAX by {
        assert(sorted.contains(sorted[i]));
        assert(sorted.to_multiset().count(sorted[i]) > 0);
        assert(ranges.contains(sorted[i]));
    }
    lemma_coalesce_sorted(sorted);
    assert forall|p: int| ranges_cover(sorted, p) <==> ranges_cover(ranges, p) by {
        if ranges_cover(sorted, p) {
            let i = choose|i: int| 0 <= i < sorted.len() && range_covers(#[trigger] sorted[i], p);
            assert(sorted.contains(sorted[i]));
            assert(sorted.to_multiset().count(sorted[i]) > 0);
            assert(ranges.contains(sorted[i]));
        }
        if ranges_cover(ranges, p) {
            let i = choose|i: int| 0 <= i < ranges.len() && range_covers(#[trigger] ranges[i], p);
            assert(ranges.contains(ranges[i]));
            assert(ranges.to_multiset().count(ranges[i]) > 0);
            assert(sorted.contains(ranges[i]));
        }
    }
}

/// Sort `(offset, length)` ranges by offset and merge overlapping or
/// adjacent ones into a minimal cover.
pub fn merge_ranges(ranges: Vec<(u64, u64)>) -> (out: Vec<(u64, u64)>)
    requires
        ranges_in_bounds(ranges@),
    ensures
        out@ == coalesce(sort_by_offset(ranges@)),
{
    if ranges.len() == 0 {
        let ghost e = ranges@;
        assert(sort_by_offset(e) == e);
        assert(coalesce(e) =~= e);
        return ranges;
    }
    let ghost input = ranges@;
    let sorted = sort_by_offset_vec(ranges);
    proof {
        lemma_sort_by_offset(input);
        broadcast use vstd::seq_lib::group_to_multiset_ensures;
        assert forall|i: int| 0 <= i < sorted@.len() implies range_end(#[trigger] sorted@[i]) <= u64::MAX by {
            assert(sorted@.contains(sorted@[i]));
            assert(sorted@.to_multiset().count(sorted@[i]) > 0);
            assert(input.contains(sorted@[i]));
        }
    }
    let n = sorted.len();
    let mut out: Vec<(u64, u64)> = Vec::with_capacity(n);
    let mut i: usize = 0;
    proof {
        assert(sorted@.take(0) =~= Seq::<(u64, u64)>::empty());
    }
    while i < n
        invariant
            n == sorted@.len(),
            0 <= i <= n,
            ranges_in_bounds(sorted@),
            out@ == coalesce(sorted@.take(i as int)),
        decreases n - i,
    {
        let (offset, length) = sorted[i];
        proof {
            let t = sorted@.take(i as int);
            assert(ranges_in_bounds(t)) by {
                assert forall|j: int| 0 <= j < t.len() implies range_end(#[trigger] t[j]) <= u64::MAX by {
                    assert(t[j] == sorted@[j]);
                }
            }
            lemma_coalesce_bounds(t);
            assert(sorted@.take(i + 1).drop_last() =~= t);
            assert(sorted@.take(i + 1).last() == sorted@[i as int]);
            assert(range_end(sorted@[i as int]) <= u64::MAX);
        }
        let end = offset + length;
        let m = out.len();
        let mut merged = false;
        if m > 0 {
            let (last_off, last_len) = out[m - 1];
            proof {
                assert(range_end(out@[m - 1]) <= u64::MAX);
            }
            let last_end = last_off + last_len;
            if offset <= last_end {
                if end > last_end {
                    out[m - 1] = (last_off, end - last_off);
                }
                merged = true;
            }
        }
        if !merged {
            out.push((offset, length));
        }
        i = i + 1;
    }
    proof {
        assert(sorted@.take(n as int) =~= sorted@);
    }
    out
}

// ---------------------------------------------------------------------------
// Coverage and the fragment store
// ---------------------------------------------------------------------------

/// Outcome of trying to serve a read from a set of file fragments.
pub enum Coverage {
    /// The request was fully covered; here are the assembled bytes.
    Full(Vec<u8>),
    /// A gap was found: `offset`/`length` describe the first still-missing
    /// sub-range of the request.
    Gap { offset: u64, length: u64 },
}

impl View for Coverage {
    type V = Assembled;

    open spec fn view(&self) -> Assembled {
        match self {
            Coverage::Full(b) => Assembled::Full(b@),
            Coverage::Gap { offset, length } => Assembled::Gap(*offset, *length),
        }
    }
}

/// A store of file fragments, `(absolute_offset, bytes)` pairs, possibly
/// overlapping or adjacent, kept sorted by offset. Beside them,
/// `running_max_end[i]` is the largest end offset among `fragments[..=i]`;
/// being non-decreasing, it can be binary-searched for the first fragment
/// that may reach into a request.
pub struct FragmentStore {
    fragments: Vec<(u64, Vec<u8>)>,
    running_max_end: Vec<u64>,
}

impl View for FragmentStore {
    type V = Seq<(u64, Vec<u8>)>;

    closed spec fn view(&self) -> Seq<(u64, Vec<u8>)> {
        self.fragments@
    }
}

impl FragmentStore {
    /// The fragments are sorted, none ends past `u64::MAX`, and the running
    /// maxima are those of the fragments.
    pub closed spec fn wf(&self) -> bool {
        &&& sorted_by_offset(self.fragments@)
        &&& self.running_max_end@.len() == self.fragments@.len()
        &&& forall|i: int| 0 <= i < self.fragments@.len() ==> frag_end(#[trigger] self.fragments@[i]) <= u64::MAX
        &&& forall|i: int| 0 <= i < self.running_max_end@.len() ==>
                #[trigger] self.running_max_end@[i] == prefix_max_end(self.fragments@, i + 1)
    }

    /// A well-formed store is sorted by offset and no fragment ends past
    /// `u64::MAX`.
    pub proof fn lemma_wf(&self)
        requires
            self.wf(),
        ensures
            sorted_by_offset(self@),
            forall|i: int| 0 <= i < self@.len() ==> frag_end(#[trigger] self@[i]) <= u64::MAX,
    {
    }

    /// An empty store.
    pub fn new() -> (s: Self)
        ensures
            s.wf(),
            s@ == Seq::<(u64, Vec<u8>)>::empty(),
    {
        FragmentStore { fragments: Vec::new(), running_max_end: Vec::new() }
    }

    /// Build a store from an unordered `(offset, bytes)` list, sorting it
    /// (stably) by offset. Fails when a fragment's end overflows `u64`.
    pub fn from_pairs(fragments: Vec<(u64, Vec<u8>)>) -> (r: Result<Self, MdfError>)
        ensures
            (forall|i: int| 0 <= i < fragments@.len() ==> frag_end(#[trigger] fragments@[i]) <= u64::MAX) ==> (
                r matches Ok(s) && s.wf() && s@ == sort_by_offset(fragments@)),
            !(forall|i: int| 0 <= i < fragments@.len() ==> frag_end(#[trigger] fragments@[i]) <= u64::MAX) ==>
                r == Err::<Self, MdfError>(MdfError::FragmentEndOverflow),
    {
        let ghost input = fragments@;
        let sorted = sort_by_offset_vec(fragments);
        proof {
            lemma_sort_by_offset(input);
            broadcast use vstd::seq_lib::group_to_multiset_ensures;
            assert forall|i: int| 0 <= i < input.len() implies sorted@.contains(#[trigger] input[i]) by {
                assert(input.contains(input[i]));
                assert(input.to_multiset().count(input[i]) > 0);
            }
            assert forall|i: int| 0 <= i < sorted@.len() implies input.contains(#[trigger] sorted@[i]) by {
                assert(sorted@.contains(sorted@[i]));
                assert(sorted@.to_multiset().count(sorted@[i]) > 0);
            }
        }
        let mut store = FragmentStore { fragments: sorted, running_max_end: Vec::new() };
        match store.rebuild_running_max() {
            Ok(()) => Ok(store),
            Err(e) => {
                proof {
                    let j = choose|j: int| 0 <= j < sorted@.len() && frag_end(#[trigger] sorted@[j]) > u64::MAX;
                    assert(input.contains(sorted@[j]));
                }
                Err(e)
            },
        }
    }

    /// Insert one fragment after every stored fragment whose offset is at
    /// most `offset`, then recompute the running maxima. When the fragment's
    /// end overflows `u64` the recomputation fails: the fragment stays
    /// inserted and the store is no longer well-formed.
    pub fn push(&mut self, offset: u64, bytes: Vec<u8>) -> (r: Result<(), MdfError>)
        requires
            old(self).wf(),
        ensures
            final(self)@ == insert_by_offset(old(self)@, (offset, bytes)),
            offset + bytes@.len() <= u64::MAX ==> r == Ok::<(), MdfError>(()) && final(self).wf(),
            offset + bytes@.len() > u64::MAX ==> r == Err::<(), MdfError>(MdfError::FragmentEndOverflow)
                && !final(self).wf(),
    {
        insert_sorted(&mut self.fragments, (offset, bytes));
        let ghost s = old(self).fragments@;
        let ghost k = crate::keyed::insertion_point(s, offset);
        proof {
            crate::keyed::lemma_insertion_point_bounds(s, offset);
            assert(self.fragments@[k] == (offset, bytes));
            assert forall|i: int| 0 <= i < self.fragments@.len() && i != k implies frag_end(#[trigger] self.fragments@[i]) <= u64::MAX by {
                if i < k {
                    assert(self.fragments@[i] == s[i]);
                } else {
                    assert(self.fragments@[i] == s[i - 1]);
                }
            }
            if offset + bytes@.len() <= u64::MAX {
                assert forall|i: int| 0 <= i < self.fragments@.len() implies frag_end(#[trigger] self.fragments@[i]) <= u64::MAX by {
                    if i == k {
                        assert(frag_end(self.fragments@[k]) == offset + bytes@.len());
                    }
                }
            }
        }
        let ghost sorted = self.fragments@;
        assert(sorted_by_offset(sorted));
        let rebuilt = self.rebuild_running_max();
        proof {
            if offset + bytes@.len() > u64::MAX {
                assert(frag_end(self.fragments@[k]) > u64::MAX);
                assert(!self.wf());
            }
        }
        match rebuilt {
            Ok(()) => Ok(()),
            Err(e) => Err(e),
        }
    }

    /// Recompute the running maxima; fails when a fragment's end overflows.
    fn rebuild_running_max(&mut self) -> (r: Result<(), MdfError>)
        ensures
            final(self).fragments == old(self).fragments,
            (forall|i: int| 0 <= i < old(self).fragments@.len() ==> frag_end(#[trigger] old(self).fragments@[i]) <= u64::MAX)
                ==> r is Ok,
            r is Ok ==> forall|i: int| 0 <= i < old(self).fragments@.len() ==> frag_end(#[trigger] old(self).fragments@[i]) <= u64::MAX,
            r is Ok ==> final(self).running_max_end@.len() == final(self).fragments@.len()
                && forall|i: int| 0 <= i < final(self).running_max_end@.len() ==>
                    #[trigger] final(self).running_max_end@[i] == prefix_max_end(final(self).fragments@, i + 1),
            r is Err ==> r == Err::<(), MdfError>(MdfError::FragmentEndOverflow)
                && exists|i: int| 0 <= i < old(self).fragments@.len() && frag_end(#[trigger] old(self).fragments@[i]) > u64::MAX,
    {
        self.running_max_end.clear();
        let n = self.fragments.len();
        let mut max_end: u64 = 0;
        let mut i: usize = 0;
        let ghost frags = self.fragments@;
        while i < n
            invariant
                n == frags.len(),
                self.fragments@ == frags,
                self.fragments == old(self).fragments,
                0 <= i <= n,
                self.running_max_end@.len() == i,
                max_end == prefix_max_end(frags, i as int),
                forall|j: int| 0 <= j < i ==> frag_end(#[trigger] frags[j]) <= u64::MAX,
                forall|j: int| 0 <= j < i ==> #[trigger] self.running_max_end@[j] == prefix_max_end(frags, j + 1),
            decreases n - i,
        {
            let start = self.fragments[i].0;
            let len = self.fragments[i].1.len();
            let end = match fragment_end(start, len) {
                Ok(e) => e,
                Err(e) => {
                    return Err(e);
                },
            };
            if end > max_end {
                max_end = end;
            }
            self.running_max_end.push(max_end);
            i = i + 1;
        }
        Ok(())
    }

    /// Indices `[lo, hi)` of the only fragments that can overlap the
    /// non-empty range `[offset, req_end)`: those before `lo` end at or
    /// before `offset`, those from `hi` on start at or after `req_end`.
    fn candidates(&self, offset: u64, req_end: u64) -> (r: (usize, usize))
        requires
            self.wf(),
            offset < req_end,
        ensures
            r.0 <= r.1 <= self@.len(),
            forall|j: int| 0 <= j < r.0 ==> frag_end(#[trigger] self@[j]) <= offset,
            forall|j: int| r.1 <= j < self@.len() ==> (#[trigger] self@[j]).0 >= req_end,
            forall|j: int| r.0 <= j < r.1 ==> (#[trigger] self@[j]).0 < req_end,
            r.0 < r.1 ==> frag_end(self@[r.0 as int]) > offset,
    {
        let n = self.fragments.len();
        let mut lo: usize = 0;
        let mut hi: usize = n;
        while lo < hi
            invariant
                self.wf(),
                n == self@.len(),
                0 <= lo <= hi <= n,
                forall|j: int| 0 <= j < lo ==> (#[trigger] self@[j]).0 < req_end,
                forall|j: int| hi <= j < n ==> (#[trigger] self@[j]).0 >= req_end,
            decreases hi - lo,
        {
            let mid = lo + (hi - lo) / 2;
            if self.fragments[mid].0 < req_end {
                proof {
                    assert forall|j: int| 0 <= j <= mid implies (#[trigger] self@[j]).0 < req_end by {
                        assert(self@[j].0 <= self@[mid as int].0);
                    }
                }
                lo = mid + 1;
            } else {
                proof {
                    assert forall|j: int| mid <= j < n implies (#[trigger] self@[j]).0 >= req_end by {
                        assert(self@[mid as int].0 <= self@[j].0);
                    }
                }
                hi = mid;
            }
        }
        let top = lo;
        if top == 0 {
            return (0, 0);
        }
        let mut a: usize = 0;
        let mut b: usize = top;
        proof {
            lemma_prefix_max_end(self@, n as int);
        }
        while a < b
            invariant
                self.wf(),
                n == self@.len(),
                0 <= a <= b <= top <= n,
                forall|j: int| 0 <= j < a ==> #[trigger] self.running_max_end@[j] <= offset,
                forall|j: int| b <= j < top ==> #[trigger] self.running_max_end@[j] > offset,
            decreases b - a,
        {
            let mid = a + (b - a) / 2;
            proof {
                lemma_prefix_max_end(self@, n as int);
            }
            if self.running_max_end[mid] <= offset {
                proof {
                    assert forall|j: int| 0 <= j <= mid implies #[trigger] self.running_max_end@[j] <= offset by {
                        lemma_prefix_max_end(self@, mid + 1);
                        assert(prefix_max_end(self@, j + 1) <= prefix_max_end(self@, mid + 1));
                    }
                }
                a = mid + 1;
            } else {
                proof {
                    assert forall|j: int| mid <= j < top implies #[trigger] self.running_max_end@[j] > offset by {
                        lemma_prefix_max_end(self@, j + 1);
                        assert(prefix_max_end(self@, mid + 1) <= prefix_max_end(self@, j + 1));
                    }
                }
                b = mid;
            }
        }
        proof {
            assert forall|j: int| 0 <= j < a implies frag_end(#[trigger] self@[j]) <= offset by {
                lemma_prefix_max_end(self@, j + 1);
                assert(self.running_max_end@[j] <= offset);
            }
            if a < top {
                assert(self.running_max_end@[a as int] > offset);
                if a > 0 {
                    assert(self.running_max_end@[a - 1] <= offset);
                    assert(prefix_max_end(self@, a as int) <= offset);
                }
                assert(prefix_max_end(self@, a + 1) > offset);
                assert(frag_end(self@[a as int]) > offset);
            }
        }
        (a, top)
    }

    /// Try to assemble the absolute range `[offset, offset + length)`.
    /// Returns [`Coverage::Full`] with the bytes, or [`Coverage::Gap`] naming
    /// the first uncovered sub-range.
    pub fn assemble(&self, offset: u64, length: u64) -> (r: Result<Coverage, MdfError>)
        requires
            self.wf(),
        ensures
            match r {
                Ok(c) => assemble_outcome(self@, offset, length) == Ok::<Assembled, MdfError>(c@),
                Err(e) => assemble_outcome(self@, offset, length) == Err::<Assembled, MdfError>(e),
            },
    {
        if length == 0 {
            let v: Vec<u8> = Vec::new();
            assert(v@ =~= Seq::<u8>::empty());
            return Ok(Coverage::Full(v));
        }
        let req_end = match offset.checked_add(length) {
            Some(e) => e,
            None => {
                return Err(MdfError::RangeEndOverflow);
            },
        };
        let len = match u64_to_usize(length) {
            Ok(l) => l,
            Err(e) => {
                return Err(e);
            },
        };
        let (lo, hi) = self.candidates(offset, req_end);
        let ghost frags = self@;
        let ghost off = offset as int;
        let ghost end = req_end as int;
        proof {
            assert forall|j: int| 0 <= j < lo implies !frag_contains(#[trigger] frags[j], off, end) by {}
            lemma_first_container_skip(frags, off, end, 0, lo as int);
        }

        // Fast path: a single fragment fully contains the request.
        let mut k: usize = lo;
        while k < hi
            invariant
                self.wf(),
                frags == self@,
                lo <= k <= hi <= frags.len(),
                off == offset,
                end == req_end,
                end == off + length,
                len == length,
                length > 0,
                first_container_from(frags, off, end, 0) == first_container_from(frags, off, end, k as int),
            decreases hi - k,
        {
            let fstart = self.fragments[k].0;
            let flen = self.fragments[k].1.len();
            let fend = match fragment_end(fstart, flen) {
                Ok(e) => e,
                Err(e) => {
                    return Err(e);
                },
            };
            if offset >= fstart && req_end <= fend {
                let s = (offset - fstart) as usize;
                let mut out: Vec<u8> = Vec::with_capacity(len);
                let mut t: usize = 0;
                while t < len
                    invariant
                        frags == self@,
                        k < frags.len(),
                        0 <= t <= len,
                        s + len <= flen,
                        flen == frags[k as int].1@.len(),
                        out@ =~= frags[k as int].1@.subrange(s as int, s + t),
                    decreases len - t,
                {
                    out.push(self.fragments[k].1[s + t]);
                    t = t + 1;
                }
                proof {
                    assert(frag_contains(frags[k as int], off, end));
                    assert(first_container_from(frags, off, end, k as int) == k);
                    assert(first_container_from(frags, off, end, 0) == k);
                    assert(assemble_spec(frags, offset, length) == Assembled::Full(
                        frags[k as int].1@.subrange(off - fstart, end - fstart)));
                    assert(out@ =~= frags[k as int].1@.subrange(off - fstart, end - fstart));
                    assert(assemble_outcome(self@, offset, length) == Ok::<Assembled, MdfError>(Assembled::Full(out@)));
                }
                return Ok(Coverage::Full(out));
            }
            proof {
                lemma_first_container_skip(frags, off, end, k as int, k + 1);
            }
            k = k + 1;
        }
        proof {
            assert forall|j: int| hi <= j < frags.len() implies !frag_contains(#[trigger] frags[j], off, end) by {}
            lemma_first_container_skip(frags, off, end, hi as int, frags.len() as int);
        }

        // Assembly path: stitch the request together from overlapping
        // fragments, a later one overwriting an earlier one.
        let mut out: Vec<u8> = vec![0u8; len];
        let mut cov: Vec<bool> = vec![false; len];
        proof {
            assert forall|d: int| 0 <= d < len implies #[trigger] last_cover(frags, off + d, lo as int) == -1 by {
                assert forall|j: int| 0 <= j < lo implies !frag_covers(#[trigger] frags[j], off + d) by {}
                lemma_last_cover_skip(frags, off + d, 0, lo as int);
            }
        }
        let mut k: usize = lo;
        while k < hi
            invariant
                self.wf(),
                frags == self@,
                lo <= k <= hi <= frags.len(),
                off == offset,
                end == req_end,
                end == off + length,
                len == length,
                length > 0,
                out@.len() == len,
                cov@.len() == len,
                forall|d: int| 0 <= d < len ==> #[trigger] cov@[d] == (last_cover(frags, off + d, k as int) >= 0),
                forall|d: int| 0 <= d < len && #[trigger] cov@[d] ==> out@[d] == frags[last_cover(frags, off + d, k as int)].1@[
                    off + d - frags[last_cover(frags, off + d, k as int)].0],
            decreases hi - k,
        {
            let fstart = self.fragments[k].0;
            let flen = self.fragments[k].1.len();
            let fend = match fragment_end(fstart, flen) {
                Ok(e) => e,
                Err(e) => {
                    return Err(e);
                },
            };
            let lo_b = if offset > fstart { offset } else { fstart };
            let hi_b = if req_end < fend { req_end } else { fend };
            let ghost old_out = out@;
            let ghost old_cov = cov@;
            if lo_b < hi_b {
                let dst_lo = (lo_b - offset) as usize;
                let dst_hi = (hi_b - offset) as usize;
                let src_lo = (lo_b - fstart) as usize;
                let mut d: usize = dst_lo;
                while d < dst_hi
                    invariant
                        frags == self@,
                        k < frags.len(),
                        fstart == frags[k as int].0,
                        fend == frag_end(frags[k as int]),
                        flen == frags[k as int].1@.len(),
                        fend == fstart + flen,
                        dst_lo <= d <= dst_hi <= len,
                        dst_lo == lo_b - offset,
                        src_lo == lo_b - fstart,
                        fstart <= lo_b,
                        hi_b <= fend,
                        dst_hi == hi_b - offset,
                        out@.len() == len,
                        cov@.len() == len,
                        old_out.len() == len,
                        old_cov.len() == len,
                        forall|x: int| 0 <= x < len && !(dst_lo <= x < d) ==> #[trigger] cov@[x] == old_cov[x] && out@[x] == old_out[x],
                        forall|x: int| dst_lo <= x < d ==> #[trigger] cov@[x] && out@[x] == frags[k as int].1@[off + x - fstart],
                        off == offset,
                    decreases dst_hi - d,
                {
                    let b = self.fragments[k].1[src_lo + (d - dst_lo)];
                    let ghost prev_out = out@;
                    let ghost prev_cov = cov@;
                    out[d] = b;
                    cov[d] = true;
                    proof {
                        assert(out@ == prev_out.update(d as int, b));
                        assert(cov@ == prev_cov.update(d as int, true));
                        assert forall|x: int| 0 <= x < len && !(dst_lo <= x < d + 1) implies #[trigger] cov@[x] == old_cov[x] && out@[x] == old_out[x] by {
                            assert(cov@[x] == prev_cov[x]);
                            assert(out@[x] == prev_out[x]);
                        }
                    }
                    d = d + 1;
                }
            }
            proof {
                assert forall|d: int| 0 <= d < len implies #[trigger] cov@[d] == (last_cover(frags, off + d, k + 1) >= 0)
                    && (cov@[d] ==> out@[d] == frags[last_cover(frags, off + d, k + 1)].1@[
                        off + d - frags[last_cover(frags, off + d, k + 1)].0]) by {
                    assert(last_cover(frags, off + d, k + 1) == if frag_covers(frags[k as int], off + d) {
                        k as int
                    } else {
                        last_cover(frags, off + d, k as int)
                    });
                }
            }
            k = k + 1;
        }
        proof {
            assert forall|d: int| 0 <= d < len implies #[trigger] last_cover(frags, off + d, hi as int) == last_cover(frags, off + d, frags.len() as int) by {
                assert forall|j: int| hi <= j < frags.len() implies !frag_covers(#[trigger] frags[j], off + d) by {}
                lemma_last_cover_skip(frags, off + d, hi as int, frags.len() as int);
            }
        }
        let mut pos: usize = 0;
        while pos < len && cov[pos]
            invariant
                0 <= pos <= len,
                cov@.len() == len,
                forall|x: int| 0 <= x < pos ==> #[trigger] cov@[x],
            decreases len - pos,
        {
            pos = pos + 1;
        }
        proof {
            assert forall|p: int| off <= p < off + pos implies #[trigger] covered(frags, p) by {
                assert(cov@[p - off]);
            }
            lemma_first_uncovered_skip(frags, off, off + pos, end);
        }
        if pos == len {
            proof {
                assert(out@ =~= Seq::new(len as nat, |d: int| byte_at(frags, off + d))) by {
                    assert forall|d: int| 0 <= d < len implies out@[d] == byte_at(frags, off + d) by {
                        assert(cov@[d]);
                    }
                }
            }
            Ok(Coverage::Full(out))
        } else {
            let miss_off = offset + pos as u64;
            proof {
                assert(!cov@[pos as int]);
            }
            Ok(Coverage::Gap { offset: miss_off, length: req_end - miss_off })
        }
    }
}


// ---------------------------------------------------------------------------
// Readers
// ---------------------------------------------------------------------------

/// A source of absolute byte ranges of a file.
pub trait ByteRangeReader {
    /// The state in which the reader can serve requests.
    spec fn reader_inv(&self) -> bool;

    /// Read `[offset, offset + length)`.
    fn read_range(&mut self, offset: u64, length: u64) -> (r: Result<Vec<u8>, MdfError>)
        requires
            old(self).reader_inv(),
        ensures
            final(self).reader_inv(),
    ;

    /// Read a range whose absence the caller can tolerate.
    fn read_range_optional(&mut self, offset: u64, length: u64) -> (r: Result<Option<Vec<u8>>, MdfError>)
        requires
            old(self).reader_inv(),
        ensures
            final(self).reader_inv(),
    ;

    /// Whether the reader only probes (cannot serve every range).
    fn is_probing(&self) -> bool;
}

/// Serves absolute `(offset, length)` requests from a caller-provided list
/// of file fragments. A request is satisfied if the fragments fully cover it
/// (assembled across fragments where necessary); otherwise the error names
/// the first uncovered offset.
pub struct FragmentRangeReader {
    pub store: FragmentStore,
}

impl FragmentRangeReader {
    /// Build a reader from an unordered `(offset, bytes)` fragment list.
    pub fn from_pairs(fragments: Vec<(u64, Vec<u8>)>) -> (r: Result<Self, MdfError>)
        ensures
            (forall|i: int| 0 <= i < fragments@.len() ==> frag_end(#[trigger] fragments@[i]) <= u64::MAX) ==> (
                r matches Ok(rd) && rd.store.wf() && rd.store@ == sort_by_offset(fragments@)),
            !(forall|i: int| 0 <= i < fragments@.len() ==> frag_end(#[trigger] fragments@[i]) <= u64::MAX) ==>
                r == Err::<Self, MdfError>(MdfError::FragmentEndOverflow),
    {
        match FragmentStore::from_pairs(fragments) {
            Ok(store) => Ok(FragmentRangeReader { store }),
            Err(e) => Err(e),
        }
    }
}

impl ByteRangeReader for FragmentRangeReader {
    open spec fn reader_inv(&self) -> bool {
        self.store.wf()
    }

    fn read_range(&mut self, offset: u64, length: u64) -> (r: Result<Vec<u8>, MdfError>)
        ensures
            final(self).store@ == old(self).store@,
            match assemble_outcome(old(self).store@, offset, length) {
                Ok(Assembled::Full(b)) => r matches Ok(v) && v@ == b,
                Ok(Assembled::Gap(m, _)) => r == Err::<Vec<u8>, MdfError>(
                    MdfError::RangeNotCovered { start: offset, end: (offset + length) as u64, missing: m }),
                Err(e) => r == Err::<Vec<u8>, MdfError>(e),
            },
    {
        match self.store.assemble(offset, length) {
            Ok(Coverage::Full(bytes)) => Ok(bytes),
            Ok(Coverage::Gap { offset: miss, length: _ }) => Err(
                MdfError::RangeNotCovered { start: offset, end: offset + length, missing: miss },
            ),
            Err(e) => Err(e),
        }
    }

    /// The same as `read_range`, with the bytes in `Some`: a missing range is
    /// an error for this reader too.
    fn read_range_optional(&mut self, offset: u64, length: u64) -> (r: Result<Option<Vec<u8>>, MdfError>)
        ensures
            final(self).store@ == old(self).store@,
            match assemble_outcome(old(self).store@, offset, length) {
                Ok(Assembled::Full(b)) => r matches Ok(Some(v)) && v@ == b,
                Ok(Assembled::Gap(m, _)) => r == Err::<Option<Vec<u8>>, MdfError>(
                    MdfError::RangeNotCovered { start: offset, end: (offset + length) as u64, missing: m }),
                Err(e) => r == Err::<Option<Vec<u8>>, MdfError>(e),
            },
    {
        match self.read_range(offset, length) {
            Ok(b) => Ok(Some(b)),
            Err(e) => Err(e),
        }
    }

    /// This reader serves every covered range; it does not probe.
    fn is_probing(&self) -> (r: bool)
        ensures
            !r,
    {
        false
    }
}

/// A probing reader for an incremental, range-fetched index build. It serves
/// reads from the fragments gathered so far and records in `misses` the
/// ranges it still needs instead of fetching them: a structural read of a
/// missing range fails (so the walk skips that subtree), an optional read of
/// one yields `None` (so the walk carries on).
pub struct RecordingRangeReader<'a> {
    pub store: &'a FragmentStore,
    pub misses: Vec<(u64, u64)>,
}

impl<'a> RecordingRangeReader<'a> {
    /// A reader over `store` with no recorded misses.
    pub fn new(store: &'a FragmentStore) -> (r: Self)
        ensures
            r.store == store,
            r.misses@ == Seq::<(u64, u64)>::empty(),
    {
        RecordingRangeReader { store, misses: Vec::new() }
    }
}

impl<'a> ByteRangeReader for RecordingRangeReader<'a> {
    open spec fn reader_inv(&self) -> bool {
        self.store.wf()
    }

    fn read_range(&mut self, offset: u64, length: u64) -> (r: Result<Vec<u8>, MdfError>)
        ensures
            final(self).store == old(self).store,
            match assemble_outcome(old(self).store@, offset, length) {
                Ok(Assembled::Full(b)) => (r matches Ok(v) && v@ == b) && final(self).misses@ == old(self).misses@,
                Ok(Assembled::Gap(m, l)) => r == Err::<Vec<u8>, MdfError>(MdfError::RangeNotYetAvailable)
                    && final(self).misses@ == old(self).misses@.push((m, l)),
                Err(e) => r == Err::<Vec<u8>, MdfError>(e) && final(self).misses@ == old(self).misses@,
            },
    {
        match self.store.assemble(offset, length) {
            Ok(Coverage::Full(bytes)) => Ok(bytes),
            Ok(Coverage::Gap { offset: miss, length: needed }) => {
                self.misses.push((miss, needed));
                Err(MdfError::RangeNotYetAvailable)
            },
            Err(e) => Err(e),
        }
    }

    fn read_range_optional(&mut self, offset: u64, length: u64) -> (r: Result<Option<Vec<u8>>, MdfError>)
        ensures
            final(self).store == old(self).store,
            match assemble_outcome(old(self).store@, offset, length) {
                Ok(Assembled::Full(b)) => (r matches Ok(Some(v)) && v@ == b) && final(self).misses@ == old(self).misses@,
                Ok(Assembled::Gap(m, l)) => r matches Ok(None)
                    && final(self).misses@ == old(self).misses@.push((m, l)),
                Err(e) => r == Err::<Option<Vec<u8>>, MdfError>(e) && final(self).misses@ == old(self).misses@,
            },
    {
        match self.store.assemble(offset, length) {
            Ok(Coverage::Full(bytes)) => Ok(Some(bytes)),
            Ok(Coverage::Gap { offset: miss, length: needed }) => {
                self.misses.push((miss, needed));
                Ok(None)
            },
            Err(e) => Err(e),
        }
    }

    fn is_probing(&self) -> (r: bool)
        ensures
            r,
    {
        true
    }
}

} // verus!
