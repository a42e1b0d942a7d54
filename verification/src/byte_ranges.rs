//! Byte ranges as the component interface exchanges them, and the
//! assembly of a fragment reader from parallel range and fragment lists.

use vstd::prelude::*;
use crate::error::MdfError;
use crate::fragments::{frag_end, FragmentRangeReader};
use crate::keyed::sort_by_offset;

verus! {

/// An absolute byte range of a file.
#[derive(Debug, Clone, Copy, PartialEq, Eq)]
pub struct ByteRange {
    pub offset: u64,
    pub length: u64,
}

/// Turn `(offset, length)` pairs into byte ranges, in order.
pub fn ranges_to_byte_ranges(ranges: Vec<(u64, u64)>) -> (r: Vec<ByteRange>)
    ensures
        r@.len() == ranges@.len(),
        forall|i: int| 0 <= i < r@.len() ==> #[trigger] r@[i] == (ByteRange { offset: ranges@[i].0, length: ranges@[i].1 }),
{
    let mut out: Vec<ByteRange> = Vec::with_capacity(ranges.len());
    let mut i: usize = 0;
    while i < ranges.len()
        invariant
            0 <= i <= ranges@.len(),
            out@.len() == i,
            forall|j: int| 0 <= j < i ==> #[trigger] out@[j] == (ByteRange { offset: ranges@[j].0, length: ranges@[j].1 }),
        decreases ranges@.len() - i,
    {
        let (offset, length) = ranges[i];
        out.push(ByteRange { offset, length });
        i = i + 1;
    }
    out
}

/// The `(offset, fragment)` pairs for parallel range and fragment lists:
/// each fragment is tagged with the offset of its range.
pub open spec fn tagged(ranges: Seq<ByteRange>, fragments: Seq<Vec<u8>>) -> Seq<(u64, Vec<u8>)> {
    Seq::new(fragments.len(), |i: int| (ranges[i].offset, fragments[i]))
}

/// Assemble a whole-file fragment reader from parallel `ranges`/`fragments`
/// lists, each fragment starting at the offset of its range. The lists must
/// have equal lengths; a fragment whose end overflows `u64` is refused.
pub fn fragment_reader(ranges: &[ByteRange], fragments: Vec<Vec<u8>>) -> (r: Result<FragmentRangeReader, MdfError>)
    ensures
        ranges@.len() != fragments@.len() ==> r == Err::<FragmentRangeReader, MdfError>(
            MdfError::ParallelListsMismatch { ranges: ranges@.len() as usize, fragments: fragments@.len() as usize }),
        ranges@.len() == fragments@.len() && (forall|i: int| 0 <= i < fragments@.len() ==> frag_end(
            #[trigger] tagged(ranges@, fragments@)[i],
        ) <= u64::MAX) ==> (r matches Ok(rd) && rd.store.wf() && rd.store@ == sort_by_offset(tagged(ranges@, fragments@))),
        ranges@.len() == fragments@.len() && !(forall|i: int| 0 <= i < fragments@.len() ==> frag_end(
            #[trigger] tagged(ranges@, fragments@)[i],
        ) <= u64::MAX) ==> r == Err::<FragmentRangeReader, MdfError>(MdfError::FragmentEndOverflow),
{
    if ranges.len() != fragments.len() {
        return Err(MdfError::ParallelListsMismatch { ranges: ranges.len(), fragments: fragments.len() });
    }
    let ghost frs = fragments@;
    let n = fragments.len();
    let mut rest = crate::keyed::reversed(fragments);
    let mut pairs: Vec<(u64, Vec<u8>)> = Vec::with_capacity(n);
    let mut i: usize = 0;
    while i < n
        invariant
            n == frs.len(),
            n == ranges@.len(),
            0 <= i <= n,
            rest@.len() == n - i,
            forall|j: int| 0 <= j < rest@.len() ==> #[trigger] rest@[j] == frs[n - 1 - j],
            pairs@.len() == i,
            forall|j: int| 0 <= j < i ==> #[trigger] pairs@[j] == tagged(ranges@, frs)[j],
        decreases n - i,
    {
        let ghost r0 = rest@;
        let bytes = rest.pop().unwrap();
        proof {
            assert(bytes == r0[r0.len() - 1]);
            assert(bytes == frs[i as int]);
            assert forall|j: int| 0 <= j < rest@.len() implies #[trigger] rest@[j] == frs[n - 1 - j] by {
                assert(rest@[j] == r0[j]);
            }
        }
        pairs.push((ranges[i].offset, bytes));
        i = i + 1;
    }
    assert(pairs@ =~= tagged(ranges@, frs));
    FragmentRangeReader::from_pairs(pairs)
}

} // verus!
