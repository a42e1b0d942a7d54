//! Byte ranges of the data a channel's values are decoded from, for reads
//! served from raw file fragments.

use vstd::prelude::*;
use crate::error::MdfError;
use crate::fragments::{
    coalesce,
    lemma_merge_ranges_cover,
    merge_ranges,
    range_covers,
    range_end,
    ranges_cover,
    ranges_in_bounds,
    separated,
};
use crate::keyed::sort_by_offset;

verus! {

/// Size of an MDF block header, which precedes a data block's payload.
pub const BLOCK_HEADER_LEN: u64 = 24;

/// Where a data block lies in the file, as an index records it.
#[derive(Debug, Clone, Copy, PartialEq, Eq)]
pub struct DataBlockInfo {
    pub file_offset: u64,
    pub size: u64,
    pub is_compressed: bool,
}

/// A block that can be served raw: uncompressed, and at least a header long.
pub open spec fn servable(b: DataBlockInfo) -> bool {
    !b.is_compressed && b.size >= BLOCK_HEADER_LEN
}

/// Index of the first block that cannot be served, or -1.
pub open spec fn first_unservable(bs: Seq<DataBlockInfo>, i: int) -> int
    decreases bs.len() - i,
{
    if i < 0 || i >= bs.len() {
        -1
    } else if !servable(bs[i]) {
        i
    } else {
        first_unservable(bs, i + 1)
    }
}

/// The payload range of a block: past its header, to its end.
pub open spec fn payload_range(b: DataBlockInfo) -> (u64, u64) {
    ((b.file_offset + BLOCK_HEADER_LEN) as u64, (b.size - BLOCK_HEADER_LEN) as u64)
}

/// Outcome of collecting the payload ranges of `bs`: the first unservable
/// block decides the error; otherwise the ranges, merged.
pub open spec fn signal_ranges_spec(bs: Seq<DataBlockInfo>) -> Result<Seq<(u64, u64)>, MdfError> {
    let b = first_unservable(bs, 0);
    if b >= 0 {
        if bs[b].is_compressed {
            Err(MdfError::CompressedBlockUnsupported)
        } else {
            Err(MdfError::DataBlockTooSmall { file_offset: bs[b].file_offset, size: bs[b].size })
        }
    } else {
        Ok(coalesce(sort_by_offset(Seq::new(bs.len(), |i: int| payload_range(bs[i])))))
    }
}

/// Every block reached before the first unservable one ends within `u64`.
pub open spec fn reached_blocks_in_bounds(bs: Seq<DataBlockInfo>) -> bool {
    forall|i: int|
        0 <= i < bs.len() && (forall|j: int| 0 <= j <= i ==> servable(#[trigger] bs[j])) ==> bs[i].file_offset
            + bs[i].size <= u64::MAX
}

proof fn lemma_first_unservable_skip(bs: Seq<DataBlockInfo>, i: int, k: int)
    requires
        0 <= i <= k <= bs.len(),
        forall|j: int| i <= j < k ==> servable(#[trigger] bs[j]),
    ensures
        first_unservable(bs, i) == first_unservable(bs, k),
    decreases k - i,
{
    if i < k {
        lemma_first_unservable_skip(bs, i + 1, k);
    }
}

/// Full data-section byte ranges for a channel: the payloads of its group's
/// data blocks followed by those of its own VLSD blocks, merged. Compressed
/// blocks, and blocks smaller than a header, cannot be served.
pub fn signal_ranges(data_blocks: &Vec<DataBlockInfo>, vlsd_blocks: &Vec<DataBlockInfo>) -> (r: Result<Vec<(u64, u64)>, MdfError>)
    requires
        data_blocks@.len() + vlsd_blocks@.len() <= usize::MAX,
        reached_blocks_in_bounds(data_blocks@ + vlsd_blocks@),
    ensures
        match signal_ranges_spec(data_blocks@ + vlsd_blocks@) {
            Ok(s) => r matches Ok(v) && v@ == s,
            Err(e) => r == Err::<Vec<(u64, u64)>, MdfError>(e),
        },
{
    let ghost all = data_blocks@ + vlsd_blocks@;
    let nd = data_blocks.len();
    let n = nd + vlsd_blocks.len();
    let mut ranges: Vec<(u64, u64)> = Vec::with_capacity(n);
    let mut i: usize = 0;
    while i < n
        invariant
            all == data_blocks@ + vlsd_blocks@,
            nd == data_blocks@.len(),
            n == all.len(),
            0 <= i <= n,
            reached_blocks_in_bounds(all),
            forall|j: int| 0 <= j < i ==> servable(#[trigger] all[j]),
            ranges@.len() == i,
            forall|j: int| 0 <= j < i ==> #[trigger] ranges@[j] == payload_range(all[j]),
        decreases n - i,
    {
        let db = if i < nd { data_blocks[i] } else { vlsd_blocks[i - nd] };
        assert(db == all[i as int]);
        if db.is_compressed {
            proof {
                lemma_first_unservable_skip(all, 0, i as int);
            }
            return Err(MdfError::CompressedBlockUnsupported);
        }
        if db.size < BLOCK_HEADER_LEN {
            proof {
                lemma_first_unservable_skip(all, 0, i as int);
            }
            return Err(MdfError::DataBlockTooSmall { file_offset: db.file_offset, size: db.size });
        }
        proof {
            assert forall|j: int| 0 <= j <= i implies servable(#[trigger] all[j]) by {}
        }
        ranges.push((db.file_offset + BLOCK_HEADER_LEN, db.size - BLOCK_HEADER_LEN));
        i = i + 1;
    }
    proof {
        lemma_first_unservable_skip(all, 0, n as int);
        assert(ranges@ =~= Seq::new(all.len(), |j: int| payload_range(all[j])));
        assert(ranges_in_bounds(ranges@)) by {
            assert forall|j: int| 0 <= j < ranges@.len() implies range_end(#[trigger] ranges@[j]) <= u64::MAX by {
                assert(ranges@[j] == payload_range(all[j]));
            }
        }
    }
    Ok(merge_ranges(ranges))
}

/// When every block can be served, the ranges are in order, disjoint and
/// not adjacent, and hold exactly the payload bytes of the blocks.
pub proof fn lemma_signal_ranges_cover(bs: Seq<DataBlockInfo>)
    requires
        reached_blocks_in_bounds(bs),
        first_unservable(bs, 0) == -1,
    ensures
        signal_ranges_spec(bs) matches Ok(s) && separated(s) && forall|p: int|
            ranges_cover(s, p) <==> exists|i: int| 0 <= i < bs.len() && range_covers(payload_range(#[trigger] bs[i]), p),
{
    let rs = Seq::new(bs.len(), |i: int| payload_range(bs[i]));
    assert forall|i: int| 0 <= i < bs.len() implies servable(#[trigger] bs[i]) by {
        lemma_servable_before(bs, 0, i);
    }
    assert(ranges_in_bounds(rs)) by {
        assert forall|i: int| 0 <= i < rs.len() implies range_end(#[trigger] rs[i]) <= u64::MAX by {
            assert forall|j: int| 0 <= j <= i implies servable(#[trigger] bs[j]) by {}
        }
    }
    lemma_merge_ranges_cover(rs);
    assert forall|p: int| ranges_cover(rs, p) <==> exists|i: int| 0 <= i < bs.len() && range_covers(payload_range(#[trigger] bs[i]), p) by {
        if ranges_cover(rs, p) {
            let i = choose|i: int| 0 <= i < rs.len() && range_covers(#[trigger] rs[i], p);
            assert(range_covers(payload_range(bs[i]), p));
        }
        if exists|i: int| 0 <= i < bs.len() && range_covers(payload_range(#[trigger] bs[i]), p) {
            let i = choose|i: int| 0 <= i < bs.len() && range_covers(payload_range(#[trigger] bs[i]), p);
            assert(range_covers(rs[i], p));
        }
    }
    let out = coalesce(sort_by_offset(rs));
    assert(signal_ranges_spec(bs) == Ok::<Seq<(u64, u64)>, MdfError>(out));
    assert forall|p: int| ranges_cover(out, p) <==> exists|i: int| 0 <= i < bs.len() && range_covers(payload_range(#[trigger] bs[i]), p) by {
        assert(ranges_cover(out, p) <==> ranges_cover(rs, p));
    }
}

proof fn lemma_servable_before(bs: Seq<DataBlockInfo>, k: int, i: int)
    requires
        0 <= k <= i < bs.len(),
        first_unservable(bs, k) == -1,
    ensures
        servable(bs[i]),
    decreases i - k,
{
    if k < i {
        lemma_servable_before(bs, k + 1, i);
    }
}

} // verus!
