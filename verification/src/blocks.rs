//! Parsing of the MDF 4 block structures that merging inspects: the common
//! block header and the conversion (`##CC`) block.

use vstd::prelude::*;
use vstd::bytes::{spec_u16_from_le_bytes, spec_u64_from_le_bytes};
use crate::error::MdfError;
use crate::le::{read_u16_le, read_u64_le};

verus! {

/// Length of the common block header.
pub const HEADER_LEN: usize = 24;

/// The little-endian `u64` at `at`.
pub open spec fn le64_at(b: Seq<u8>, at: int) -> u64 {
    spec_u64_from_le_bytes(b.subrange(at, at + 8))
}

/// The little-endian `u16` at `at`.
pub open spec fn le16_at(b: Seq<u8>, at: int) -> u16 {
    spec_u16_from_le_bytes(b.subrange(at, at + 2))
}

/// The common header of every MDF 4 block: a four-character identifier
/// (such as `##CC`), 4 reserved bytes, the block length and the number of
/// links, both little-endian `u64`.
pub struct BlockHeader {
    pub id: Vec<u8>,
    pub block_len: u64,
    pub links_nr: u64,
}

/// The identifier is the four given bytes.
pub open spec fn id_is(id: Seq<u8>, a: u8, b: u8, c: u8, d: u8) -> bool {
    id.len() == 4 && id[0] == a && id[1] == b && id[2] == c && id[3] == d
}

impl BlockHeader {
    /// Parse the header at the start of `bytes`.
    pub fn from_bytes(bytes: &[u8]) -> (r: Result<Self, MdfError>)
        ensures
            bytes@.len() < HEADER_LEN ==> r == Err::<Self, MdfError>(
                MdfError::TooShortBuffer { actual: bytes@.len() as usize, expected: HEADER_LEN }),
            bytes@.len() >= HEADER_LEN ==> (r matches Ok(h) && h.id@ == bytes@.subrange(0, 4)
                && h.block_len == le64_at(bytes@, 8) && h.links_nr == le64_at(bytes@, 16)),
    {
        if bytes.len() < HEADER_LEN {
            return Err(MdfError::TooShortBuffer { actual: bytes.len(), expected: HEADER_LEN });
        }
        let mut id: Vec<u8> = Vec::with_capacity(4);
        id.push(bytes[0]);
        id.push(bytes[1]);
        id.push(bytes[2]);
        id.push(bytes[3]);
        assert(id@ =~= bytes@.subrange(0, 4));
        Ok(BlockHeader { id, block_len: read_u64_le(bytes, 8), links_nr: read_u64_le(bytes, 16) })
    }

    /// Whether the identifier is the four given bytes.
    pub fn id_is(&self, a: u8, b: u8, c: u8, d: u8) -> (r: bool)
        ensures
            r == id_is(self.id@, a, b, c, d),
    {
        self.id.len() == 4 && self.id[0] == a && self.id[1] == b && self.id[2] == c && self.id[3] == d
    }
}

/// What merging reads of a conversion block.
pub struct ConversionView {
    pub cc_type: u8,
    pub cc_ref: Seq<u64>,
    pub cc_val: Seq<u64>,
}

/// Parse of a conversion block laid out as MDF 4.1 specifies: the header,
/// `links_nr` links of which the fifth onwards are the `cc_ref` references,
/// then `cc_type`, precision, flags, ref count, value count (`u16` at +6),
/// the physical range (two `f64`), and the `cc_val` values (`f64`, kept as
/// their bit patterns).
pub open spec fn spec_conversion(b: Seq<u8>) -> Result<ConversionView, MdfError> {
    if b.len() < HEADER_LEN {
        Err(MdfError::TooShortBuffer { actual: b.len() as usize, expected: HEADER_LEN })
    } else {
        let l = le64_at(b, 16);
        let d = 24 + 8 * l;
        if l < 4 || d + 24 > b.len() {
            Err(MdfError::MalformedBlock)
        } else {
            let n = le16_at(b, d + 6);
            if d + 24 + 8 * n > b.len() {
                Err(MdfError::MalformedBlock)
            } else {
                Ok(ConversionView {
                    cc_type: b[d],
                    cc_ref: Seq::new((l - 4) as nat, |i: int| le64_at(b, 24 + 8 * (4 + i))),
                    cc_val: Seq::new(n as nat, |i: int| le64_at(b, d + 24 + 8 * i)),
                })
            }
        }
    }
}

/// A conversion block, as far as merging reads it.
pub struct ConversionBlock {
    pub cc_type: u8,
    pub cc_ref: Vec<u64>,
    /// The `cc_val` values as the bit patterns of their `f64`s.
    pub cc_val: Vec<u64>,
}

impl ConversionBlock {
    /// Parse a conversion block from its bytes.
    pub fn from_bytes(bytes: &[u8]) -> (r: Result<Self, MdfError>)
        ensures
            match spec_conversion(bytes@) {
                Ok(v) => r matches Ok(c) && c.cc_type == v.cc_type && c.cc_ref@ == v.cc_ref && c.cc_val@ == v.cc_val,
                Err(e) => r == Err::<Self, MdfError>(e),
            },
    {
        let len = bytes.len();
        if len < HEADER_LEN {
            return Err(MdfError::TooShortBuffer { actual: len, expected: HEADER_LEN });
        }
        let l = read_u64_le(bytes, 16);
        let need: u128 = 48u128 + 8u128 * (l as u128);
        if l < 4 || need > len as u128 {
            return Err(MdfError::MalformedBlock);
        }
        let d: usize = (24 + 8 * l) as usize;
        let n = read_u16_le(bytes, d + 6);
        let need_vals: u128 = (d as u128) + 24u128 + 8u128 * (n as u128);
        if need_vals > len as u128 {
            return Err(MdfError::MalformedBlock);
        }
        let cc_type = bytes[d];
        let nrefs: usize = (l - 4) as usize;
        let mut cc_ref: Vec<u64> = Vec::with_capacity(nrefs);
        let mut i: usize = 0;
        while i < nrefs
            invariant
                nrefs == l - 4,
                24 + 8 * l + 24 <= len,
                len == bytes@.len(),
                0 <= i <= nrefs,
                cc_ref@.len() == i,
                forall|j: int| 0 <= j < i ==> #[trigger] cc_ref@[j] == le64_at(bytes@, 24 + 8 * (4 + j)),
            decreases nrefs - i,
        {
            cc_ref.push(read_u64_le(bytes, 24 + 8 * (4 + i)));
            i = i + 1;
        }
        let nvals: usize = n as usize;
        let mut cc_val: Vec<u64> = Vec::with_capacity(nvals);
        let mut k: usize = 0;
        while k < nvals
            invariant
                nvals == n,
                d + 24 + 8 * n <= len,
                len == bytes@.len(),
                0 <= k <= nvals,
                cc_val@.len() == k,
                forall|j: int| 0 <= j < k ==> #[trigger] cc_val@[j] == le64_at(bytes@, d + 24 + 8 * j),
            decreases nvals - k,
        {
            cc_val.push(read_u64_le(bytes, d + 24 + 8 * k));
            k = k + 1;
        }
        proof {
            assert(cc_ref@ =~= Seq::new((l - 4) as nat, |j: int| le64_at(bytes@, 24 + 8 * (4 + j))));
            assert(cc_val@ =~= Seq::new(n as nat, |j: int| le64_at(bytes@, d + 24 + 8 * j)));
        }
        Ok(ConversionBlock { cc_type, cc_ref, cc_val })
    }
}

} // verus!
