//! Merging the channel groups of two MDF files: groups whose layouts match
//! (channel names, data types, offsets, bit counts, channel and sync types,
//! units and conversions) are concatenated, the others are appended.

use vstd::prelude::*;
use crate::blocks::{BlockHeader, ConversionBlock, ConversionView, id_is, le64_at, spec_conversion};
use crate::error::MdfError;
use crate::le::{read_u16_be, read_u16_le, u64_le_bytes};
use crate::text::{
    is_nul_trim_of,
    lemma_trim_nuls,
    latin1,
    latin1_chars,
    string_from_chars,
    trim_nuls,
    trim_trailing_nuls,
    utf16_chars,
    utf16_decode,
    utf8_chars,
};
use crate::types::DataType;
use vstd::utf8::{decode_utf8, valid_utf8};

verus! {

/// Layout and metadata of one channel, as far as merging compares it, plus
/// the source-file link addresses that are cloned into the output.
pub struct ChannelMeta {
    pub name: Option<String>,
    pub data_type: DataType,
    pub bit_offset: u8,
    pub byte_offset: u32,
    pub bit_count: u32,
    pub channel_type: u8,
    pub sync_type: u8,
    /// Whether the source channel was VLSD (channel type 1 with a data link).
    pub is_vlsd: bool,
    /// Structural fingerprint of the conversion chain.
    pub conv_fingerprint: Vec<u8>,
    pub unit: Option<String>,
    pub conversion_addr: u64,
    pub unit_addr: u64,
    pub comment_addr: u64,
    pub source_addr: u64,
}

/// The text of an optional string.
pub open spec fn opt_text(o: Option<String>) -> Option<Seq<char>> {
    match o {
        Some(s) => Some(s@),
        None => None,
    }
}

/// Two channels match when everything but their source addresses agrees.
pub open spec fn channel_matches(a: ChannelMeta, b: ChannelMeta) -> bool {
    &&& opt_text(a.name) == opt_text(b.name)
    &&& a.data_type == b.data_type
    &&& a.bit_offset == b.bit_offset
    &&& a.byte_offset == b.byte_offset
    &&& a.bit_count == b.bit_count
    &&& a.channel_type == b.channel_type
    &&& a.sync_type == b.sync_type
    &&& a.is_vlsd == b.is_vlsd
    &&& a.conv_fingerprint@ == b.conv_fingerprint@
    &&& opt_text(a.unit) == opt_text(b.unit)
}

fn opt_text_eq(a: &Option<String>, b: &Option<String>) -> (r: bool)
    ensures
        r == (opt_text(*a) == opt_text(*b)),
{
    match (a, b) {
        (Some(x), Some(y)) => x.eq(y),
        (None, None) => true,
        _ => false,
    }
}

fn bytes_eq(a: &Vec<u8>, b: &Vec<u8>) -> (r: bool)
    ensures
        r == (a@ == b@),
{
    if a.len() != b.len() {
        return false;
    }
    let mut i: usize = 0;
    while i < a.len()
        invariant
            a@.len() == b@.len(),
            0 <= i <= a@.len(),
            forall|j: int| 0 <= j < i ==> a@[j] == b@[j],
        decreases a@.len() - i,
    {
        if a[i] != b[i] {
            return false;
        }
        i = i + 1;
    }
    assert(a@ =~= b@);
    true
}

impl ChannelMeta {
    /// Whether the two channels have the same layout and metadata.
    pub fn matches(&self, other: &Self) -> (r: bool)
        ensures
            r == channel_matches(*self, *other),
    {
        opt_text_eq(&self.name, &other.name) && crate::types::same_data_type(&self.data_type, &other.data_type) && self.bit_offset
            == other.bit_offset && self.byte_offset == other.byte_offset && self.bit_count == other.bit_count
            && self.channel_type == other.channel_type && self.sync_type == other.sync_type && self.is_vlsd
            == other.is_vlsd && bytes_eq(&self.conv_fingerprint, &other.conv_fingerprint) && opt_text_eq(
            &self.unit,
            &other.unit,
        )
    }
}

/// Layout of a channel group.
pub struct GroupMeta {
    pub record_id_len: u8,
    pub channels: Vec<ChannelMeta>,
}

/// Two groups match when their record id lengths agree and their channels
/// match one for one.
pub open spec fn group_matches(a: GroupMeta, b: GroupMeta) -> bool {
    &&& a.record_id_len == b.record_id_len
    &&& a.channels@.len() == b.channels@.len()
    &&& forall|i: int| 0 <= i < a.channels@.len() ==> channel_matches(#[trigger] a.channels@[i], b.channels@[i])
}

impl GroupMeta {
    /// Whether the two groups have the same layout.
    pub fn matches(&self, other: &Self) -> (r: bool)
        ensures
            r == group_matches(*self, *other),
    {
        if self.record_id_len != other.record_id_len || self.channels.len() != other.channels.len() {
            return false;
        }
        let n = self.channels.len();
        let mut i: usize = 0;
        while i < n
            invariant
                n == self.channels@.len(),
                n == other.channels@.len(),
                0 <= i <= n,
                forall|j: int| 0 <= j < i ==> channel_matches(#[trigger] self.channels@[j], other.channels@[j]),
            decreases n - i,
        {
            if !self.channels[i].matches(&other.channels[i]) {
                return false;
            }
            i = i + 1;
        }
        true
    }
}

/// Two channels match exactly when their names, data types, bit and byte
/// offsets, bit counts, channel and sync types, VLSD flags, conversion
/// fingerprints and units are all equal; their source addresses play no part.
pub proof fn lemma_channel_match_fields(a: ChannelMeta, b: ChannelMeta)
    ensures
        channel_matches(a, b) <==> {
            &&& opt_text(a.name) == opt_text(b.name)
            &&& a.data_type == b.data_type
            &&& a.bit_offset == b.bit_offset
            &&& a.byte_offset == b.byte_offset
            &&& a.bit_count == b.bit_count
            &&& a.channel_type == b.channel_type
            &&& a.sync_type == b.sync_type
            &&& a.is_vlsd == b.is_vlsd
            &&& a.conv_fingerprint@ == b.conv_fingerprint@
            &&& opt_text(a.unit) == opt_text(b.unit)
        },
        channel_matches(a, b) ==> a.conv_fingerprint@ == b.conv_fingerprint@,
{
}

/// Two groups match exactly when their record id lengths and channel counts
/// agree and, at every index, the two channels agree in name, data type,
/// offsets, bit count, channel and sync type, VLSD flag, conversion
/// fingerprint and unit: a difference in any channel keeps them apart.
pub proof fn lemma_group_match_fields(a: GroupMeta, b: GroupMeta)
    ensures
        group_matches(a, b) <==> {
            &&& a.record_id_len == b.record_id_len
            &&& a.channels@.len() == b.channels@.len()
            &&& forall|i: int| 0 <= i < a.channels@.len() ==> {
                let x = #[trigger] a.channels@[i];
                let y = b.channels@[i];
                &&& opt_text(x.name) == opt_text(y.name)
                &&& x.data_type == y.data_type
                &&& x.bit_offset == y.bit_offset
                &&& x.byte_offset == y.byte_offset
                &&& x.bit_count == y.bit_count
                &&& x.channel_type == y.channel_type
                &&& x.sync_type == y.sync_type
                &&& x.is_vlsd == y.is_vlsd
                &&& x.conv_fingerprint@ == y.conv_fingerprint@
                &&& opt_text(x.unit) == opt_text(y.unit)
            }
        },
        forall|i: int| 0 <= i < a.channels@.len() && i < b.channels@.len()
            && opt_text(#[trigger] a.channels@[i].name) != opt_text(b.channels@[i].name) ==> !group_matches(a, b),
{
    assert forall|i: int| 0 <= i < a.channels@.len() implies
        channel_matches(#[trigger] a.channels@[i], b.channels@[i]) <==> {
            let x = a.channels@[i];
            let y = b.channels@[i];
            &&& opt_text(x.name) == opt_text(y.name)
            &&& x.data_type == y.data_type
            &&& x.bit_offset == y.bit_offset
            &&& x.byte_offset == y.byte_offset
            &&& x.bit_count == y.bit_count
            &&& x.channel_type == y.channel_type
            &&& x.sync_type == y.sync_type
            &&& x.is_vlsd == y.is_vlsd
            &&& x.conv_fingerprint@ == y.conv_fingerprint@
            &&& opt_text(x.unit) == opt_text(y.unit)
        } by {
        lemma_channel_match_fields(a.channels@[i], b.channels@[i]);
    }
}

/// A channel group being merged: its layout, the values of each channel,
/// and which input file (0 or 1) supplies the metadata blocks cloned into
/// the output.
pub struct MergedGroup<T> {
    pub meta: GroupMeta,
    pub data: Vec<Vec<T>>,
    pub src_file: usize,
}

/// Abstract state of a merged group.
pub struct MergedGroupView<T> {
    pub meta: GroupMeta,
    pub data: Seq<Seq<T>>,
    pub src_file: usize,
}

/// The values of each column.
pub open spec fn columns<T>(d: Seq<Vec<T>>) -> Seq<Seq<T>> {
    Seq::new(d.len(), |j: int| d[j]@)
}

impl<T> View for MergedGroup<T> {
    type V = MergedGroupView<T>;

    open spec fn view(&self) -> MergedGroupView<T> {
        MergedGroupView { meta: self.meta, data: columns(self.data@), src_file: self.src_file }
    }
}

/// The views of a list of groups.
pub open spec fn group_views<T>(gs: Seq<MergedGroup<T>>) -> Seq<MergedGroupView<T>> {
    Seq::new(gs.len(), |i: int| gs[i]@)
}

/// Index of the first group at or after `i` whose layout matches `m`, or -1.
pub open spec fn first_match_from<T>(gs: Seq<MergedGroupView<T>>, m: GroupMeta, i: int) -> int
    decreases gs.len() - i,
{
    if i < 0 || i >= gs.len() {
        -1
    } else if group_matches(gs[i].meta, m) {
        i
    } else {
        first_match_from(gs, m, i + 1)
    }
}

/// Column `j` of `a` followed by column `j` of `b`, for the columns both
/// have; columns only `a` has are kept as they are.
pub open spec fn extend_columns<T>(a: Seq<Seq<T>>, b: Seq<Seq<T>>) -> Seq<Seq<T>> {
    Seq::new(a.len(), |j: int| if j < b.len() { a[j] + b[j] } else { a[j] })
}

/// Merge one group into a list: into the first matching group, by
/// appending its values column by column, or else as a new group at the end.
pub open spec fn absorb<T>(gs: Seq<MergedGroupView<T>>, og: MergedGroupView<T>) -> Seq<MergedGroupView<T>> {
    let k = first_match_from(gs, og.meta, 0);
    if k >= 0 {
        gs.update(k, MergedGroupView { meta: gs[k].meta, data: extend_columns(gs[k].data, og.data), src_file: gs[k].src_file })
    } else {
        gs.push(og)
    }
}

/// Merge a list of groups into another, one after the other.
pub open spec fn absorb_all<T>(gs: Seq<MergedGroupView<T>>, others: Seq<MergedGroupView<T>>) -> Seq<MergedGroupView<T>>
    decreases others.len(),
{
    if others.len() == 0 {
        gs
    } else {
        absorb(absorb_all(gs, others.drop_last()), others.last())
    }
}

proof fn lemma_first_match_skip<T>(gs: Seq<MergedGroupView<T>>, m: GroupMeta, i: int, k: int)
    requires
        0 <= i <= k <= gs.len(),
        forall|j: int| i <= j < k ==> !group_matches(#[trigger] gs[j].meta, m),
    ensures
        first_match_from(gs, m, i) == first_match_from(gs, m, k),
    decreases k - i,
{
    if i < k {
        lemma_first_match_skip(gs, m, i + 1, k);
    }
}

/// Append the columns of `b` to those of `a` (as far as both have them).
fn extend_group_columns<T>(a: Vec<Vec<T>>, b: Vec<Vec<T>>) -> (r: Vec<Vec<T>>)
    ensures
        columns(r@) == extend_columns(columns(a@), columns(b@)),
{
    let ghost ca = columns(a@);
    let ghost cb = columns(b@);
    let ghost na = a@.len() as int;
    let ghost nb = b@.len() as int;
    let mut rest_a = crate::keyed::reversed(a);
    let mut rest_b = crate::keyed::reversed(b);
    let mut out: Vec<Vec<T>> = Vec::new();
    let ghost mut k: int = 0;
    while rest_a.len() > 0
        invariant
            na == ca.len(),
            nb == cb.len(),
            0 <= k <= na,
            rest_a@.len() == na - k,
            forall|j: int| 0 <= j < rest_a@.len() ==> (#[trigger] rest_a@[j])@ == ca[na - 1 - j],
            rest_b@.len() == if k <= nb { nb - k } else { 0 },
            forall|j: int| 0 <= j < rest_b@.len() ==> (#[trigger] rest_b@[j])@ == cb[nb - 1 - j],
            out@.len() == k,
            forall|j: int| 0 <= j < k ==> (#[trigger] out@[j])@ == extend_columns(ca, cb)[j],
        decreases rest_a.len(),
    {
        let ghost ra0 = rest_a@;
        let ghost rb0 = rest_b@;
        let mut col = rest_a.pop().unwrap();
        proof {
            assert(col == ra0[ra0.len() - 1]);
            assert(col@ == ca[k]);
            assert forall|j: int| 0 <= j < rest_a@.len() implies (#[trigger] rest_a@[j])@ == ca[na - 1 - j] by {
                assert(rest_a@[j] == ra0[j]);
            }
        }
        if rest_b.len() > 0 {
            let mut more = rest_b.pop().unwrap();
            proof {
                assert(more == rb0[rb0.len() - 1]);
                assert(more@ == cb[k]);
                assert forall|j: int| 0 <= j < rest_b@.len() implies (#[trigger] rest_b@[j])@ == cb[nb - 1 - j] by {
                    assert(rest_b@[j] == rb0[j]);
                }
            }
            col.append(&mut more);
        }
        out.push(col);
        proof {
            k = k + 1;
        }
    }
    proof {
        assert(columns(out@) =~= extend_columns(ca, cb));
    }
    out
}

/// Merge the groups of the second file into those of the first: each group
/// of `other`, in order, is appended column by column to the first group
/// (of the list as it stands) whose layout matches, or else added as a new
/// group at the end.
pub fn merge_group_lists<T>(groups: Vec<MergedGroup<T>>, other: Vec<MergedGroup<T>>) -> (r: Vec<MergedGroup<T>>)
    ensures
        group_views(r@) == absorb_all(group_views(groups@), group_views(other@)),
{
    let ghost g0 = group_views(groups@);
    let ghost o0 = group_views(other@);
    let mut gs = groups;
    let mut rest = crate::keyed::reversed(other);
    let ghost mut k: int = 0;
    proof {
        assert(o0.take(0) =~= Seq::<MergedGroupView<T>>::empty());
    }
    while rest.len() > 0
        invariant
            0 <= k <= o0.len(),
            group_views(gs@) == absorb_all(g0, o0.take(k)),
            rest@.len() == o0.len() - k,
            forall|j: int| 0 <= j < rest@.len() ==> (#[trigger] rest@[j])@ == o0[o0.len() - 1 - j],
        decreases rest.len(),
    {
        let ghost r0 = rest@;
        let og = rest.pop().unwrap();
        proof {
            assert(og == r0[r0.len() - 1]);
            assert(og@ == o0[k]);
            assert forall|j: int| 0 <= j < rest@.len() implies (#[trigger] rest@[j])@ == o0[o0.len() - 1 - j] by {
                assert(rest@[j] == r0[j]);
            }
            assert(o0.take(k + 1).drop_last() =~= o0.take(k));
            assert(o0.take(k + 1).last() == o0[k]);
        }
        let ghost cur = group_views(gs@);
        let n = gs.len();
        let mut i: usize = 0;
        let mut found = false;
        while i < n && !found
            invariant
                n == gs@.len(),
                cur == group_views(gs@),
                0 <= i <= n,
                found ==> i < n && group_matches(gs@[i as int].meta, og.meta),
                forall|j: int| 0 <= j < i && !(found && j == i) ==> !group_matches(#[trigger] gs@[j].meta, og.meta),
            decreases 2 * (n - i) + if found { 0int } else { 1int },
        {
            if gs[i].meta.matches(&og.meta) {
                found = true;
            } else {
                i = i + 1;
            }
        }
        proof {
            assert forall|j: int| 0 <= j < i implies !group_matches(#[trigger] cur[j].meta, og@.meta) by {
                assert(cur[j] == gs@[j]@);
            }
            lemma_first_match_skip(cur, og@.meta, 0, i as int);
        }
        if found {
            let ghost before = gs@;
            let g = gs.remove(i);
            let MergedGroup { meta, data, src_file } = g;
            let MergedGroup { meta: _, data: odata, src_file: _ } = og;
            let new_data = extend_group_columns(data, odata);
            gs.insert(i, MergedGroup { meta, data: new_data, src_file });
            proof {
                assert(cur[i as int] == before[i as int]@);
                assert(first_match_from(cur, o0[k].meta, 0) == i);
                assert(group_views(gs@) =~= absorb(cur, o0[k])) by {
                    assert forall|j: int| 0 <= j < gs@.len() implies group_views(gs@)[j] == absorb(cur, o0[k])[j] by {
                        if j != i {
                            assert(gs@[j] == before[j]);
                        }
                    }
                }
            }
        } else {
            let ghost before = gs@;
            gs.push(og);
            proof {
                lemma_first_match_skip(cur, o0[k].meta, i as int, cur.len() as int);
                assert(group_views(gs@) =~= absorb(cur, o0[k])) by {
                    assert forall|j: int| 0 <= j < gs@.len() implies group_views(gs@)[j] == absorb(cur, o0[k])[j] by {
                        if j < before.len() {
                            assert(gs@[j] == before[j]);
                        }
                    }
                }
            }
        }
        proof {
            k = k + 1;
        }
    }
    proof {
        assert(k == o0.len());
        assert(o0.take(k) =~= o0);
    }
    gs
}

/// Merging keeps the groups of the first file in place, with their layout
/// and source, and each of their columns begins with the values it had
/// (values are concatenated, never re-based or reordered).
pub proof fn lemma_merge_keeps_first<T>(gs: Seq<MergedGroupView<T>>, others: Seq<MergedGroupView<T>>)
    ensures
        absorb_all(gs, others).len() >= gs.len(),
        forall|i: int| 0 <= i < gs.len() ==> {
            let g = #[trigger] absorb_all(gs, others)[i];
            &&& g.meta == gs[i].meta
            &&& g.src_file == gs[i].src_file
            &&& g.data.len() == gs[i].data.len()
            &&& forall|j: int| 0 <= j < gs[i].data.len() ==> gs[i].data[j].is_prefix_of(#[trigger] g.data[j])
        },
    decreases others.len(),
{
    if others.len() > 0 {
        let prev = absorb_all(gs, others.drop_last());
        lemma_merge_keeps_first(gs, others.drop_last());
        let og = others.last();
        let res = absorb(prev, og);
        let k = first_match_from(prev, og.meta, 0);
        lemma_first_match_range(prev, og.meta, 0);
        assert forall|i: int| 0 <= i < gs.len() implies {
            let g = #[trigger] res[i];
            &&& g.meta == gs[i].meta
            &&& g.src_file == gs[i].src_file
            &&& g.data.len() == gs[i].data.len()
            &&& forall|j: int| 0 <= j < gs[i].data.len() ==> gs[i].data[j].is_prefix_of(#[trigger] g.data[j])
        } by {
            let p = prev[i];
            if k == i {
                assert forall|j: int| 0 <= j < gs[i].data.len() implies gs[i].data[j].is_prefix_of(#[trigger] res[i].data[j]) by {
                    assert(gs[i].data[j].is_prefix_of(p.data[j]));
                    if j < og.data.len() {
                        assert(res[i].data[j] == p.data[j] + og.data[j]);
                        assert(gs[i].data[j].is_prefix_of(p.data[j] + og.data[j])) by {
                            assert forall|t: int| 0 <= t < gs[i].data[j].len() implies gs[i].data[j][t] == (p.data[j] + og.data[j])[t] by {
                                assert(gs[i].data[j][t] == p.data[j][t]);
                            }
                        }
                    }
                }
            } else {
                assert(res[i] == p);
            }
        }
    }
}

proof fn lemma_first_match_range<T>(gs: Seq<MergedGroupView<T>>, m: GroupMeta, i: int)
    requires
        0 <= i,
    ensures
        first_match_from(gs, m, i) == -1 || i <= first_match_from(gs, m, i) < gs.len(),
    decreases gs.len() - i,
{
    if i < gs.len() && !group_matches(gs[i].meta, m) {
        lemma_first_match_range(gs, m, i + 1);
    }
}

/// Number of records a merged group writes: the number of values of its
/// first channel (0 without channels). Writing record `i` takes value `i` of
/// every channel, so when some channel holds fewer values the write fails at
/// the first record it cannot serve: the error names the first of the
/// shortest channels, its value count, and the record count.
pub fn record_count<T>(data: &Vec<Vec<T>>) -> (r: Result<usize, MdfError>)
    ensures
        data@.len() == 0 ==> r == Ok::<usize, MdfError>(0),
        r matches Ok(n) ==> (data@.len() == 0 && n == 0) || data@.len() > 0 && n == data@[0]@.len()
            && forall|j: int| 0 <= j < data@.len() ==> (#[trigger] data@[j])@.len() >= n,
        data@.len() > 0 && (forall|j: int| 0 <= j < data@.len() ==> (#[trigger] data@[j])@.len() >= data@[0]@.len())
            ==> r == Ok::<usize, MdfError>(data@[0]@.len() as usize),
        r matches Err(e) ==> (e matches MdfError::ChannelLengthMismatch { channel, values, records } && {
            &&& data@.len() > 0
            &&& records == data@[0]@.len()
            &&& channel < data@.len()
            &&& values == data@[channel as int]@.len()
            &&& values < records
            &&& forall|j: int| 0 <= j < data@.len() ==> (#[trigger] data@[j])@.len() >= values
            &&& forall|j: int| 0 <= j < channel ==> (#[trigger] data@[j])@.len() > values
        }),
{
    let n = data.len();
    if n == 0 {
        return Ok(0);
    }
    let records = data[0].len();
    let mut min_idx: usize = 0;
    let mut min_len: usize = records;
    let mut j: usize = 1;
    while j < n
        invariant
            n == data@.len(),
            1 <= j <= n,
            min_idx < j,
            min_len == data@[min_idx as int]@.len(),
            forall|t: int| 0 <= t < j ==> (#[trigger] data@[t])@.len() >= min_len,
            forall|t: int| 0 <= t < min_idx ==> (#[trigger] data@[t])@.len() > min_len,
        decreases n - j,
    {
        let l = data[j].len();
        if l < min_len {
            min_len = l;
            min_idx = j;
        }
        j = j + 1;
    }
    if min_len < records {
        Err(MdfError::ChannelLengthMismatch { channel: min_idx, values: min_len, records })
    } else {
        Ok(records)
    }
}

// ---------------------------------------------------------------------------
// Conversion fingerprints
// ---------------------------------------------------------------------------

/// Bytes emitted by a fingerprint walk, and the error that stopped it, if any.
pub struct FpOut {
    pub bytes: Seq<u8>,
    pub err: Option<MdfError>,
}

/// Nesting levels left before the walk stops following references.
pub open spec fn fp_fuel(depth: nat) -> nat {
    if depth >= 10 {
        0
    } else {
        (10 - depth) as nat
    }
}

/// The conversion values, each as its eight little-endian bytes.
pub open spec fn val_bytes(vals: Seq<u64>) -> Seq<u8>
    decreases vals.len(),
{
    if vals.len() == 0 {
        Seq::empty()
    } else {
        val_bytes(vals.drop_last()) + vstd::bytes::spec_u64_to_le_bytes(vals.last())
    }
}

/// The fingerprint of the conversion chain at `addr`: `0xFF` for a null link
/// or past depth 8; nothing for a block that does not fit in the file; `T`
/// and the payload for a text (`##TX`) or metadata (`##MD`) block; `C`, the
/// conversion type, the values' bytes and the fingerprints of the
/// referenced blocks for a conversion (`##CC`) block; nothing otherwise.
/// The address and the block length are taken at the width of `usize`.
pub open spec fn fingerprint(mmap: Seq<u8>, addr: u64, depth: nat) -> FpOut
    decreases fp_fuel(depth), 0nat,
{
    let none = FpOut { bytes: Seq::empty(), err: None };
    let off = (addr as usize) as int;
    if addr == 0 || depth > 8 {
        FpOut { bytes: seq![0xFFu8], err: None }
    } else if off + 24 > mmap.len() {
        none
    } else {
        let total = (le64_at(mmap, off + 8) as usize) as int;
        let id = mmap.subrange(off, off + 4);
        if total < 24 || off + total > mmap.len() {
            none
        } else if id_is(id, 0x23, 0x23, 0x54, 0x58) || id_is(id, 0x23, 0x23, 0x4D, 0x44) {
            FpOut { bytes: seq![0x54u8] + mmap.subrange(off + 24, off + total), err: None }
        } else if id_is(id, 0x23, 0x23, 0x43, 0x43) {
            match spec_conversion(mmap.subrange(off, off + total)) {
                Err(e) => FpOut { bytes: Seq::empty(), err: Some(e) },
                Ok(cc) => {
                    let rest = fingerprint_refs(mmap, cc.cc_ref, depth + 1);
                    FpOut { bytes: seq![0x43u8, cc.cc_type] + val_bytes(cc.cc_val) + rest.bytes, err: rest.err }
                },
            }
        } else {
            none
        }
    }
}

/// The fingerprints of the references in order, stopping at the first error.
pub open spec fn fingerprint_refs(mmap: Seq<u8>, refs: Seq<u64>, depth: nat) -> FpOut
    decreases fp_fuel(depth), refs.len() + 1,
{
    if refs.len() == 0 {
        FpOut { bytes: Seq::empty(), err: None }
    } else {
        let p = fingerprint_refs(mmap, refs.drop_last(), depth);
        if p.err is Some {
            p
        } else {
            let q = fingerprint(mmap, refs.last(), depth);
            FpOut { bytes: p.bytes + q.bytes, err: q.err }
        }
    }
}

proof fn lemma_refs_error_sticks(mmap: Seq<u8>, refs: Seq<u64>, depth: nat, k: int)
    requires
        0 <= k <= refs.len(),
        fingerprint_refs(mmap, refs.take(k), depth).err is Some,
    ensures
        fingerprint_refs(mmap, refs, depth) == fingerprint_refs(mmap, refs.take(k), depth),
    decreases refs.len() - k,
{
    if k < refs.len() {
        let t = refs.drop_last();
        assert(t.take(k) =~= refs.take(k));
        lemma_refs_error_sticks(mmap, t, depth, k);
    } else {
        assert(refs.take(k) =~= refs);
    }
}

proof fn lemma_val_bytes(vals: Seq<u64>)
    ensures
        val_bytes(vals).len() == 8 * vals.len(),
        forall|j: int| 0 <= j < vals.len() ==> val_bytes(vals).subrange(8 * j, 8 * j + 8)
            == vstd::bytes::spec_u64_to_le_bytes(#[trigger] vals[j]),
    decreases vals.len(),
{
    if vals.len() > 0 {
        let t = vals.drop_last();
        lemma_val_bytes(t);
        vstd::bytes::lemma_auto_spec_u64_to_from_le_bytes();
        let whole = val_bytes(vals);
        assert(whole == val_bytes(t) + vstd::bytes::spec_u64_to_le_bytes(vals.last()));
        assert forall|j: int| 0 <= j < vals.len() implies whole.subrange(8 * j, 8 * j + 8)
            == vstd::bytes::spec_u64_to_le_bytes(#[trigger] vals[j]) by {
            if j < t.len() {
                assert(whole.subrange(8 * j, 8 * j + 8) =~= val_bytes(t).subrange(8 * j, 8 * j + 8));
                assert(t[j] == vals[j]);
            } else {
                assert(whole.subrange(8 * j, 8 * j + 8) =~= vstd::bytes::spec_u64_to_le_bytes(vals.last()));
            }
        }
    }
}

proof fn lemma_refs_prefix(mmap: Seq<u8>, refs: Seq<u64>, depth: nat, k: int)
    requires
        0 <= k <= refs.len(),
        fingerprint_refs(mmap, refs, depth).err is None,
    ensures
        fingerprint_refs(mmap, refs.take(k), depth).err is None,
        fingerprint_refs(mmap, refs.take(k), depth).bytes.is_prefix_of(fingerprint_refs(mmap, refs, depth).bytes),
    decreases refs.len() - k,
{
    if k < refs.len() {
        let t = refs.drop_last();
        assert(t.take(k) =~= refs.take(k));
        assert(fingerprint_refs(mmap, t, depth).err is None);
        lemma_refs_prefix(mmap, t, depth, k);
        let a = fingerprint_refs(mmap, refs.take(k), depth).bytes;
        let b = fingerprint_refs(mmap, t, depth).bytes;
        let c = fingerprint_refs(mmap, refs, depth).bytes;
        assert(c == b + fingerprint(mmap, refs.last(), depth).bytes);
        assert forall|i: int| 0 <= i < a.len() implies a[i] == c[i] by {
            assert(a[i] == b[i]);
        }
    } else {
        assert(refs.take(k) =~= refs);
    }
}

/// The fingerprint of a well-formed conversion (`##CC`) block whose walk
/// meets no error starts with `C` and the conversion type, holds the
/// eight little-endian bytes of each value in order, and then holds the
/// fingerprint of every referenced block, one after the other in the order
/// of the references: the `k`-th one starts where those before it end, and
/// the walk ends with the last one.
pub proof fn lemma_cc_fingerprint_layout(mmap: Seq<u8>, addr: u64, depth: nat, cc: ConversionView)
    requires
        addr != 0,
        depth <= 8,
        (addr as usize) as int + 24 <= mmap.len(),
        24 <= (le64_at(mmap, (addr as usize) as int + 8) as usize) as int,
        (addr as usize) as int + (le64_at(mmap, (addr as usize) as int + 8) as usize) as int <= mmap.len(),
        id_is(mmap.subrange((addr as usize) as int, (addr as usize) as int + 4), 0x23, 0x23, 0x43, 0x43),
        spec_conversion(mmap.subrange((addr as usize) as int,
            (addr as usize) as int + (le64_at(mmap, (addr as usize) as int + 8) as usize) as int)) == Ok::<ConversionView, MdfError>(cc),
        fingerprint(mmap, addr, depth).err is None,
    ensures
        ({
            let fp = fingerprint(mmap, addr, depth).bytes;
            let head: int = 2 + 8 * (cc.cc_val.len() as int);
            &&& fp.len() >= head
            &&& fp[0] == 0x43u8
            &&& fp[1] == cc.cc_type
            &&& forall|j: int| 0 <= j < cc.cc_val.len() ==> fp.subrange(2 + 8 * j, 2 + 8 * j + 8)
                == vstd::bytes::spec_u64_to_le_bytes(#[trigger] cc.cc_val[j])
            &&& fingerprint_refs(mmap, cc.cc_ref.take(0), depth + 1).bytes.len() == 0
            &&& forall|k: int| 0 <= k < cc.cc_ref.len() ==> {
                let o: int = head + fingerprint_refs(mmap, cc.cc_ref.take(k), depth + 1).bytes.len();
                let q = fingerprint(mmap, #[trigger] cc.cc_ref[k], depth + 1).bytes;
                &&& q.len() + o <= fp.len()
                &&& fp.subrange(o, o + q.len()) == q
                &&& fingerprint_refs(mmap, cc.cc_ref.take(k + 1), depth + 1).bytes.len()
                    == fingerprint_refs(mmap, cc.cc_ref.take(k), depth + 1).bytes.len() + q.len()
            }
            &&& fp.len() == head + fingerprint_refs(mmap, cc.cc_ref, depth + 1).bytes.len()
        }),
{
    let off = (addr as usize) as int;
    let id = mmap.subrange(off, off + 4);
    assert(!id_is(id, 0x23, 0x23, 0x54, 0x58));
    assert(!id_is(id, 0x23, 0x23, 0x4D, 0x44));
    let rest = fingerprint_refs(mmap, cc.cc_ref, depth + 1);
    let fp = fingerprint(mmap, addr, depth).bytes;
    let vb = val_bytes(cc.cc_val);
    assert(fp == seq![0x43u8, cc.cc_type] + vb + rest.bytes);
    assert(rest.err is None);
    lemma_val_bytes(cc.cc_val);
    let head: int = 2 + 8 * (cc.cc_val.len() as int);
    assert(cc.cc_ref.take(0) =~= Seq::<u64>::empty());
    assert forall|j: int| 0 <= j < cc.cc_val.len() implies fp.subrange(2 + 8 * j, 2 + 8 * j + 8)
        == vstd::bytes::spec_u64_to_le_bytes(#[trigger] cc.cc_val[j]) by {
        assert(fp.subrange(2 + 8 * j, 2 + 8 * j + 8) =~= vb.subrange(8 * j, 8 * j + 8));
    }
    assert forall|k: int| 0 <= k < cc.cc_ref.len() implies {
        let o: int = head + fingerprint_refs(mmap, cc.cc_ref.take(k), depth + 1).bytes.len();
        let q = fingerprint(mmap, #[trigger] cc.cc_ref[k], depth + 1).bytes;
        &&& q.len() + o <= fp.len()
        &&& fp.subrange(o, o + q.len()) == q
        &&& fingerprint_refs(mmap, cc.cc_ref.take(k + 1), depth + 1).bytes.len()
            == fingerprint_refs(mmap, cc.cc_ref.take(k), depth + 1).bytes.len() + q.len()
    } by {
        lemma_refs_prefix(mmap, cc.cc_ref, depth + 1, k);
        lemma_refs_prefix(mmap, cc.cc_ref, depth + 1, k + 1);
        let p = fingerprint_refs(mmap, cc.cc_ref.take(k), depth + 1);
        let pq = fingerprint_refs(mmap, cc.cc_ref.take(k + 1), depth + 1);
        let q = fingerprint(mmap, cc.cc_ref[k], depth + 1).bytes;
        assert(cc.cc_ref.take(k + 1).drop_last() =~= cc.cc_ref.take(k));
        assert(cc.cc_ref.take(k + 1).last() == cc.cc_ref[k]);
        assert(pq.bytes == p.bytes + q);
        let o: int = head + p.bytes.len();
        assert forall|i: int| 0 <= i < q.len() implies fp.subrange(o, o + q.len())[i] == q[i] by {
            assert(pq.bytes[p.bytes.len() + i] == q[i]);
            assert(rest.bytes[p.bytes.len() + i] == pq.bytes[p.bytes.len() + i]);
        }
        assert(fp.subrange(o, o + q.len()) =~= q);
    }
}

/// Build the structural fingerprint of the conversion chain at `addr`
/// (conversion type, value bit patterns and the contents of referenced text
/// blocks, followed recursively), appending it to `out`. Two channels share
/// an equivalent conversion exactly when their fingerprints are equal.
pub fn conv_fingerprint(mmap: &[u8], addr: u64, out: &mut Vec<u8>, depth: usize) -> (r: Result<(), MdfError>)
    ensures
        final(out)@ == old(out)@ + fingerprint(mmap@, addr, depth as nat).bytes,
        r == match fingerprint(mmap@, addr, depth as nat).err {
            None => Ok::<(), MdfError>(()),
            Some(e) => Err::<(), MdfError>(e),
        },
    decreases fp_fuel(depth as nat), 0nat,
{
    let ghost m = mmap@;
    let ghost base = out@;
    if addr == 0 || depth > 8 {
        out.push(0xFF);
        return Ok(());
    }
    let len = mmap.len();
    let offset = addr as usize;
    if len < 24 || offset > len - 24 {
        assert(out@ =~= base + Seq::<u8>::empty());
        return Ok(());
    }
    let header = match BlockHeader::from_bytes(&mmap[offset..offset + 24]) {
        Ok(h) => h,
        Err(e) => {
            return Err(e);
        },
    };
    proof {
        assert(m.subrange(offset as int, offset + 24).subrange(8, 16) =~= m.subrange(offset + 8, offset + 16));
        assert(m.subrange(offset as int, offset + 24).subrange(0, 4) =~= m.subrange(offset as int, offset + 4));
    }
    let total_len = header.block_len as usize;
    if total_len < 24 || total_len > len - offset {
        assert(out@ =~= base + Seq::<u8>::empty());
        return Ok(());
    }
    if header.id_is(0x23, 0x23, 0x54, 0x58) || header.id_is(0x23, 0x23, 0x4D, 0x44) {
        out.push(0x54);
        let end = offset + total_len;
        let mut i: usize = offset + 24;
        while i < end
            invariant
                m == mmap@,
                end == offset + total_len,
                offset + total_len <= m.len(),
                offset + 24 <= i <= offset + total_len,
                out@ == base + seq![0x54u8] + m.subrange(offset + 24, i as int),
            decreases end - i,
        {
            out.push(mmap[i]);
            i = i + 1;
            assert(m.subrange(offset + 24, i as int) =~= m.subrange(offset + 24, i - 1).push(m[i - 1]));
        }
        assert(out@ =~= base + (seq![0x54u8] + m.subrange(offset + 24, offset + total_len)));
        return Ok(());
    }
    if !header.id_is(0x23, 0x23, 0x43, 0x43) {
        assert(out@ =~= base + Seq::<u8>::empty());
        return Ok(());
    }
    let cc = match ConversionBlock::from_bytes(&mmap[offset..offset + total_len]) {
        Ok(c) => c,
        Err(e) => {
            assert(out@ =~= base + Seq::<u8>::empty());
            return Err(e);
        },
    };
    out.push(0x43);
    out.push(cc.cc_type);
    let ghost head0 = out@;
    let nv = cc.cc_val.len();
    let mut k: usize = 0;
    while k < nv
        invariant
            nv == cc.cc_val@.len(),
            0 <= k <= nv,
            out@ == head0 + val_bytes(cc.cc_val@.take(k as int)),
        decreases nv - k,
    {
        let bytes = u64_le_bytes(cc.cc_val[k]);
        proof {
            vstd::bytes::lemma_auto_spec_u64_to_from_le_bytes();
            assert(cc.cc_val@.take(k + 1).drop_last() =~= cc.cc_val@.take(k as int));
        }
        let mut t: usize = 0;
        let ghost before = out@;
        while t < 8
            invariant
                bytes@.len() == 8,
                0 <= t <= 8,
                out@ == before + bytes@.take(t as int),
            decreases 8 - t,
        {
            out.push(bytes[t]);
            t = t + 1;
            assert(bytes@.take(t as int) =~= bytes@.take(t - 1).push(bytes@[t - 1]));
        }
        assert(bytes@.take(8) =~= bytes@);
        k = k + 1;
    }
    assert(cc.cc_val@.take(nv as int) =~= cc.cc_val@);
    let ghost head1 = out@;
    let nr = cc.cc_ref.len();
    let mut i: usize = 0;
    proof {
        assert(cc.cc_ref@.take(0) =~= Seq::<u64>::empty());
        assert(base + fingerprint(m, addr, depth as nat).bytes =~= head1 + fingerprint_refs(m, cc.cc_ref@, (depth + 1) as nat).bytes);
    }
    while i < nr
        invariant
            m == mmap@,
            base == old(out)@,
            base + fingerprint(m, addr, depth as nat).bytes == head1 + fingerprint_refs(m, cc.cc_ref@, (depth + 1) as nat).bytes,
            fingerprint(m, addr, depth as nat).err == fingerprint_refs(m, cc.cc_ref@, (depth + 1) as nat).err,
            depth <= 8,
            nr == cc.cc_ref@.len(),
            0 <= i <= nr,
            out@ == head1 + fingerprint_refs(m, cc.cc_ref@.take(i as int), (depth + 1) as nat).bytes,
            fingerprint_refs(m, cc.cc_ref@.take(i as int), (depth + 1) as nat).err is None,
        decreases nr - i,
    {
        let ghost pre = out@;
        let res = conv_fingerprint(mmap, cc.cc_ref[i], out, depth + 1);
        proof {
            assert(cc.cc_ref@.take(i + 1).drop_last() =~= cc.cc_ref@.take(i as int));
            assert(cc.cc_ref@.take(i + 1).last() == cc.cc_ref@[i as int]);
        }
        match res {
            Ok(()) => {},
            Err(e) => {
                proof {
                    let p = fingerprint_refs(m, cc.cc_ref@.take(i as int), (depth + 1) as nat);
                    let q = fingerprint(m, cc.cc_ref@[i as int], (depth + 1) as nat);
                    let pq = fingerprint_refs(m, cc.cc_ref@.take(i + 1), (depth + 1) as nat);
                    assert(pq.bytes == p.bytes + q.bytes);
                    assert(pq.err == q.err);
                    assert(q.err == Some(e));
                    assert(out@ =~= head1 + pq.bytes);
                    lemma_refs_error_sticks(m, cc.cc_ref@, (depth + 1) as nat, i + 1);
                }
                return Err(e);
            },
        }
        i = i + 1;
    }
    proof {
        assert(cc.cc_ref@.take(nr as int) =~= cc.cc_ref@);
        assert(out@ =~= base + (seq![0x43u8, cc.cc_type] + val_bytes(cc.cc_val@)
            + fingerprint_refs(m, cc.cc_ref@, (depth + 1) as nat).bytes));
    }
    Ok(())
}

// ---------------------------------------------------------------------------
// Variable-length (VLSD) payloads
// ---------------------------------------------------------------------------

/// A value decoded from the payload of a variable-length signal.
#[derive(Debug, PartialEq, Eq)]
pub enum VlsdValue {
    String(String),
    ByteArray(Vec<u8>),
    MimeSample(Vec<u8>),
    MimeStream(Vec<u8>),
}

/// Abstract value of a payload.
pub enum PayloadView {
    Text(Seq<char>),
    ByteArray(Seq<u8>),
    MimeSample(Seq<u8>),
    MimeStream(Seq<u8>),
}

impl View for VlsdValue {
    type V = PayloadView;

    open spec fn view(&self) -> PayloadView {
        match self {
            VlsdValue::String(s) => PayloadView::Text(s@),
            VlsdValue::ByteArray(b) => PayloadView::ByteArray(b@),
            VlsdValue::MimeSample(b) => PayloadView::MimeSample(b@),
            VlsdValue::MimeStream(b) => PayloadView::MimeStream(b@),
        }
    }
}

/// The little-endian UTF-16 code units of `b` (of even length).
pub open spec fn units_le(b: Seq<u8>) -> Seq<u16> {
    Seq::new(b.len() / 2, |i: int| vstd::bytes::spec_u16_from_le_bytes(b.subrange(2 * i, 2 * i + 2)))
}

/// The big-endian UTF-16 code units of `b` (of even length).
pub open spec fn units_be(b: Seq<u8>) -> Seq<u16> {
    Seq::new(b.len() / 2, |i: int| vstd::bytes::spec_u16_from_le_bytes(seq![b[2 * i + 1], b[2 * i]]))
}

/// Text decoded from UTF-16 units, without trailing NULs, or the marker
/// `invalid` when the bytes are not valid UTF-16.
pub open spec fn utf16_text(b: Seq<u8>, units: Seq<u16>, invalid: Seq<char>) -> Seq<char> {
    if b.len() % 2 != 0 {
        invalid
    } else {
        match utf16_decode(units) {
            Some(c) => trim_nuls(c),
            None => invalid,
        }
    }
}

/// The value of a VLSD payload: text without trailing NULs for the string
/// types (a marker text where the encoding is invalid), the bytes themselves
/// for MIME samples and streams, a byte array for anything else.
pub open spec fn vlsd_value(b: Seq<u8>, dt: DataType) -> PayloadView {
    match dt {
        DataType::StringUtf8 => PayloadView::Text(
            if valid_utf8(b) { trim_nuls(decode_utf8(b)) } else { "<Invalid UTF8>"@ },
        ),
        DataType::StringLatin1 => PayloadView::Text(trim_nuls(latin1(b))),
        DataType::StringUtf16LE => PayloadView::Text(utf16_text(b, units_le(b), "<Invalid UTF16LE>"@)),
        DataType::StringUtf16BE => PayloadView::Text(utf16_text(b, units_be(b), "<Invalid UTF16BE>"@)),
        DataType::MimeSample => PayloadView::MimeSample(b),
        DataType::MimeStream => PayloadView::MimeStream(b),
        _ => PayloadView::ByteArray(b),
    }
}

/// Text decoded from a payload never ends in a NUL character. Where the
/// bytes are valid in the encoding of the data type, the text is the
/// decoded characters with their trailing NULs cut off: for UTF-8 the
/// characters the bytes encode, for Latin-1 one character per byte, and for
/// UTF-16 (an even number of bytes) the characters of the little- or
/// big-endian code units.
pub proof fn lemma_vlsd_text_has_no_trailing_nul(b: Seq<u8>, dt: DataType)
    ensures
        vlsd_value(b, dt) matches PayloadView::Text(s) ==> (s.len() == 0 || s.last() != '\0'),
        dt == DataType::StringUtf8 && valid_utf8(b) ==> (vlsd_value(b, dt) matches PayloadView::Text(s)
            && is_nul_trim_of(s, decode_utf8(b))),
        dt == DataType::StringLatin1 ==> (vlsd_value(b, dt) matches PayloadView::Text(s)
            && is_nul_trim_of(s, latin1(b))
            && s.len() <= b.len()
            && forall|i: int| 0 <= i < s.len() ==> s[i] == (b[i] as char)),
        forall|c: Seq<char>| dt == DataType::StringUtf16LE && b.len() % 2 == 0
            && #[trigger] utf16_decode(units_le(b)) == Some(c) ==> (vlsd_value(b, dt) matches PayloadView::Text(s)
            && is_nul_trim_of(s, c)),
        forall|c: Seq<char>| dt == DataType::StringUtf16BE && b.len() % 2 == 0
            && #[trigger] utf16_decode(units_be(b)) == Some(c) ==> (vlsd_value(b, dt) matches PayloadView::Text(s)
            && is_nul_trim_of(s, c)),
{
    reveal_strlit("<Invalid UTF8>");
    reveal_strlit("<Invalid UTF16LE>");
    reveal_strlit("<Invalid UTF16BE>");
    lemma_trim_nuls(decode_utf8(b));
    lemma_trim_nuls(latin1(b));
    if b.len() % 2 == 0 {
        if let Some(c) = utf16_decode(units_le(b)) {
            lemma_trim_nuls(c);
        }
        if let Some(c) = utf16_decode(units_be(b)) {
            lemma_trim_nuls(c);
        }
    }
    if dt == DataType::StringLatin1 {
        let s = trim_nuls(latin1(b));
        assert forall|i: int| 0 <= i < s.len() implies s[i] == (b[i] as char) by {
            assert(s[i] == latin1(b)[i]);
        }
    }
}

fn copy_bytes(bytes: &[u8]) -> (r: Vec<u8>)
    ensures
        r@ == bytes@,
{
    let mut out: Vec<u8> = Vec::with_capacity(bytes.len());
    let mut i: usize = 0;
    while i < bytes.len()
        invariant
            0 <= i <= bytes@.len(),
            out@ == bytes@.take(i as int),
        decreases bytes@.len() - i,
    {
        out.push(bytes[i]);
        i = i + 1;
        assert(out@ =~= bytes@.take(i as int));
    }
    assert(bytes@.take(bytes@.len() as int) =~= bytes@);
    out
}

fn text_value(mut chars: Vec<char>) -> (r: VlsdValue)
    ensures
        r@ == PayloadView::Text(trim_nuls(chars@)),
{
    trim_trailing_nuls(&mut chars);
    VlsdValue::String(string_from_chars(chars.as_slice()))
}

fn utf16_units(bytes: &[u8], big_endian: bool) -> (r: Vec<u16>)
    requires
        bytes@.len() % 2 == 0,
    ensures
        big_endian ==> r@ == units_be(bytes@),
        !big_endian ==> r@ == units_le(bytes@),
{
    let len = bytes.len();
    let n = len / 2;
    let mut out: Vec<u16> = Vec::with_capacity(n);
    let mut i: usize = 0;
    while i < n
        invariant
            len == bytes@.len(),
            n == len / 2,
            bytes@.len() % 2 == 0,
            0 <= i <= n,
            out@.len() == i,
            forall|j: int| 0 <= j < i ==> #[trigger] out@[j] == if big_endian {
                units_be(bytes@)[j]
            } else {
                units_le(bytes@)[j]
            },
        decreases n - i,
    {
        let u = if big_endian { read_u16_be(bytes, 2 * i) } else { read_u16_le(bytes, 2 * i) };
        proof {
            if big_endian {
                assert(u == units_be(bytes@)[i as int]);
            } else {
                assert(bytes@.subrange(2 * i, 2 * i + 2) == bytes@.subrange(2 * (i as int), 2 * (i as int) + 2));
                assert(u == units_le(bytes@)[i as int]);
            }
        }
        out.push(u);
        i = i + 1;
    }
    proof {
        if big_endian {
            assert(out@ =~= units_be(bytes@));
        } else {
            assert(out@ =~= units_le(bytes@));
        }
    }
    out
}

/// Decode the payload of a variable-length signal value according to the
/// channel's data type.
pub fn vlsd_payload_to_value(bytes: &[u8], data_type: &DataType) -> (r: VlsdValue)
    ensures
        r@ == vlsd_value(bytes@, *data_type),
{
    match data_type {
        DataType::StringUtf8 => match utf8_chars(bytes) {
            Some(chars) => text_value(chars),
            None => VlsdValue::String(String::from_str("<Invalid UTF8>")),
        },
        DataType::StringLatin1 => text_value(latin1_chars(bytes)),
        DataType::StringUtf16LE => {
            if bytes.len() % 2 != 0 {
                return VlsdValue::String(String::from_str("<Invalid UTF16LE>"));
            }
            let units = utf16_units(bytes, false);
            match utf16_chars(units.as_slice()) {
                Some(chars) => text_value(chars),
                None => VlsdValue::String(String::from_str("<Invalid UTF16LE>")),
            }
        },
        DataType::StringUtf16BE => {
            if bytes.len() % 2 != 0 {
                return VlsdValue::String(String::from_str("<Invalid UTF16BE>"));
            }
            let units = utf16_units(bytes, true);
            match utf16_chars(units.as_slice()) {
                Some(chars) => text_value(chars),
                None => VlsdValue::String(String::from_str("<Invalid UTF16BE>")),
            }
        },
        DataType::MimeSample => VlsdValue::MimeSample(copy_bytes(bytes)),
        DataType::MimeStream => VlsdValue::MimeStream(copy_bytes(bytes)),
        _ => VlsdValue::ByteArray(copy_bytes(bytes)),
    }
}

} // verus!
