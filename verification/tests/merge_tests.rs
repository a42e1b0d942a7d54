use mf4_rs::blocks::{BlockHeader, ConversionBlock};
use mf4_rs::error::MdfError;
use mf4_rs::merge::{conv_fingerprint, merge_group_lists, record_count, ChannelMeta, GroupMeta, MergedGroup};
use mf4_rs::signal_ranges::{signal_ranges, DataBlockInfo};
use mf4_rs::types::{is_string_type, same_data_type, DataType};

fn channel(name: &str, dt: DataType, byte_offset: u32) -> ChannelMeta {
    ChannelMeta {
        name: Some(name.to_string()),
        data_type: dt,
        bit_offset: 0,
        byte_offset,
        bit_count: 32,
        channel_type: 0,
        sync_type: 0,
        is_vlsd: false,
        conv_fingerprint: vec![0xFF],
        unit: None,
        conversion_addr: 0,
        unit_addr: 0,
        comment_addr: 0,
        source_addr: 0,
    }
}

fn group(chs: Vec<ChannelMeta>, data: Vec<Vec<u64>>, src: usize) -> MergedGroup<u64> {
    MergedGroup { meta: GroupMeta { record_id_len: 0, channels: chs }, data, src_file: src }
}

#[test]
fn channel_and_group_matching() {
    let a = channel("Val", DataType::UnsignedIntegerLE, 0);
    let mut b = channel("Val", DataType::UnsignedIntegerLE, 0);
    b.source_addr = 1234;
    assert!(a.matches(&b));
    let c = channel("Val", DataType::SignedIntegerLE, 0);
    assert!(!a.matches(&c));
    let mut d = channel("Val", DataType::UnsignedIntegerLE, 0);
    d.unit = Some("m".to_string());
    assert!(!a.matches(&d));
    let g1 = GroupMeta { record_id_len: 0, channels: vec![channel("Val", DataType::UnsignedIntegerLE, 0)] };
    let g2 = GroupMeta { record_id_len: 0, channels: vec![channel("Val", DataType::UnsignedIntegerLE, 0)] };
    let g3 = GroupMeta { record_id_len: 1, channels: vec![channel("Val", DataType::UnsignedIntegerLE, 0)] };
    assert!(g1.matches(&g2));
    assert!(!g1.matches(&g3));
}

#[test]
fn matching_groups_are_concatenated() {
    let first = vec![group(vec![channel("Val", DataType::UnsignedIntegerLE, 0)], vec![vec![0, 1, 2]], 0)];
    let second = vec![group(vec![channel("Val", DataType::UnsignedIntegerLE, 0)], vec![vec![10, 11, 12]], 1)];
    let merged = merge_group_lists(first, second);
    assert_eq!(merged.len(), 1);
    assert_eq!(merged[0].data, vec![vec![0, 1, 2, 10, 11, 12]]);
    assert_eq!(merged[0].src_file, 0);
}

#[test]
fn non_matching_groups_are_appended() {
    let first = vec![group(vec![channel("A", DataType::FloatLE, 0)], vec![vec![1]], 0)];
    let second = vec![
        group(vec![channel("B", DataType::FloatLE, 0)], vec![vec![2]], 1),
        group(vec![channel("B", DataType::FloatLE, 0)], vec![vec![3]], 1),
    ];
    let merged = merge_group_lists(first, second);
    assert_eq!(merged.len(), 2);
    assert_eq!(merged[0].data, vec![vec![1]]);
    // The second "B" group joins the first "B" group, which came from the same file.
    assert_eq!(merged[1].data, vec![vec![2, 3]]);
    assert_eq!(merged[1].src_file, 1);
}

#[test]
fn record_count_checks_channel_lengths() {
    assert_eq!(record_count::<u64>(&vec![]), Ok(0));
    assert_eq!(record_count(&vec![vec![1u64, 2, 3], vec![4, 5, 6, 7]]), Ok(3));
    assert_eq!(
        record_count(&vec![vec![1u64, 2, 3], vec![4, 5], vec![6], vec![7]]),
        Err(MdfError::ChannelLengthMismatch { channel: 2, values: 1, records: 3 })
    );
}

#[test]
fn data_type_helpers() {
    assert!(is_string_type(&DataType::StringUtf8));
    assert!(is_string_type(&DataType::StringUtf16BE));
    assert!(!is_string_type(&DataType::ByteArray));
    assert!(same_data_type(&DataType::Unknown(()), &DataType::Unknown(())));
    assert!(!same_data_type(&DataType::FloatLE, &DataType::FloatBE));
}

#[test]
fn signal_ranges_strip_headers_and_merge() {
    let data = vec![
        DataBlockInfo { file_offset: 100, size: 124, is_compressed: false },
        DataBlockInfo { file_offset: 224, size: 50, is_compressed: false },
    ];
    let vlsd = vec![DataBlockInfo { file_offset: 1000, size: 40, is_compressed: false }];
    assert_eq!(signal_ranges(&data, &vlsd).unwrap(), vec![(124, 100), (248, 26), (1024, 16)]);
    let touching = vec![DataBlockInfo { file_offset: 0, size: 48, is_compressed: false }, DataBlockInfo {
        file_offset: 24,
        size: 48,
        is_compressed: false,
    }];
    assert_eq!(signal_ranges(&touching, &vec![]).unwrap(), vec![(24, 48)]);
}

#[test]
fn signal_ranges_errors() {
    let compressed = vec![DataBlockInfo { file_offset: 0, size: 100, is_compressed: true }];
    assert_eq!(signal_ranges(&compressed, &vec![]), Err(MdfError::CompressedBlockUnsupported));
    let tiny = vec![DataBlockInfo { file_offset: 64, size: 10, is_compressed: false }];
    assert_eq!(signal_ranges(&vec![], &tiny), Err(MdfError::DataBlockTooSmall { file_offset: 64, size: 10 }));
}

fn header(id: &[u8; 4], len: u64, links: u64) -> Vec<u8> {
    let mut v = id.to_vec();
    v.extend_from_slice(&[0; 4]);
    v.extend_from_slice(&len.to_le_bytes());
    v.extend_from_slice(&links.to_le_bytes());
    v
}

#[test]
fn block_header_parse() {
    let h = BlockHeader::from_bytes(&header(b"##TX", 32, 0)).unwrap();
    assert_eq!(h.id, b"##TX".to_vec());
    assert_eq!(h.block_len, 32);
    assert_eq!(h.links_nr, 0);
    assert!(matches!(BlockHeader::from_bytes(&[0; 10]), Err(MdfError::TooShortBuffer { actual: 10, expected: 24 })));
}

/// A file with a text block at 8 and a conversion block at 40 that
/// references it and carries two values.
fn file_with_conversion() -> Vec<u8> {
    let mut f = vec![0u8; 8];
    let mut tx = header(b"##TX", 32, 0);
    tx.extend_from_slice(b"km/h\0\0\0\0");
    f.extend_from_slice(&tx); // 8..40
    let links = 5u64;
    let mut cc = header(b"##CC", 24 + 8 * links + 24 + 16, links);
    for l in [0u64, 0, 0, 0, 8] {
        cc.extend_from_slice(&l.to_le_bytes());
    }
    cc.push(1); // cc_type
    cc.push(0);
    cc.extend_from_slice(&0u16.to_le_bytes());
    cc.extend_from_slice(&1u16.to_le_bytes());
    cc.extend_from_slice(&2u16.to_le_bytes());
    cc.extend_from_slice(&[0; 16]);
    cc.extend_from_slice(&1.5f64.to_bits().to_le_bytes());
    cc.extend_from_slice(&2.0f64.to_bits().to_le_bytes());
    f.extend_from_slice(&cc); // 40..
    f
}

#[test]
fn conversion_block_parse() {
    let f = file_with_conversion();
    let cc = ConversionBlock::from_bytes(&f[40..]).unwrap();
    assert_eq!(cc.cc_type, 1);
    assert_eq!(cc.cc_ref, vec![8]);
    assert_eq!(cc.cc_val, vec![1.5f64.to_bits(), 2.0f64.to_bits()]);
    assert!(matches!(ConversionBlock::from_bytes(&f[40..80]), Err(MdfError::MalformedBlock)));
}

#[test]
fn fingerprint_of_conversion_chain() {
    let f = file_with_conversion();
    let mut out = Vec::new();
    conv_fingerprint(&f, 40, &mut out, 0).unwrap();
    let mut want = vec![b'C', 1];
    want.extend_from_slice(&1.5f64.to_bits().to_le_bytes());
    want.extend_from_slice(&2.0f64.to_bits().to_le_bytes());
    want.push(b'T');
    want.extend_from_slice(b"km/h\0\0\0\0");
    assert_eq!(out, want);

    let mut null = vec![7];
    conv_fingerprint(&f, 0, &mut null, 0).unwrap();
    assert_eq!(null, vec![7, 0xFF]);
    let mut deep = Vec::new();
    conv_fingerprint(&f, 8, &mut deep, 9).unwrap();
    assert_eq!(deep, vec![0xFF]);
    let mut outside = Vec::new();
    conv_fingerprint(&f, 10_000, &mut outside, 0).unwrap();
    assert!(outside.is_empty());
}
