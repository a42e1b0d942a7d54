use mf4_rs::error::{MdfError, SinkError};
use mf4_rs::writer::mdf_writer::{MdfWriter, WriterTarget};
use mf4_rs::writer::sink::{InMemorySink, MmapWriter, SeekFrom};

fn finished_bytes(w: MdfWriter) -> Vec<u8> {
    match w.finalize().unwrap() {
        WriterTarget::Memory(s) => s.to_vec(),
        WriterTarget::File { sink, .. } => sink.to_vec(),
        WriterTarget::Mapped { map, .. } => map.to_vec(),
    }
}

#[test]
fn write_block_aligns_and_pads() {
    let mut w = MdfWriter::new_from_writer(InMemorySink::new());
    assert_eq!(w.write_block(&[1, 2, 3]).unwrap(), 0);
    assert_eq!(w.offset(), 3);
    assert_eq!(w.write_block(&[9; 4]).unwrap(), 8);
    assert_eq!(w.offset(), 12);
    let bytes = finished_bytes(w);
    assert_eq!(bytes, vec![1, 2, 3, 0, 0, 0, 0, 0, 9, 9, 9, 9]);
}

#[test]
fn block_ids_and_link_updates() {
    let mut w = MdfWriter::new_from_writer(InMemorySink::new());
    w.write_block_with_id(&[0; 16], "hd").unwrap();
    let pos = w.write_block_with_id(&[0; 8], "dg").unwrap();
    assert_eq!(pos, 16);
    assert_eq!(w.get_block_position("dg"), Some(16));
    assert_eq!(w.get_block_position("cg"), None);
    w.update_block_link("hd", 8, "dg").unwrap();
    assert!(matches!(w.update_block_link("xx", 0, "dg"), Err(MdfError::SourceBlockNotFound(s)) if s == "xx"));
    assert!(matches!(w.update_block_link("hd", 0, "yy"), Err(MdfError::TargetBlockNotFound(s)) if s == "yy"));
    w.update_block_u32("dg", 0, 0x0403_0201).unwrap();
    w.update_block_u8("dg", 7, 0xAA).unwrap();
    assert!(matches!(w.update_block_u64("zz", 0, 1), Err(MdfError::BlockNotFound(_))));
    // Writing continues where it left off after the patches.
    assert_eq!(w.write_block(&[5]).unwrap(), 24);
    let bytes = finished_bytes(w);
    assert_eq!(&bytes[8..16], &16u64.to_le_bytes());
    assert_eq!(&bytes[16..24], &[1, 2, 3, 4, 0, 0, 0, 0xAA]);
    assert_eq!(bytes[24], 5);
}

#[test]
fn update_link_writes_little_endian_address() {
    let mut w = MdfWriter::new_from_writer(InMemorySink::new());
    w.write_block(&[0; 24]).unwrap();
    w.update_link(4, 0x1122_3344_5566_7788).unwrap();
    assert_eq!(w.offset(), 24);
    let bytes = finished_bytes(w);
    assert_eq!(&bytes[4..12], &[0x88, 0x77, 0x66, 0x55, 0x44, 0x33, 0x22, 0x11]);
}

#[test]
fn mapped_writer_rejects_overflow() {
    let mut w = MdfWriter::new_mmap("out.mf4", vec![0xEE; 10]).unwrap();
    assert_eq!(w.write_block(&[1, 2, 3]).unwrap(), 0);
    // Padding fits (to 8) but the block does not.
    assert_eq!(w.write_block(&[4, 4, 4]), Err(MdfError::Io(SinkError::WriteOverflow)));
    assert_eq!(w.offset(), 8);
    assert_eq!(w.update_link(100, 1), Err(MdfError::Io(SinkError::InvalidSeek)));
    let bytes = finished_bytes(w);
    assert_eq!(bytes, vec![1, 2, 3, 0, 0, 0, 0, 0, 0xEE, 0xEE]);
}

#[test]
fn file_writer_records_destination() {
    let w = MdfWriter::new("a.mf4").unwrap();
    match w.finalize().unwrap() {
        WriterTarget::File { path, capacity, sink } => {
            assert_eq!(path, "a.mf4");
            assert_eq!(capacity, 1_048_576);
            assert!(sink.to_vec().is_empty());
        }
        _ => panic!("expected a file target"),
    }
    let w2 = MdfWriter::new_with_capacity("b.mf4", 4096).unwrap();
    assert!(matches!(w2.finalize().unwrap(), WriterTarget::File { capacity: 4096, .. }));
}

#[test]
fn in_memory_sink_behaves_like_a_cursor() {
    let mut s = InMemorySink::new();
    assert_eq!(s.write(&[1, 2]).unwrap(), 2);
    assert_eq!(s.seek(SeekFrom::Start(5)).unwrap(), 5);
    s.write_all(&[]).unwrap();
    assert_eq!(s.to_vec(), vec![1, 2]);
    s.write_all(&[7]).unwrap();
    assert_eq!(s.to_vec(), vec![1, 2, 0, 0, 0, 7]);
    assert_eq!(s.seek(SeekFrom::End(-6)).unwrap(), 0);
    assert_eq!(s.seek(SeekFrom::Current(-1)), Err(MdfError::Io(SinkError::InvalidSeek)));
    s.write(&[9]).unwrap();
    s.flush().unwrap();
    assert_eq!(s.to_vec(), vec![9, 2, 0, 0, 0, 7]);
}

#[test]
fn mmap_sink_is_fixed_size() {
    let mut m = MmapWriter::new(vec![0; 4]);
    assert_eq!(m.write(&[1, 2, 3]).unwrap(), 3);
    assert_eq!(m.write(&[4, 5]), Err(MdfError::Io(SinkError::WriteOverflow)));
    assert_eq!(m.seek(SeekFrom::Start(5)), Err(MdfError::Io(SinkError::InvalidSeek)));
    assert_eq!(m.seek(SeekFrom::End(-1)).unwrap(), 3);
    m.write_all(&[8]).unwrap();
    assert_eq!(m.to_vec(), vec![1, 2, 3, 8]);
}

#[test]
fn latest_position_wins_and_offset_tracks_length() {
    let mut w = MdfWriter::new_from_writer(InMemorySink::new());
    assert_eq!(w.write_block_with_id(&[1; 5], "cg").unwrap(), 0);
    w.write_block(&[2; 3]).unwrap();
    assert_eq!(w.write_block_with_id(&[3; 4], "cg").unwrap(), 16);
    w.update_block_u32("cg", 0, 7).unwrap();
    w.update_link(0, 9).unwrap();
    assert_eq!(w.get_block_position("cg"), Some(16));
    let off = w.offset();
    assert_eq!(off, 20);
    assert_eq!(finished_bytes(w).len() as u64, off);
}

#[test]
fn block_link_with_unknown_target_leaves_writer_unchanged() {
    let mut w = MdfWriter::new_from_writer(InMemorySink::new());
    w.write_block_with_id(&[0; 8], "src").unwrap();
    assert!(matches!(w.update_block_link("src", u64::MAX - 4, "none"), Err(MdfError::TargetBlockNotFound(_))));
    assert_eq!(w.offset(), 8);
    assert_eq!(finished_bytes(w), vec![0; 8]);
}
