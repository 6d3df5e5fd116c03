use cogtainer::checksum::{calc_checksum, Checksum};
use cogtainer::compression::BlockCompression;
use cogtainer::container::Cogtainer;
use cogtainer::error::{CogtainerError, HeaderError, IoError};
use cogtainer::footer::BlockDescriptor;
use cogtainer::header::{ContainerHeader, FileOffset, DCCF_MAGIC, HEADER_SIZE};
use cogtainer::identifier::Identifier;
use cogtainer::internal_file::SeekFrom;
use cogtainer::overallocation::OverallocationPolicy;

fn meta(v: rmpv::Value) -> Vec<u8> {
    if v.is_nil() {
        return Vec::new();
    }
    let mut out = Vec::new();
    rmpv::encode::write_value(&mut out, &v).unwrap();
    out
}

fn descriptor(c: &Cogtainer, id: &Identifier) -> BlockDescriptor {
    c.get_blocks_list().iter().find(|(k, _)| k == id).map(|(_, d)| d.clone()).unwrap()
}

fn fresh() -> Cogtainer {
    Cogtainer::create(vec![0u8; 64 * 1024]).unwrap()
}

#[test]
fn scenario_insert_flush_read_and_length() {
    let mut c = Cogtainer::create(Vec::new()).unwrap();
    let id = Identifier::String("k".into());
    c.insert_block(&id, meta(rmpv::Value::from("m")), b"data block").unwrap();
    c.flush().unwrap();
    let (m, d) = c.get_block(&id).unwrap();
    assert_eq!(m, meta(rmpv::Value::from("m")));
    assert_eq!(d, b"data block");
    assert_eq!(c.file_length(), 68 + 10 + c.header.footer_length);
    assert_eq!(c.file.len() as u64, c.file_length());
}

#[test]
fn scenario_hole_is_reused_by_equal_block() {
    let mut c = fresh();
    let a = Identifier::String("A".into());
    let b = Identifier::String("B".into());
    let cc = Identifier::String("C".into());
    c.insert_block(&a, Vec::new(), &[1u8; 32]).unwrap();
    c.insert_block(&b, Vec::new(), &[2u8; 32]).unwrap();
    assert_eq!(descriptor(&c, &a).file_offset, FileOffset(68));
    assert_eq!(descriptor(&c, &b).file_offset, FileOffset(100));
    c.delete_block(&a).unwrap();
    assert_eq!(c.footer.empty_space, vec![(FileOffset(68), 32)]);
    c.insert_block(&cc, Vec::new(), &[3u8; 32]).unwrap();
    assert_eq!(descriptor(&c, &cc).file_offset.0, 68);
    assert!(c.footer.empty_space.is_empty());
}

#[test]
fn scenario_overallocation_tail_is_zero() {
    let mut c = fresh();
    c.get_inner_file().iter_mut().for_each(|b| *b = 0x55);
    c.set_overallocation_policy(OverallocationPolicy::Bytes(8));
    let id = Identifier::U64(5);
    c.insert_block(&id, Vec::new(), &[0xCA; 8]).unwrap();
    let d = descriptor(&c, &id);
    assert_eq!(d.allocated_length, 16);
    let off = d.file_offset.0 as usize;
    assert!(c.file[off + 8..off + 16].iter().all(|&b| b == 0));
}

#[test]
fn scenario_corrupt_payload_is_detected() {
    let mut c = fresh();
    let id = Identifier::U64(9);
    c.insert_block(&id, Vec::new(), &[0x10; 16]).unwrap();
    let off = descriptor(&c, &id).file_offset.0 as usize;
    for b in &mut c.get_inner_file()[off..off + 16] {
        *b = 0x99;
    }
    match c.get_block(&id) {
        Err(CogtainerError::BlockChecksumError(i)) => assert_eq!(i, id),
        other => panic!("unexpected {:?}", other),
    }
}

#[test]
fn scenario_flipped_footer_byte_fails_open() {
    let mut c = fresh();
    c.insert_block(&Identifier::U64(1), Vec::new(), b"x").unwrap();
    let mut file = c.file.clone();
    let fo = c.header.footer_offset.0 as usize;
    file[fo + 3] ^= 0x01;
    assert!(matches!(Cogtainer::open(file), Err(CogtainerError::FooterChecksumError)));
}

#[test]
fn scenario_streaming_in_place_write() {
    let mut c = fresh();
    let id = Identifier::U64(3);
    c.set_overallocation_policy(OverallocationPolicy::Bytes(8));
    c.insert_block(&id, Vec::new(), b"ABCDEFGH").unwrap();
    assert_eq!(descriptor(&c, &id).allocated_length, 16);
    let before = descriptor(&c, &id).file_offset;
    let mut f = c.get_block_as_file(&id);
    assert_eq!(f.seek(SeekFrom::Start(12)).unwrap(), 12);
    assert_eq!(f.write(b"ZZ").unwrap(), 2);
    assert_eq!(f.cursor, 14);
    let c = f.into_inner();
    let d = descriptor(&c, &id);
    assert_eq!(d.used_length, 14);
    assert_eq!(d.file_offset, before);
    assert_eq!(c.get_block(&id).unwrap().1, b"ABCDEFGH\0\0\0\0ZZ");
}

#[test]
fn identifiers_of_different_variants_are_distinct() {
    let mut c = fresh();
    let s = Identifier::String("1".into());
    let n = Identifier::U64(1);
    assert!(!s.equals(&n));
    c.insert_block(&s, Vec::new(), b"string").unwrap();
    c.insert_block(&n, Vec::new(), b"number").unwrap();
    assert_eq!(c.get_blocks_list().len(), 2);
    assert_eq!(c.get_block(&s).unwrap().1, b"string");
    assert_eq!(c.get_block(&n).unwrap().1, b"number");
    let p = Identifier::Path(vec![Identifier::U64(1)]);
    assert!(matches!(c.get_block(&p), Err(CogtainerError::BlockNotFound(_))));
}

#[test]
fn identifier_equality_and_copy() {
    let a = Identifier::Path(vec![Identifier::String("x".into()), Identifier::Bytes(vec![1, 2])]);
    let b = Identifier::Path(vec![Identifier::String("x".into()), Identifier::Bytes(vec![1, 2])]);
    let c = Identifier::Path(vec![Identifier::String("x".into()), Identifier::Bytes(vec![1, 3])]);
    assert!(a.equals(&b));
    assert!(!a.equals(&c));
    assert_eq!(a.duplicate(), a);
    assert_eq!(a.clone(), b);
}

#[test]
fn reopen_answers_every_read_alike() {
    let mut c = fresh();
    let ids = vec![
        Identifier::String("s".into()),
        Identifier::U64(7),
        Identifier::Bytes(vec![0, 255]),
        Identifier::Path(vec![Identifier::String("sheets".into()), Identifier::U64(0)]),
        Identifier::Path(vec![]),
    ];
    for (i, id) in ids.iter().enumerate() {
        c.insert_block(id, meta(rmpv::Value::from(i as u64)), &vec![i as u8; i * 3]).unwrap();
    }
    c.delete_block(&ids[1]).unwrap();
    c.set_metadata(meta(rmpv::Value::from("container"))).unwrap();
    let c2 = Cogtainer::open(c.file.clone()).unwrap();
    for id in &ids {
        assert_eq!(format!("{:?}", c.get_block(id)), format!("{:?}", c2.get_block(id)));
    }
    assert_eq!(c2.get_container_metadata(), c.get_container_metadata());
    assert_eq!(c2.footer.empty_space, c.footer.empty_space);
    assert_eq!(c2.header.footer_offset, c.header.footer_offset);
}

#[test]
fn defragment_packs_blocks_and_keeps_content() {
    let mut c = fresh();
    c.set_overallocation_policy(OverallocationPolicy::Bytes(5));
    for i in 0..8u64 {
        c.insert_block(&Identifier::U64(i), meta(rmpv::Value::from(i)), &vec![i as u8; 10 + i as usize]).unwrap();
    }
    for i in [0u64, 3, 4, 7] {
        c.delete_block(&Identifier::U64(i)).unwrap();
    }
    let before: Vec<_> = (0..8u64).map(|i| format!("{:?}", c.get_block(&Identifier::U64(i)))).collect();
    c.defragment().unwrap();
    let after: Vec<_> = (0..8u64).map(|i| format!("{:?}", c.get_block(&Identifier::U64(i)))).collect();
    assert_eq!(before, after);
    assert!(c.footer.empty_space.is_empty());
    let total: u64 = c.get_blocks_list().iter().map(|(_, d)| d.allocated_length).sum();
    assert_eq!(c.header.footer_offset.0, HEADER_SIZE as u64 + total);
    for (_, d) in c.get_blocks_list() {
        assert_eq!(d.allocated_length, d.used_length);
    }
}

#[test]
fn defragment_then_truncate_cuts_the_store() {
    let mut c = fresh();
    c.insert_block(&Identifier::U64(1), Vec::new(), &[1; 40]).unwrap();
    c.insert_block(&Identifier::U64(2), Vec::new(), &[2; 40]).unwrap();
    c.delete_block(&Identifier::U64(1)).unwrap();
    c.defragment_then_truncate().unwrap();
    assert_eq!(c.file.len() as u64, c.file_length());
    assert_eq!(c.file_length(), 68 + 40 + c.header.footer_length);
    let c2 = Cogtainer::open(c.file.clone()).unwrap();
    assert_eq!(c2.get_block(&Identifier::U64(2)).unwrap().1, vec![2; 40]);
}

#[test]
fn overallocation_formulas() {
    assert_eq!(OverallocationPolicy::Exact.calculate(100), 100);
    assert_eq!(OverallocationPolicy::Bytes(8).calculate(100), 108);
    assert_eq!(OverallocationPolicy::Bytes(u64::MAX).calculate(1), u64::MAX);
    assert_eq!(OverallocationPolicy::Percentage(2500).calculate(100), 125);
    assert_eq!(OverallocationPolicy::Percentage(2500).calculate(3), 3);
    assert_eq!(OverallocationPolicy::Percentage(20000).calculate(u64::MAX / 2), u64::MAX);
    let capped = OverallocationPolicy::PercentageCapped { basis_points: 5000, max_add_bytes: 16 };
    assert_eq!(capped.calculate(100), 116);
    assert_eq!(capped.calculate(10), 15);
    assert_eq!(OverallocationPolicy::default(), OverallocationPolicy::Exact);
}

#[test]
fn checksum_is_seeded_xxhash64() {
    assert_eq!(calc_checksum(b"abc"), Checksum(twox_hash::XxHash64::oneshot(4321, b"abc")));
    assert_ne!(calc_checksum(b"abc"), calc_checksum(b"abd"));
    assert_ne!(calc_checksum(b""), Checksum(0));
}

#[test]
fn header_round_trips_and_keeps_reserved_words() {
    let h = ContainerHeader {
        magic_number: DCCF_MAGIC,
        version: 1,
        footer_offset: FileOffset(1000),
        footer_length: 77,
        footer_checksum: Checksum(0x0102030405060708),
        reserved: [9, 8, 7, u64::MAX],
    };
    let b = h.to_bytes();
    assert_eq!(b.len(), 68);
    assert_eq!(&b[0..4], b"DCCF");
    assert_eq!(&b[12..20], &1000u64.to_le_bytes());
    let h2 = ContainerHeader::read_from(&b).unwrap();
    assert_eq!(h2.footer_offset, FileOffset(1000));
    assert_eq!(h2.footer_length, 77);
    assert_eq!(h2.footer_checksum, Checksum(0x0102030405060708));
    assert_eq!(h2.reserved, [9, 8, 7, u64::MAX]);
    assert_eq!(h2.file_length(), 1077);
    assert_eq!(FileOffset(10).end_offset(5), FileOffset(15));
}

#[test]
fn open_rejects_bad_headers() {
    assert!(matches!(Cogtainer::open(vec![0u8; 10]), Err(CogtainerError::IOError(IoError::UnexpectedEof))));
    assert!(matches!(Cogtainer::open(vec![0u8; 200]), Err(CogtainerError::InvalidHeader(HeaderError::Magic))));
    let c = fresh();
    let mut v = c.file.clone();
    v[4] = 2;
    assert!(matches!(Cogtainer::open(v), Err(CogtainerError::InvalidHeader(HeaderError::Version))));
    let mut h = c.header;
    h.footer_offset = FileOffset(10);
    let mut v = c.file.clone();
    v[..68].copy_from_slice(&h.to_bytes());
    assert!(matches!(Cogtainer::open(v), Err(CogtainerError::InvalidHeader(HeaderError::FooterOffset))));
    let mut h = c.header;
    h.footer_length = 1 << 40;
    let mut v = c.file.clone();
    v[..68].copy_from_slice(&h.to_bytes());
    assert!(matches!(Cogtainer::open(v), Err(CogtainerError::IOError(IoError::UnexpectedEof))));
}

#[test]
fn open_rejects_footer_that_does_not_decode() {
    let body = [1u8, 2, 3];
    let h = ContainerHeader {
        magic_number: DCCF_MAGIC,
        version: 1,
        footer_offset: FileOffset(68),
        footer_length: 3,
        footer_checksum: calc_checksum(&body),
        reserved: [0; 4],
    };
    let mut v = h.to_bytes();
    v.extend_from_slice(&body);
    assert!(matches!(Cogtainer::open(v), Err(CogtainerError::Deserialize)));
}

#[test]
fn empty_container_reopens_empty() {
    let c = Cogtainer::create(Vec::new()).unwrap();
    assert_eq!(c.header.footer_offset.0, 68);
    let c2 = Cogtainer::open(c.file.clone()).unwrap();
    assert!(c2.get_blocks_list().is_empty());
    assert!(c2.get_container_metadata().is_empty());
}

#[test]
fn delete_missing_block_fails() {
    let mut c = fresh();
    assert!(matches!(c.delete_block(&Identifier::U64(3)), Err(CogtainerError::BlockNotFound(_))));
}

#[test]
fn read_slice_reads_part_without_checksum() {
    let mut c = fresh();
    let id = Identifier::U64(1);
    c.insert_block(&id, Vec::new(), b"0123456789").unwrap();
    let mut buf = [0u8; 4];
    assert_eq!(c.read_slice(&id, 3, &mut buf).unwrap(), 4);
    assert_eq!(&buf, b"3456");
    assert_eq!(c.read_slice(&id, 8, &mut buf).unwrap(), 2);
    assert_eq!(&buf[..2], b"89");
    assert_eq!(c.read_slice(&id, 10, &mut buf).unwrap(), 0);
}

#[test]
fn partial_write_through_footer_pads_with_zeros() {
    let mut c = fresh();
    let id = Identifier::U64(4);
    c.insert_block(&id, meta(rmpv::Value::from(5)), b"abc").unwrap();
    let policy = c.overallocation_policy;
    let n = c.footer.insert_block_at(&mut c.file, &mut c.header, policy, &id, 6, b"xy").unwrap();
    assert_eq!(n, 2);
    let (m, d) = c.get_block(&id).unwrap();
    assert_eq!(m, meta(rmpv::Value::from(5)));
    assert_eq!(d, b"abc\0\0\0xy");
}

#[test]
fn grow_block_reserves_room_and_keeps_payload() {
    let mut c = fresh();
    let id = Identifier::U64(4);
    c.insert_block(&id, Vec::new(), b"abc").unwrap();
    let a = c.footer.grow_block(&mut c.file, &mut c.header, OverallocationPolicy::Bytes(10), &id, 20).unwrap();
    assert_eq!(a, 30);
    assert_eq!(descriptor(&c, &id).allocated_length, 30);
    assert_eq!(c.get_block(&id).unwrap().1, b"abc");
    let again = c.footer.grow_block(&mut c.file, &mut c.header, OverallocationPolicy::Exact, &id, 5).unwrap();
    assert_eq!(again, 30);
}

#[test]
fn metadata_update_of_missing_block_adds_it_empty() {
    let mut c = fresh();
    let id = Identifier::String("only meta".into());
    c.footer.update_block_metadata(&mut c.file, &mut c.header, &id, meta(rmpv::Value::from(3))).unwrap();
    let (m, d) = c.get_block(&id).unwrap();
    assert_eq!(m, meta(rmpv::Value::from(3)));
    assert!(d.is_empty());
    assert_eq!(c.footer.get_block_metadata(&id).unwrap(), &meta(rmpv::Value::from(3)));
}

#[test]
fn seek_from_end_of_missing_block_fails() {
    let c = fresh();
    let mut f = c.get_block_as_file(&Identifier::U64(1));
    assert!(matches!(f.seek(SeekFrom::End(0)), Err(CogtainerError::BlockNotFound(_))));
    assert_eq!(f.cursor, 0);
}

#[test]
fn gzip_round_trips_and_changes_the_bytes() {
    let data = b"The quick brown fox jumps over the lazy dog. ".repeat(8);
    for level in 0..=10 {
        let z = BlockCompression::Gzip(level).compress(data.clone()).unwrap();
        assert_ne!(z, data);
        assert_eq!(&z[..2], &[0x1f, 0x8b]);
        assert_eq!(BlockCompression::Gzip(level).decompress(z).unwrap(), data);
    }
    assert_eq!(BlockCompression::Uncompressed.compress(data.clone()).unwrap(), data);
    assert_eq!(BlockCompression::Uncompressed.decompress(data.clone()).unwrap(), data);
    assert!(matches!(
        BlockCompression::Gzip(6).decompress(b"hello hello hello".to_vec()),
        Err(CogtainerError::IOError(IoError::InvalidData))
    ));
}

#[test]
fn reopen_of_flushed_container_reads_alike_after_defragment() {
    let mut c = fresh();
    for i in 0..6u64 {
        c.insert_block(&Identifier::U64(i), meta(rmpv::Value::from(i)), &vec![i as u8; 7 + i as usize]).unwrap();
    }
    c.delete_block(&Identifier::U64(2)).unwrap();
    c.defragment().unwrap();
    c.flush().unwrap();
    let c2 = Cogtainer::open(c.file.clone()).unwrap();
    for i in 0..6u64 {
        let id = Identifier::U64(i);
        assert_eq!(format!("{:?}", c.get_block(&id)), format!("{:?}", c2.get_block(&id)));
    }
    assert!(c2.footer.empty_space.is_empty());
}

#[test]
fn replacing_a_block_frees_and_reuses_its_extent() {
    let mut c = fresh();
    let id = Identifier::String("block1".into());
    c.insert_block(&id, Vec::new(), &[42u8; 32]).unwrap();
    let before = descriptor(&c, &id).file_offset;
    c.insert_block(&id, Vec::new(), &[99u8; 32]).unwrap();
    assert_eq!(descriptor(&c, &id).file_offset, before);
    assert!(c.footer.empty_space.is_empty());
}
