use cogtainer::error::CogtainerError;
use cogtainer::footer::{BlockDescriptor, ContainerFooter};
use cogtainer::header::{ContainerHeader, FileOffset};
use cogtainer::identifier::Identifier;
use cogtainer::overallocation::OverallocationPolicy;

fn meta(v: rmpv::Value) -> Vec<u8> {
    if v.is_nil() {
        return Vec::new();
    }
    let mut out = Vec::new();
    rmpv::encode::write_value(&mut out, &v).unwrap();
    out
}

fn value(b: &[u8]) -> rmpv::Value {
    if b.is_empty() {
        return rmpv::Value::Nil;
    }
    let mut r = b;
    rmpv::decode::read_value(&mut r).unwrap()
}

fn descriptor(f: &ContainerFooter, id: &Identifier) -> BlockDescriptor {
    f.blocks.iter().find(|(k, _)| k == id).map(|(_, d)| d.clone()).unwrap()
}

fn new_mem_file() -> Vec<u8> {
    vec![0u8; 1024 * 1024]
}

fn open_new_container() -> (Vec<u8>, ContainerHeader, ContainerFooter) {
    let mut file = new_mem_file();
    let (header, footer) = ContainerHeader::create(&mut file).expect("create");
    (file, header, footer)
}

#[test]
fn test_create_and_read_header_footer() {
    let (mut file, header, footer) = open_new_container();
    footer.write_to(&mut file, &mut { header.clone() }).expect("write footer");
    let header2 = ContainerHeader::read_from(&file).expect("read header");
    let footer2 = ContainerFooter::read_from(&file, &header2).expect("read footer");
    assert_eq!(header2.version, 1);
    assert!(footer2.blocks.is_empty());
}

#[test]
fn test_insert_single_block_and_read_back() {
    let (mut file, mut header, mut footer) = open_new_container();
    let data = b"hello, world!";
    let id = Identifier::String("test".into());
    let m = rmpv::Value::from("some meta");

    footer.insert_block(&mut file, &mut header, OverallocationPolicy::Exact, &id, meta(m.clone()), data).expect("insert");
    let (block_metadata, bytes) = footer.get_block(&file, &id).expect("read block");
    assert_eq!(&bytes, data);
    assert_eq!(value(&block_metadata), m);
}

#[test]
fn test_block_replacement_reuses_space() {
    let (mut file, mut header, mut footer) = open_new_container();
    let id = Identifier::String("block1".into());
    let data1 = vec![42u8; 32];
    let meta1 = rmpv::Value::from(1);
    footer.insert_block(&mut file, &mut header, OverallocationPolicy::Exact, &id, meta(meta1), &data1).unwrap();
    let data2 = vec![99u8; 32];
    let meta2 = rmpv::Value::from(2);
    footer.insert_block(&mut file, &mut header, OverallocationPolicy::Exact, &id, meta(meta2.clone()), &data2).unwrap();
    assert!(footer.empty_space.is_empty());
    let (block_metadata, read_back) = footer.get_block(&file, &id).unwrap();
    assert_eq!(&read_back, &data2);
    assert_eq!(value(&block_metadata), meta2);
}

#[test]
fn test_block_replacement_creates_hole_and_fills_it() {
    let (mut file, mut header, mut footer) = open_new_container();
    let id1 = Identifier::String("A".into());
    let id2 = Identifier::String("B".into());
    let data_a = vec![1u8; 64];
    let data_b = vec![2u8; 32];

    footer.insert_block(&mut file, &mut header, OverallocationPolicy::Exact, &id1, meta(rmpv::Value::Nil), &data_a).unwrap();
    footer.insert_block(&mut file, &mut header, OverallocationPolicy::Exact, &id2, meta(rmpv::Value::Nil), &data_b).unwrap();
    footer.delete_block(&header, &id1).unwrap();
    assert!(footer.empty_space.iter().any(|&(_, v)| v == 64));
    let id3 = Identifier::String("C".into());
    let data_c = vec![7u8; 60];
    footer.insert_block(&mut file, &mut header, OverallocationPolicy::Exact, &id3, meta(rmpv::Value::Nil), &data_c).unwrap();
    assert!(footer.empty_space.iter().any(|&(_, v)| v == 4));
    let (_block_metadata, read_back) = footer.get_block(&file, &id3).unwrap();
    assert_eq!(&read_back, &data_c);
}

#[test]
fn test_overallocation_policy() {
    let (mut file, mut header, mut footer) = open_new_container();
    let id = Identifier::String("GROW".into());
    let data = vec![0xAB; 16];
    // 0.5 as basis points
    let policy = OverallocationPolicy::PercentageCapped { basis_points: 5000, max_add_bytes: 16 };
    footer.insert_block(&mut file, &mut header, policy, &id, meta(rmpv::Value::Nil), &data).unwrap();
    let desc = descriptor(&footer, &id);
    assert!(desc.allocated_length > data.len() as u64);
    assert!(desc.allocated_length <= data.len() as u64 + 16);
}

#[test]
fn test_zero_length_block() {
    let (mut file, mut header, mut footer) = open_new_container();
    let id = Identifier::String("EMPTY".into());
    footer.insert_block(&mut file, &mut header, OverallocationPolicy::Exact, &id, meta(rmpv::Value::Nil), &[]).unwrap();
    let (_block_metadata, read) = footer.get_block(&file, &id).unwrap();
    assert_eq!(read.len(), 0);
}

#[test]
fn test_metadata_update() {
    let (mut file, mut header, mut footer) = open_new_container();
    let id = Identifier::U64(123);
    footer.insert_block(&mut file, &mut header, OverallocationPolicy::Exact, &id, meta(rmpv::Value::from(1)), b"abc").unwrap();
    footer.update_block_metadata(&mut file, &mut header, &id.clone(), meta(rmpv::Value::from("hello"))).unwrap();
    let m = descriptor(&footer, &id).metadata;
    assert_eq!(value(&m), rmpv::Value::from("hello"));
}

#[test]
fn test_consolidate_empty_space() {
    let (mut file, mut header, mut footer) = open_new_container();
    for i in 0..5 {
        let id = Identifier::U64(i);
        let data = vec![0u8; 8];
        footer.insert_block(&mut file, &mut header, OverallocationPolicy::Exact, &id, meta(rmpv::Value::Nil), &data).unwrap();
    }
    for i in 0..5 {
        let id = Identifier::U64(i);
        footer.delete_block(&header, &id).unwrap();
    }
    assert_eq!(footer.empty_space.len(), 1);
    let &(FileOffset(_start), len) = footer.empty_space.iter().next().unwrap();
    assert_eq!(len, 40);
}

#[test]
fn test_block_checksum_detection() {
    let (mut file, mut header, mut footer) = open_new_container();
    let id = Identifier::String("corrupt".into());
    let data = b"good data";
    footer.insert_block(&mut file, &mut header, OverallocationPolicy::Exact, &id, meta(rmpv::Value::Nil), data).unwrap();
    let block_desc = descriptor(&footer, &id);
    let start = block_desc.file_offset.0 as usize;
    file[start..start + 8].copy_from_slice(b"bad data");
    let result = footer.get_block(&file, &id);
    assert!(matches!(result, Err(CogtainerError::BlockChecksumError(_))));
}

#[test]
fn test_footer_checksum_detection() {
    let (mut file, mut header, mut footer) = open_new_container();
    let id = Identifier::String("footer".into());
    footer.insert_block(&mut file, &mut header, OverallocationPolicy::Exact, &id, meta(rmpv::Value::Nil), b"x").unwrap();
    let start = header.footer_offset.0 as usize;
    let mut bad_footer = file[start..start + header.footer_length as usize].to_vec();
    bad_footer[0] ^= 0xFF;
    file[start..start + bad_footer.len()].copy_from_slice(&bad_footer);
    let result = ContainerFooter::read_from(&file, &header);
    assert!(matches!(result, Err(CogtainerError::FooterChecksumError)));
}

#[test]
fn test_block_path_identifier() {
    let (mut file, mut header, mut footer) = open_new_container();
    let id = Identifier::Path(vec![
        Identifier::String("sheets".to_string()),
        Identifier::U64(0),
        Identifier::String("A1".to_string()),
    ]);
    let data = b"cell data";
    footer.insert_block(&mut file, &mut header, OverallocationPolicy::Exact, &id, meta(rmpv::Value::Nil), data).unwrap();
    let (_block_metadata, read_back) = footer.get_block(&file, &id).unwrap();
    assert_eq!(&read_back, data);
}

#[test]
fn test_multi_block_roundtrip() {
    let (mut file, mut header, mut footer) = open_new_container();
    let data = (0..100).map(|i| (Identifier::U64(i), vec![i as u8; 5])).collect::<Vec<_>>();
    for (id, d) in &data {
        footer.insert_block(&mut file, &mut header, OverallocationPolicy::Exact, id, meta(rmpv::Value::Nil), d).unwrap();
    }
    for (id, d) in &data {
        let (_block_metadata, rb) = footer.get_block(&file, id).unwrap();
        assert_eq!(rb, *d);
    }
}

#[test]
fn test_insert_splits_hole_correctly() {
    let (mut file, mut header, mut footer) = open_new_container();
    let id1 = Identifier::String("block1".into());
    let id2 = Identifier::String("block2".into());
    let data1 = vec![1u8; 100];
    let data2 = vec![2u8; 100];
    footer.insert_block(&mut file, &mut header, OverallocationPolicy::Exact, &id1, meta(rmpv::Value::Nil), &data1).unwrap();
    footer.insert_block(&mut file, &mut header, OverallocationPolicy::Exact, &id2, meta(rmpv::Value::Nil), &data2).unwrap();
    footer.delete_block(&header, &id1).unwrap();
    let orig_hole_offset = footer.empty_space.iter().map(|(k, _)| *k).next().unwrap();
    let id3 = Identifier::String("block3".into());
    let data3 = vec![3u8; 40];
    footer.insert_block(&mut file, &mut header, OverallocationPolicy::Exact, &id3, meta(rmpv::Value::Nil), &data3).unwrap();
    let holes: Vec<_> = footer.empty_space.iter().collect();
    assert!(holes.iter().any(|&&(off, len)| off.0 == orig_hole_offset.0 + 40 && len == 60));
}

#[test]
fn test_delete_nonexistent_block_returns_error() {
    let (_file, header, mut footer) = open_new_container();
    let result = footer.delete_block(&header, &Identifier::String("missing".into()));
    assert!(matches!(result, Err(CogtainerError::BlockNotFound(_))));
}

#[test]
fn test_reserved_fields_nonzero() {
    let (mut file, mut header, _footer) = open_new_container();
    header.reserved = [1, 2, 3, 4];
    header.write_to(&mut file);
    let header2 = ContainerHeader::read_from(&file).unwrap();
    assert_eq!(header2.reserved, [1, 2, 3, 4]);
}

#[test]
fn test_multiple_random_inserts_deletes() {
    let (mut file, mut header, mut footer) = open_new_container();
    for i in 0..20 {
        let id = Identifier::U64(i);
        let data = vec![i as u8; 10];
        footer.insert_block(&mut file, &mut header, OverallocationPolicy::Exact, &id, meta(rmpv::Value::from(i)), &data).unwrap();
        if i % 3 == 0 {
            footer.delete_block(&header, &id).unwrap();
        }
    }
    for i in 0..20 {
        let id = Identifier::U64(i);
        if i % 3 != 0 {
            let (_block_metadata, data) = footer.get_block(&file, &id).unwrap();
            assert_eq!(data, vec![i as u8; 10]);
        }
    }
}
