use cogtainer::container::Cogtainer;
use cogtainer::error::{CogtainerError, IoError};
use cogtainer::footer::ContainerFooter;
use cogtainer::header::ContainerHeader;
use cogtainer::identifier::Identifier;
use cogtainer::internal_file::SeekFrom;
use cogtainer::overallocation::OverallocationPolicy;

fn meta(v: rmpv::Value) -> Vec<u8> {
    if v.is_nil() {
        return Vec::new();
    }
    let mut out = Vec::new();
    rmpv::encode::write_value(&mut out, &v).unwrap();
    out
}

fn value(b: &[u8]) -> rmpv::Value {
    if b.is_empty() {
        return rmpv::Value::Nil;
    }
    let mut r = b;
    rmpv::decode::read_value(&mut r).unwrap()
}

fn new_mem_file() -> Vec<u8> {
    vec![0u8; 1024 * 1024]
}

fn open_container() -> Cogtainer {
    let mut file = new_mem_file();
    let (header, footer): (ContainerHeader, ContainerFooter) = ContainerHeader::create(&mut file).unwrap();
    Cogtainer { file, header, footer, overallocation_policy: OverallocationPolicy::default() }
}

fn used_length(c: &Cogtainer, id: &Identifier) -> u64 {
    c.get_blocks_list().iter().find(|(k, _)| k == id).map(|(_, d)| d.used_length).unwrap()
}

#[test]
fn internal_file_read_on_missing_block_errors_then_write_creates() {
    let c = open_container();
    let id = Identifier::String("nf".into());

    let mut f = c.get_block_as_file(&id);

    let mut buf = [0u8; 4];
    let err = f.read(&mut buf).unwrap_err();
    assert!(matches!(err, CogtainerError::BlockNotFound(_)) || matches!(err, CogtainerError::IOError(IoError::InvalidInput)));

    let wrote = f.write(b"hello").unwrap();
    assert_eq!(wrote, 5);

    let n = f.read(&mut buf).unwrap();
    assert_eq!(n, 0);

    let c = f.into_inner();
    let (_m, data) = c.get_block(&id).unwrap();
    assert_eq!(data, b"hello");
}

#[test]
fn internal_file_seek_semantics_start_end_current() {
    let mut c = open_container();
    let id = Identifier::U64(1);
    c.insert_block(&id, meta(rmpv::Value::Nil), b"abcdefghij").unwrap();
    c.flush().unwrap();

    let mut f = c.get_block_as_file(&id);

    assert_eq!(f.seek(SeekFrom::Start(5)).unwrap(), 5);
    let mut buf = [0u8; 10];
    let n = f.read(&mut buf).unwrap();
    assert_eq!(n, 5);
    assert_eq!(&buf[..n], b"fghij");

    assert_eq!(f.seek(SeekFrom::End(0)).unwrap(), 10);
    assert_eq!(f.read(&mut buf).unwrap(), 0);

    assert_eq!(f.seek(SeekFrom::End(-3)).unwrap(), 7);
    let mut three = [0u8; 3];
    assert_eq!(f.read(&mut three).unwrap(), 3);
    assert_eq!(&three, b"hij");

    assert_eq!(f.seek(SeekFrom::Start(2)).unwrap(), 2);
    let err = f.seek(SeekFrom::Current(-5)).unwrap_err();
    assert!(matches!(err, CogtainerError::IOError(IoError::InvalidInput)));
    assert_eq!(f.seek(SeekFrom::Current(0)).unwrap(), 2);
}

#[test]
fn internal_file_read_past_eof_returns_zero() {
    let mut c = open_container();
    let id = Identifier::U64(2);
    c.insert_block(&id, meta(rmpv::Value::Nil), b"xyz").unwrap();
    c.flush().unwrap();

    let mut f = c.get_block_as_file(&id);
    f.seek(SeekFrom::Start(100)).unwrap();
    let mut buf = [0u8; 8];
    assert_eq!(f.read(&mut buf).unwrap(), 0);
}

#[test]
fn internal_file_in_place_write_within_allocation_zero_fills_gap_and_updates_used() {
    let mut c = open_container();
    let id = Identifier::U64(3);

    c.set_overallocation_policy(OverallocationPolicy::Bytes(8));
    c.insert_block(&id, meta(rmpv::Value::Nil), b"ABCDEFGH").unwrap();
    c.flush().unwrap();

    let c = {
        let mut f = c.get_block_as_file(&id);
        f.seek(SeekFrom::Start(12)).unwrap();
        f.write(b"ZZ").unwrap();
        f.flush().unwrap();
        f.into_inner()
    };

    assert_eq!(used_length(&c, &id), 14);

    let (_m, data) = c.get_block(&id).unwrap();
    let mut expected = Vec::from(&b"ABCDEFGH"[..]);
    expected.extend_from_slice(&[0u8; 4]);
    expected.extend_from_slice(b"ZZ");
    assert_eq!(data, expected);
}

#[test]
fn internal_file_write_beyond_allocation_triggers_rebuild_and_extends() {
    let mut c = open_container();
    let id = Identifier::U64(4);

    c.set_overallocation_policy(OverallocationPolicy::Bytes(4));
    c.insert_block(&id, meta(rmpv::Value::Nil), b"12345678").unwrap();
    c.flush().unwrap();

    let c = {
        let mut f = c.get_block_as_file(&id);
        f.seek(SeekFrom::Start(20)).unwrap();
        f.write(b"WWWW").unwrap();
        f.flush().unwrap();
        f.into_inner()
    };

    assert_eq!(used_length(&c, &id), 24);

    let (_m, data) = c.get_block(&id).unwrap();
    let mut expected = Vec::from(&b"12345678"[..]);
    expected.extend_from_slice(&vec![0u8; 12]);
    expected.extend_from_slice(b"WWWW");
    assert_eq!(data, expected);
}

#[test]
fn internal_file_cursor_advances_and_partial_reads() {
    let mut c = open_container();
    let id = Identifier::U64(5);
    c.insert_block(&id, meta(rmpv::Value::Nil), b"short").unwrap();
    c.flush().unwrap();

    let mut f = c.get_block_as_file(&id);
    let mut buf = [0u8; 10];
    let n1 = f.read(&mut buf).unwrap();
    assert_eq!(n1, 5);
    assert_eq!(&buf[..n1], b"short");
    let n2 = f.read(&mut buf).unwrap();
    assert_eq!(n2, 0);
}

#[test]
fn internal_file_flush_persists_changes_after_reopen() {
    let c = open_container();
    let id = Identifier::String("persist-if".into());

    let c = {
        let mut f = c.get_block_as_file(&id);
        f.write(b"persist me").unwrap();
        f.flush().unwrap();
        f.into_inner()
    };
    let buf = c.file.clone();
    let c2 = Cogtainer::open(buf).unwrap();

    let (m, data) = c2.get_block(&id).unwrap();
    assert_eq!(value(&m), rmpv::Value::Nil);
    assert_eq!(data, b"persist me");
}

#[test]
fn internal_file_write_empty_noop() {
    let c = open_container();
    let id = Identifier::U64(6);
    let mut f = c.get_block_as_file(&id);
    let n = f.write(&[]).unwrap();
    assert_eq!(n, 0);
    let mut buf = [0u8; 1];
    let err = f.read(&mut buf).unwrap_err();
    assert!(matches!(err, CogtainerError::BlockNotFound(_)) || matches!(err, CogtainerError::IOError(IoError::InvalidInput)));
}

#[test]
fn internal_file_overwrite_existing_region_in_place() {
    let mut c = open_container();
    let id = Identifier::U64(7);
    c.set_overallocation_policy(OverallocationPolicy::Bytes(16));
    c.insert_block(&id, meta(rmpv::Value::Nil), b"abcdefgh").unwrap();
    c.flush().unwrap();

    let c = {
        let mut f = c.get_block_as_file(&id);
        f.seek(SeekFrom::Start(2)).unwrap();
        f.write(b"ZZZ").unwrap();
        f.flush().unwrap();
        f.into_inner()
    };

    let (_m, data) = c.get_block(&id).unwrap();
    assert_eq!(&data, b"abZZZfgh");
}
