use transducer::builder::Builder;
use transducer::error::Error;
use transducer::reader::Reader;

fn build(pairs: &[(&str, u64)]) -> Vec<u8> {
    let mut b = Builder::new();
    for (k, v) in pairs {
        b.insert(k.as_bytes(), *v).unwrap();
    }
    b.finish()
}

#[test]
fn get_returns_what_was_inserted() {
    let bytes = build(&[("bruce", 1972), ("clarence", 1972), ("stevie", 1975)]);
    let r = Reader::open(bytes).unwrap();
    assert_eq!(r.get(b"bruce"), Some(1972));
    assert_eq!(r.get(b"clarence"), Some(1972));
    assert_eq!(r.get(b"stevie"), Some(1975));
    assert_eq!(r.get(b"andrew"), None);
    assert_eq!(r.get(b"bruc"), None);
    assert_eq!(r.get(b"bruces"), None);
    assert_eq!(r.get(b""), None);
    assert!(r.contains_key(b"bruce"));
    assert!(!r.contains_key(b"andrew"));
    assert_eq!(r.len(), 3);
}

#[test]
fn outputs_are_pushed_down_shared_prefixes() {
    let bytes = build(&[("bar", 1), ("baz", 2), ("foo", 3)]);
    let r = Reader::open(bytes).unwrap();
    assert_eq!(r.get(b"bar"), Some(1));
    assert_eq!(r.get(b"baz"), Some(2));
    assert_eq!(r.get(b"foo"), Some(3));
    assert_eq!(r.get(b"abc"), None);
    let bytes = build(&[("a", 10), ("ab", 3), ("abc", 7), ("b", 0), ("ba", u64::MAX)]);
    let r = Reader::open(bytes).unwrap();
    assert_eq!(r.get(b"a"), Some(10));
    assert_eq!(r.get(b"ab"), Some(3));
    assert_eq!(r.get(b"abc"), Some(7));
    assert_eq!(r.get(b"b"), Some(0));
    assert_eq!(r.get(b"ba"), Some(u64::MAX));
}

#[test]
fn empty_key_and_empty_store() {
    let r = Reader::open(Builder::new().finish()).unwrap();
    assert_eq!(r.get(b""), None);
    assert_eq!(r.len(), 0);
    let bytes = build(&[("", 5), ("a", 6)]);
    let r = Reader::open(bytes).unwrap();
    assert_eq!(r.get(b""), Some(5));
    assert_eq!(r.get(b"a"), Some(6));
}

#[test]
fn out_of_order_insert_is_refused() {
    let mut b = Builder::new();
    b.insert(b"c", 1).unwrap();
    assert_eq!(b.insert(b"b", 2), Err(Error::OutOfOrderInsert));
    assert_eq!(b.insert(b"c", 2), Err(Error::OutOfOrderInsert));
    assert_eq!(b.len(), 1);
    b.insert(b"d", 3).unwrap();
    let r = Reader::open(b.finish()).unwrap();
    assert_eq!(r.get(b"c"), Some(1));
    assert_eq!(r.get(b"b"), None);
    assert_eq!(r.get(b"d"), Some(3));
}

#[test]
fn shared_suffixes_are_stored_once() {
    let shared = build(&[("food", 0), ("good", 0)]).len();
    let food = build(&[("food", 0)]).len();
    let good = build(&[("good", 0)]).len();
    assert!(shared < food + good - 24);
    let many = build(&[("aood", 0), ("bood", 0), ("cood", 0), ("dood", 0), ("eood", 0)]).len();
    assert!(many < food + 4 * 8);
}

#[test]
fn open_refuses_what_is_no_store() {
    assert_eq!(Reader::open(vec![]).err(), Some(Error::CorruptData));
    assert_eq!(Reader::open(vec![0; 23]).err(), Some(Error::CorruptData));
    let mut bytes = build(&[("a", 1)]);
    let n = bytes.len();
    bytes[n - 24] = 9;
    assert_eq!(
        Reader::open(bytes).err(),
        Some(Error::VersionMismatch { expected: 1, found: 9 })
    );
    let mut bytes = build(&[("a", 1)]);
    bytes[n - 16] = 200;
    assert_eq!(Reader::open(bytes).err(), Some(Error::CorruptData));
}

#[test]
fn written_bytes_only_grow() {
    let mut b = Builder::new();
    let mut seen: Vec<u8> = vec![];
    for k in ["alpha", "beta", "betamax", "gamma", "gamut"] {
        b.insert(k.as_bytes(), 3).unwrap();
        let now = b.bytes_written().to_vec();
        assert!(now.len() >= seen.len());
        assert_eq!(&now[..seen.len()], &seen[..]);
        seen = now;
    }
    assert_eq!(b.insert(b"a", 0), Err(Error::OutOfOrderInsert));
    assert_eq!(b.bytes_written(), &seen[..]);
    let bytes = b.finish();
    assert_eq!(&bytes[..seen.len()], &seen[..]);
    assert!(bytes.len() >= seen.len() + 24);
}

#[test]
fn the_trailer_holds_version_root_and_count() {
    let empty = Builder::with_registry_size(0).finish();
    let mut expected = vec![0, 0, 0, 0, 0];
    expected.extend_from_slice(&1u64.to_le_bytes());
    expected.extend_from_slice(&0u64.to_le_bytes());
    expected.extend_from_slice(&0u64.to_le_bytes());
    assert_eq!(empty, expected);
    let bytes = build(&[("a", 0), ("b", 0), ("c", 0)]);
    let n = bytes.len();
    assert_eq!(&bytes[n - 24..n - 16], &1u64.to_le_bytes());
    assert_eq!(&bytes[n - 8..], &3u64.to_le_bytes());
    let root = u64::from_le_bytes(bytes[n - 16..n - 8].try_into().unwrap()) as usize;
    assert!(root < n - 24);
    assert_eq!(&bytes[..5], &[1, 0, 0, 0, 0]);
    assert_eq!(root, 5);
    assert_eq!(&bytes[root..root + 5], &[0, 0, 0, 3, 0]);
    assert_eq!(&bytes[root + 5..root + 8], b"abc");
    assert_eq!(n, 5 + 8 + 24);
}
