use transducer::builder::{from_entries, Builder};
use transducer::error::Error;
use transducer::query::Query;
use transducer::reader::Reader;
use transducer::setop::{is_sorted, merge, IndexedValue, Merger, Op, OpBuilder};
use transducer::text::{into_strs, key_to_string};

fn source(keys: &[&str]) -> Vec<(Vec<u8>, u64)> {
    keys.iter().map(|k| (k.as_bytes().to_vec(), 0)).collect()
}

fn keys_of(found: Vec<(Vec<u8>, Vec<IndexedValue>)>) -> Vec<String> {
    found.into_iter().map(|(k, _)| String::from_utf8(k).unwrap()).collect()
}

#[test]
fn union_of_five_sets() {
    let keys = OpBuilder::new()
        .add(source(&["AC/DC", "Aerosmith"]))
        .add(source(&["Bob Seger", "Bruce Springsteen"]))
        .add(source(&["George Thorogood", "Golden Earring"]))
        .add(source(&["Kansas"]))
        .add(source(&["Metallica"]))
        .union();
    assert_eq!(
        keys_of(keys),
        vec![
            "AC/DC",
            "Aerosmith",
            "Bob Seger",
            "Bruce Springsteen",
            "George Thorogood",
            "Golden Earring",
            "Kansas",
            "Metallica",
        ]
    );
}

#[test]
fn union_gives_each_key_once_with_all_outputs() {
    let a = vec![(b"a".to_vec(), 1), (b"c".to_vec(), 3)];
    let b = vec![(b"b".to_vec(), 20), (b"c".to_vec(), 30)];
    let out = OpBuilder::new().add(a).add(b).union();
    assert_eq!(
        out,
        vec![
            (b"a".to_vec(), vec![IndexedValue { index: 0, value: 1 }]),
            (b"b".to_vec(), vec![IndexedValue { index: 1, value: 20 }]),
            (
                b"c".to_vec(),
                vec![IndexedValue { index: 0, value: 3 }, IndexedValue { index: 1, value: 30 }]
            ),
        ]
    );
}

#[test]
fn intersection_difference_symmetric_difference() {
    let a = source(&["a", "b", "c", "d"]);
    let b = source(&["b", "d", "e"]);
    let c = source(&["b", "c", "e", "f"]);
    let all = vec![a, b, c];
    assert_eq!(keys_of(merge(Op::Intersection, &all)), vec!["b"]);
    assert_eq!(keys_of(merge(Op::Difference, &all)), vec!["a"]);
    assert_eq!(keys_of(merge(Op::SymmetricDifference, &all)), vec!["a", "b", "f"]);
    assert_eq!(keys_of(merge(Op::Union, &all)), vec!["a", "b", "c", "d", "e", "f"]);
    let two = vec![source(&["a", "b"]), source(&["b", "c"])];
    assert_eq!(keys_of(merge(Op::SymmetricDifference, &two)), vec!["a", "c"]);
}

#[test]
fn operations_on_no_or_empty_sources() {
    assert_eq!(OpBuilder::new().union(), vec![]);
    assert_eq!(OpBuilder::new().intersection(), vec![]);
    let one = vec![source(&[]), source(&["x"])];
    assert_eq!(keys_of(merge(Op::Union, &one)), vec!["x"]);
    assert_eq!(keys_of(merge(Op::Intersection, &one)), Vec::<String>::new());
    assert_eq!(keys_of(merge(Op::Difference, &one)), Vec::<String>::new());
}

#[test]
fn union_of_search_results() {
    let first = Reader::open(from_entries(&source(&["Bob Seger", "Kansas"])).unwrap()).unwrap();
    let second = Reader::open(from_entries(&source(&["AC/DC", "Bob Seger"])).unwrap()).unwrap();
    let out = OpBuilder::new()
        .add(first.find_all(&Query::All))
        .add(second.find_all(&Query::All))
        .union();
    assert_eq!(keys_of(out), vec!["AC/DC", "Bob Seger", "Kansas"]);
}

#[test]
fn sortedness_is_checked() {
    assert!(is_sorted(&source(&[])));
    assert!(is_sorted(&source(&["a"])));
    assert!(is_sorted(&source(&["a", "ab", "b"])));
    assert!(!is_sorted(&source(&["a", "a"])));
    assert!(!is_sorted(&source(&["b", "a"])));
}

#[test]
fn from_entries_builds_or_refuses() {
    let bytes = from_entries(&vec![(b"bruce".to_vec(), 1972), (b"stevie".to_vec(), 1975)]).unwrap();
    let r = Reader::open(bytes).unwrap();
    assert_eq!(r.get(b"bruce"), Some(1972));
    assert_eq!(r.get(b"stevie"), Some(1975));
    assert_eq!(r.len(), 2);
    assert_eq!(
        from_entries(&vec![(b"c".to_vec(), 1), (b"b".to_vec(), 2)]),
        Err(Error::OutOfOrderInsert)
    );
}

#[test]
fn into_reader_reads_what_was_inserted() {
    let mut b = Builder::with_registry_size(0);
    b.insert(b"k1", 7).unwrap();
    b.insert(b"k2", 8).unwrap();
    let r = b.into_reader();
    assert_eq!(r.get(b"k1"), Some(7));
    assert_eq!(r.get(b"k2"), Some(8));
    assert_eq!(r.get(b"k3"), None);
}

#[test]
fn keys_as_text() {
    assert_eq!(key_to_string("τροφή".as_bytes()), Ok("τροφή".to_string()));
    assert_eq!(key_to_string(&[0xff, 0x41]), Err(Error::Utf8DecodeError));
    assert_eq!(
        into_strs(&source(&["a", "еда"])),
        Ok(vec!["a".to_string(), "еда".to_string()])
    );
    assert_eq!(
        into_strs(&vec![(b"ok".to_vec(), 0), (vec![0xc0], 0)]),
        Err(Error::Utf8DecodeError)
    );
}

#[test]
fn a_merger_gives_one_key_at_a_time() {
    let all = vec![source(&["a", "c"]), source(&["b", "c"]), source(&["c", "d"])];
    let mut union = Merger::new(Op::Union, &all);
    assert_eq!(union.next().map(|e| e.0), Some(b"a".to_vec()));
    assert_eq!(union.next().map(|e| e.0), Some(b"b".to_vec()));
    let c = union.next().unwrap();
    assert_eq!(c.0, b"c".to_vec());
    assert_eq!(c.1.iter().map(|v| v.index).collect::<Vec<_>>(), vec![0, 1, 2]);
    assert_eq!(union.next().map(|e| e.0), Some(b"d".to_vec()));
    assert_eq!(union.next(), None);
    assert_eq!(union.next(), None);
    let mut both = Merger::new(Op::Intersection, &all);
    assert_eq!(both.next().map(|e| e.0), Some(b"c".to_vec()));
    assert_eq!(both.next(), None);
}
