use transducer::builder::Builder;
use transducer::dfa::{Fuzzy, Pattern};
use transducer::error::{CompileError, Error};
use transducer::query::{Bound, Query, Range};
use transducer::reader::Reader;

fn set(keys: &[&str]) -> Reader {
    let mut b = Builder::new();
    for k in keys {
        b.insert(k.as_bytes(), 0).unwrap();
    }
    Reader::open(b.finish()).unwrap()
}

fn keys_of(found: Vec<(Vec<u8>, u64)>) -> Vec<String> {
    found.into_iter().map(|(k, _)| String::from_utf8(k).unwrap()).collect()
}

#[test]
fn stream_gives_all_keys_in_order() {
    let keys = vec!["bruce", "clarence", "danny", "garry", "max", "roy", "stevie"];
    let r = set(&keys);
    let mut cursor = r.search(&Query::All);
    let mut got = vec![];
    while let Some((k, _)) = cursor.next() {
        got.push(String::from_utf8(k).unwrap());
    }
    assert_eq!(got, keys);
    assert_eq!(cursor.next(), None);
}

#[test]
fn range_ge_c_le_roy() {
    let keys = vec!["bruce", "clarence", "danny", "garry", "max", "roy", "stevie"];
    let r = set(&keys);
    let q = Range::new().ge(b"c").le(b"roy").into_query();
    assert_eq!(keys_of(r.find_all(&q)), &keys[1..6]);
    let q = Range::new().gt(b"clarence").lt(b"roy").into_query();
    assert_eq!(keys_of(r.find_all(&q)), &keys[2..5]);
    let q = Query::Range(Bound::Unbounded, Bound::Excluded(b"c".to_vec()));
    assert_eq!(keys_of(r.find_all(&q)), &keys[0..1]);
    let q = Query::Range(Bound::Included(b"roz".to_vec()), Bound::Unbounded);
    assert_eq!(keys_of(r.find_all(&q)), &keys[6..]);
    let q = Range::new().ge(b"x").le(b"a").into_query();
    assert_eq!(keys_of(r.find_all(&q)), Vec::<String>::new());
}

#[test]
fn exact_query_finds_one_key() {
    let r = set(&["a", "ab", "abc", "b"]);
    assert_eq!(keys_of(r.find_all(&Query::Exact(b"ab".to_vec()))), vec!["ab"]);
    assert_eq!(keys_of(r.find_all(&Query::Exact(b"abd".to_vec()))), Vec::<String>::new());
}

#[test]
fn levenshtein_foo_distance_1() {
    let r = set(&["fa", "fo", "fob", "focus", "foo", "food", "foul"]);
    let q = Query::Fuzzy(Fuzzy::new("foo", 1).unwrap());
    assert_eq!(keys_of(r.find_all(&q)), vec!["fo", "fob", "foo", "food"]);
}

#[test]
fn regex_letters_only() {
    let mut keys = vec!["123", "food", "xyz123", "τροφή", "еда", "מזון", "☃☃☃"];
    keys.sort();
    let r = set(&keys);
    let q = Query::Pattern(Pattern::new(r"\pL+").unwrap());
    assert_eq!(keys_of(r.find_all(&q)), vec!["food", "τροφή", "еда", "מזון"]);
}

#[test]
fn automaton_compile_errors() {
    assert_eq!(
        Pattern::new("(").err(),
        Some(Error::AutomatonCompileError(CompileError::Syntax))
    );
    assert_eq!(
        Pattern::new("a+?").err(),
        Some(Error::AutomatonCompileError(CompileError::Unsupported))
    );
    assert_eq!(
        Pattern::new("^a").err(),
        Some(Error::AutomatonCompileError(CompileError::Unsupported))
    );
    assert!(matches!(
        Pattern::new(r"\pL{200}").err(),
        Some(Error::AutomatonCompileError(CompileError::TooLarge { .. }))
    ));
    assert!(matches!(
        Fuzzy::new("a long text under a large distance of edits", 40).err(),
        Some(Error::AutomatonCompileError(CompileError::TooLarge { .. }))
    ));
}

#[test]
fn outputs_come_with_the_keys() {
    let mut b = Builder::new();
    b.insert(b"bar", 1).unwrap();
    b.insert(b"baz", 2).unwrap();
    b.insert(b"foo", 3).unwrap();
    let r = Reader::open(b.finish()).unwrap();
    assert_eq!(
        r.find_all(&Query::All),
        vec![(b"bar".to_vec(), 1), (b"baz".to_vec(), 2), (b"foo".to_vec(), 3)]
    );
}

#[test]
fn same_query_twice_same_result() {
    let r = set(&["fa", "fo", "fob", "focus", "foo", "food", "foul"]);
    let q = Query::Fuzzy(Fuzzy::new("foo", 1).unwrap());
    assert_eq!(r.find_all(&q), r.find_all(&q));
    let q = Range::new().ge(b"fo").into_query();
    assert_eq!(r.find_all(&q), r.find_all(&q));
}
