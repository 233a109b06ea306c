use std::collections::BTreeMap;
use transducer::builder::Builder;
use transducer::error::Error;
use transducer::query::{Bound, Query, Side, State};
use transducer::reader::Reader;

fn built(pairs: &[(&str, u64)], registry: usize) -> Vec<u8> {
    let mut b = Builder::with_registry_size(registry);
    for (k, v) in pairs {
        b.insert(k.as_bytes(), *v).unwrap();
    }
    b.finish()
}

fn contains_key(reader: &Reader, key: &[u8]) -> bool {
    let mut node = reader.root();
    for b in key {
        match node.find_transition(*b) {
            None => return false,
            Some(i) => {
                node = reader.node(node.transition(i).target).unwrap();
            }
        }
    }
    node.is_final()
}

#[test]
fn nodes_can_be_walked_by_hand() {
    let reader = Reader::open(built(&[("bar", 1), ("baz", 2), ("foo", 3)], 100)).unwrap();
    let root = reader.root();
    let labels: Vec<u8> = (0..root.len()).map(|i| root.label(i)).collect();
    assert_eq!(labels, vec![b'b', b'f']);
    let listed: Vec<u8> = root.transitions().iter().map(|t| t.label).collect();
    assert_eq!(listed, labels);
    let i = root.find_transition(b'b').unwrap();
    let trans = root.transition(i);
    let node = reader.node(trans.target).unwrap();
    assert_eq!(node.len(), 1);
    assert_eq!(node.label(0), b'a');
    for key in ["bar", "baz", "foo", "ba", "fo", "", "food", "x"] {
        assert_eq!(contains_key(&reader, key.as_bytes()), reader.contains_key(key.as_bytes()));
    }
}

#[test]
fn an_address_without_node_is_corrupt_data() {
    let bytes = built(&[("a", 1)], 100);
    let body = bytes.len() - 24;
    let reader = Reader::open(bytes).unwrap();
    assert_eq!(reader.node(body).err(), Some(Error::CorruptData));
    assert_eq!(reader.node(usize::MAX).err(), Some(Error::CorruptData));
    assert!(reader.node(reader.root().addr()).is_ok());
}

#[test]
fn the_registry_changes_the_bytes_but_not_the_map() {
    let pairs: Vec<(String, u64)> =
        (0..500u64).map(|i| (format!("{:04}-suffix", i), i % 7)).collect();
    let view: Vec<(&str, u64)> = pairs.iter().map(|(k, v)| (k.as_str(), *v)).collect();
    let none = built(&view, 0);
    let one = built(&view, 1);
    let many = built(&view, 10000);
    assert!(many.len() <= one.len());
    assert!(one.len() <= none.len());
    assert!(many.len() < none.len());
    for bytes in [none, one, many] {
        let reader = Reader::open(bytes).unwrap();
        assert_eq!(reader.len(), 500);
        let all = reader.find_all(&Query::All);
        let expected: Vec<(Vec<u8>, u64)> =
            pairs.iter().map(|(k, v)| (k.as_bytes().to_vec(), *v)).collect();
        assert_eq!(all, expected);
    }
}

#[test]
fn many_keys_read_back_like_a_sorted_map() {
    let mut model = BTreeMap::new();
    let mut x: u64 = 12345;
    for _ in 0..3000 {
        x = x.wrapping_mul(6364136223846793005).wrapping_add(1442695040888963407);
        let len = (x >> 60) as usize % 6;
        let key: Vec<u8> = (0..len).map(|i| b'a' + ((x >> (8 * i)) % 4) as u8).collect();
        model.insert(key, x >> 3);
    }
    let mut b = Builder::new();
    for (k, v) in &model {
        b.insert(k, *v).unwrap();
    }
    let reader = b.into_reader();
    assert_eq!(reader.len(), model.len() as u64);
    for (k, v) in &model {
        assert_eq!(reader.get(k), Some(*v));
    }
    let all: Vec<(Vec<u8>, u64)> = model.into_iter().collect();
    assert_eq!(reader.find_all(&Query::All), all);
    assert_eq!(reader.get(b"zzzz"), None);
    assert_eq!(reader.get(b"abcdefg"), None);
}

#[test]
fn the_largest_outputs_are_kept() {
    let mut b = Builder::new();
    b.insert(b"a", u64::MAX).unwrap();
    b.insert(b"b", u64::MAX - 1).unwrap();
    let reader = b.into_reader();
    assert_eq!(reader.get(b"a"), Some(u64::MAX));
    assert_eq!(reader.get(b"b"), Some(u64::MAX - 1));
}

#[test]
fn an_exact_query_steps_along_its_key() {
    let q = Query::Exact(b"ab".to_vec());
    let s0 = q.start();
    assert_eq!(s0, State::Exact(0));
    assert!(!q.is_match(s0));
    assert!(q.can_match(s0));
    let s1 = q.accept(s0, b'a');
    let s2 = q.accept(s1, b'b');
    assert_eq!(s2, State::Exact(2));
    assert!(q.is_match(s2));
    let s3 = q.accept(s2, b'c');
    assert_eq!(s3, State::Dead);
    assert!(!q.can_match(s3));
    assert!(!q.is_match(s3));
    assert_eq!(q.accept(s0, b'x'), State::Dead);
    assert_eq!(q.accept(State::Dead, b'a'), State::Dead);
}

#[test]
fn a_range_query_tracks_both_limits() {
    let q = Query::Range(Bound::Included(b"b".to_vec()), Bound::Excluded(b"cd".to_vec()));
    let s0 = q.start();
    assert_eq!(s0, State::Range(Side::Tight(0), Side::Tight(0)));
    assert!(!q.is_match(s0));
    assert_eq!(q.accept(s0, b'a'), State::Dead);
    let b = q.accept(s0, b'b');
    assert_eq!(b, State::Range(Side::Tight(1), Side::Free));
    assert!(q.is_match(b));
    let c = q.accept(s0, b'c');
    assert_eq!(c, State::Range(Side::Free, Side::Tight(1)));
    assert!(q.is_match(c));
    let cd = q.accept(c, b'd');
    assert_eq!(cd, State::Range(Side::Free, Side::Tight(2)));
    assert!(!q.is_match(cd));
    assert_eq!(q.accept(cd, b'a'), State::Dead);
    assert_eq!(q.accept(c, b'e'), State::Dead);
    assert_eq!(q.accept(s0, b'd'), State::Dead);
    let all = Query::All;
    assert_eq!(all.accept(all.start(), 7), State::Any);
    assert!(all.is_match(State::Any));
}
