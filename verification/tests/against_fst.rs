use fst::{IntoStreamer, Streamer};
use transducer::builder::from_entries;
use transducer::dfa::{Fuzzy, Pattern};
use transducer::query::{Query, Range};
use transducer::reader::Reader;
use transducer::setop::OpBuilder;

fn words() -> Vec<&'static str> {
    let mut w = vec![
        "a", "ab", "abc", "abd", "b", "ba", "bruce", "clarence", "danny", "fa", "fo", "fob",
        "focus", "foo", "food", "foul", "garry", "good", "max", "roy", "stevie", "zoo", "еда",
        "τροφή",
    ];
    w.sort();
    w
}

fn ours(keys: &[&str]) -> Reader {
    let list: Vec<(Vec<u8>, u64)> =
        keys.iter().enumerate().map(|(i, k)| (k.as_bytes().to_vec(), (i * i) as u64)).collect();
    Reader::open(from_entries(&list).unwrap()).unwrap()
}

fn theirs(keys: &[&str]) -> fst::Map {
    fst::Map::from_iter(keys.iter().enumerate().map(|(i, k)| (*k, (i * i) as u64))).unwrap()
}

fn collect(mut stream: fst::map::Stream<'_, impl fst::Automaton>) -> Vec<(Vec<u8>, u64)> {
    let mut out = vec![];
    while let Some((k, v)) = stream.next() {
        out.push((k.to_vec(), v));
    }
    out
}

#[test]
fn get_agrees_with_fst() {
    let keys = words();
    let (a, b) = (ours(&keys), theirs(&keys));
    for k in keys.iter().chain(["", "abz", "fooo", "zz", "c"].iter()) {
        assert_eq!(a.get(k.as_bytes()), b.get(k));
        assert_eq!(a.contains_key(k.as_bytes()), b.contains_key(k));
    }
    assert_eq!(a.len(), b.len() as u64);
}

#[test]
fn stream_agrees_with_fst() {
    let keys = words();
    let (a, b) = (ours(&keys), theirs(&keys));
    assert_eq!(a.find_all(&Query::All), collect(b.stream()));
}

#[test]
fn range_agrees_with_fst() {
    let keys = words();
    let (a, b) = (ours(&keys), theirs(&keys));
    for lo in ["", "a", "ab", "c", "fo", "foo", "zz"] {
        for hi in ["", "a", "abd", "foo", "g", "zoo", "zzz"] {
            let q = Range::new().ge(lo.as_bytes()).le(hi.as_bytes()).into_query();
            assert_eq!(a.find_all(&q), collect(b.range().ge(lo).le(hi).into_stream()));
            let q = Range::new().gt(lo.as_bytes()).lt(hi.as_bytes()).into_query();
            assert_eq!(a.find_all(&q), collect(b.range().gt(lo).lt(hi).into_stream()));
        }
    }
}

#[test]
fn fuzzy_search_agrees_with_fst() {
    let keys = words();
    let (a, b) = (ours(&keys), theirs(&keys));
    for (target, distance) in [("foo", 1), ("foo", 2), ("ab", 1), ("еда", 1), ("", 1), ("max", 0)] {
        let q = Query::Fuzzy(Fuzzy::new(target, distance).unwrap());
        let lev = fst_levenshtein::Levenshtein::new(target, distance).unwrap();
        assert_eq!(a.find_all(&q), collect(b.search(&lev).into_stream()));
    }
}

#[test]
fn regex_search_agrees_with_fst() {
    let keys = words();
    let (a, b) = (ours(&keys), theirs(&keys));
    for pattern in [r"\pL+", "f.*", ".*o.*", "ab?c?", "[a-c]+", r".*\s.*", ""] {
        let q = Query::Pattern(Pattern::new(pattern).unwrap());
        let re = fst_regex::Regex::new(pattern).unwrap();
        assert_eq!(a.find_all(&q), collect(b.search(&re).into_stream()));
    }
}

#[test]
fn union_agrees_with_fst() {
    let groups: Vec<Vec<&str>> = vec![
        vec!["AC/DC", "Aerosmith", "Kansas"],
        vec!["Aerosmith", "Bob Seger"],
        vec![],
        vec!["Kansas", "Metallica"],
    ];
    let sets: Vec<fst::Set> =
        groups.iter().map(|g| fst::Set::from_iter(g.iter()).unwrap()).collect();
    let mut theirs = fst::set::OpBuilder::new();
    let mut ours = OpBuilder::new();
    for (g, s) in groups.iter().zip(sets.iter()) {
        theirs = theirs.add(s);
        ours = ours.add(g.iter().map(|k| (k.as_bytes().to_vec(), 0)).collect());
    }
    let mut stream = theirs.union();
    let mut expected = vec![];
    while let Some(k) = stream.next() {
        expected.push(k.to_vec());
    }
    let got: Vec<Vec<u8>> = ours.union().into_iter().map(|(k, _)| k).collect();
    assert_eq!(got, expected);
}
