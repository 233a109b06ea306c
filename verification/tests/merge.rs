use std::collections::BTreeMap;
use transducer::heap::{goes_first, heap_pop, heap_push};
use transducer::setop::{merge, IndexedValue, Op};

fn source(keys: &[&str]) -> Vec<(Vec<u8>, u64)> {
    keys.iter().enumerate().map(|(i, k)| (k.as_bytes().to_vec(), i as u64)).collect()
}

#[test]
fn the_heap_gives_sources_by_key_then_number() {
    let sources = vec![source(&["m"]), source(&["b"]), source(&["m"]), source(&["a"]), source(&["b"])];
    let pos = vec![0; 5];
    let mut heap = vec![];
    for i in [2, 4, 0, 3, 1] {
        heap_push(&mut heap, &sources, &pos, i);
    }
    assert_eq!(heap.len(), 5);
    let mut order = vec![];
    while !heap.is_empty() {
        order.push(heap_pop(&mut heap, &sources, &pos));
    }
    assert_eq!(order, vec![3, 1, 4, 0, 2]);
    assert!(goes_first(&sources, &pos, 3, 1));
    assert!(goes_first(&sources, &pos, 1, 4));
    assert!(!goes_first(&sources, &pos, 4, 1));
    assert!(!goes_first(&sources, &pos, 0, 0));
}

fn pseudo_sources(seed: u64, count: usize) -> Vec<Vec<(Vec<u8>, u64)>> {
    let mut x = seed;
    let mut all = vec![];
    for s in 0..count {
        let mut keys = BTreeMap::new();
        let size = (x >> 59) as usize + s % 3;
        for _ in 0..size {
            x = x.wrapping_mul(6364136223846793005).wrapping_add(1442695040888963407);
            let len = 1 + (x >> 62) as usize;
            let key: Vec<u8> = (0..len).map(|i| b'a' + ((x >> (7 * i + 3)) % 3) as u8).collect();
            keys.insert(key, x >> 40);
        }
        x = x.wrapping_mul(6364136223846793005).wrapping_add(1442695040888963407);
        all.push(keys.into_iter().collect());
    }
    all
}

fn naive(op: Op, sources: &[Vec<(Vec<u8>, u64)>]) -> Vec<(Vec<u8>, Vec<IndexedValue>)> {
    let mut held: BTreeMap<Vec<u8>, Vec<IndexedValue>> = BTreeMap::new();
    for (index, source) in sources.iter().enumerate() {
        for (key, value) in source {
            held.entry(key.clone()).or_default().push(IndexedValue { index, value: *value });
        }
    }
    held.into_iter()
        .filter(|(_, v)| match op {
            Op::Union => true,
            Op::Intersection => v.len() == sources.len(),
            Op::Difference => v.len() == 1 && v[0].index == 0,
            Op::SymmetricDifference => v.len() % 2 == 1,
        })
        .collect()
}

#[test]
fn merging_agrees_with_counting_by_hand() {
    for seed in 1..40u64 {
        for count in [1usize, 2, 3, 5, 9] {
            let sources = pseudo_sources(seed * 7919, count);
            for op in [Op::Union, Op::Intersection, Op::Difference, Op::SymmetricDifference] {
                assert_eq!(merge(op, &sources), naive(op, &sources));
            }
        }
    }
}
