//! What holds of the library as a whole, stated over the maps that
//! builders, stores and searches stand for.

use crate::builder::{lemma_map_of, map_of};
use crate::model::{store_contents, store_ok};
use crate::query::Query;
use crate::search::{is_result, lemma_result_unique, sorted_keys, Entry};
use vstd::prelude::*;

verus! {

/// A store built from entries whose keys increase strictly gives, for
/// the key of every entry, the output of that entry, and gives nothing
/// for a key that no entry has.
pub proof fn law_store_reads_back(list: Seq<Entry>, data: Seq<u8>, key: Seq<u8>)
    requires
        sorted_keys(list),
        store_contents(data) == map_of(list),
    ensures
        forall|j: int|
            0 <= j < list.len() && (#[trigger] list[j]).0 == key ==> store_contents(data).get(key)
                == Some(list[j].1),
        (forall|j: int| 0 <= j < list.len() ==> (#[trigger] list[j]).0 != key) ==> store_contents(
            data,
        ).get(key) is None,
{
    assert forall|j: int| 0 <= j < list.len() && (#[trigger] list[j]).0 == key implies store_contents(
        data,
    ).get(key) == Some(list[j].1) by {
        lemma_map_of(list, j);
    }
}

/// The bytes that a builder finishes with, read again, give for every key
/// and for every query what the builder held.
pub proof fn law_round_trip(held: Map<Seq<u8>, u64>, data: Seq<u8>, q: Query, r: Seq<Entry>)
    requires
        store_ok(data),
        store_contents(data) == held,
    ensures
        forall|key: Seq<u8>| store_contents(data).get(key) == held.get(key),
        forall|key: Seq<u8>| store_contents(data).contains_key(key) == held.contains_key(key),
        is_result(r, store_contents(data), q) == is_result(r, held, q),
{
}

/// A search gives the same entries in the same order each time it is run
/// on the same store with the same query.
pub proof fn law_search_repeats(first: Seq<Entry>, second: Seq<Entry>, data: Seq<u8>, q: Query)
    requires
        is_result(first, store_contents(data), q),
        is_result(second, store_contents(data), q),
    ensures
        first == second,
{
    lemma_result_unique(first, second, store_contents(data), q);
}

} // verus!
