use vstd::prelude::*;

use crate::error::StoreError;
use crate::meta::{Meta, Type};

verus! {

/// Whether some entry of `es` already carries the record index `idx`.
pub open spec fn has_index<V>(es: Seq<(u32, V)>, idx: u32) -> bool {
    exists|j: int| 0 <= j < es.len() && es[j].0 == idx
}

/// The record map that a list of entries denotes, a later entry winning
/// where indices repeat (decoders never let them repeat).
pub open spec fn map_of_entries<V>(es: Seq<(u32, V)>) -> Map<u32, V>
    decreases es.len(),
{
    if es.len() == 0 {
        Map::empty()
    } else {
        map_of_entries(es.drop_last()).insert(es.last().0, es.last().1)
    }
}

/// Appending an entry adds exactly its index to the indices present.
pub proof fn lemma_has_index_push<V>(es: Seq<(u32, V)>, x: (u32, V), i: u32)
    ensures
        has_index(es.push(x), i) <==> (has_index(es, i) || x.0 == i),
{
    if has_index(es, i) {
        let j = choose|j: int| 0 <= j < es.len() && es[j].0 == i;
        assert(es.push(x)[j].0 == i);
    }
    if x.0 == i {
        assert(es.push(x)[es.len() as int].0 == i);
    }
    if has_index(es.push(x), i) {
        let j = choose|j: int| 0 <= j < es.push(x).len() && es.push(x)[j].0 == i;
        if j < es.len() {
            assert(es[j].0 == i);
        }
    }
}

/// Appending an entry inserts it into the denoted map.
pub proof fn lemma_map_of_entries_push<V>(es: Seq<(u32, V)>, x: (u32, V))
    ensures
        map_of_entries(es.push(x)) == map_of_entries(es).insert(x.0, x.1),
{
    assert(es.push(x).drop_last() =~= es);
}

/// One decoded record list mapped through the records' views.
pub open spec fn deep_entries<T: View>(es: Seq<(u32, T)>) -> Seq<(u32, T::V)> {
    es.map_values(|p: (u32, T)| (p.0, p.1@))
}

/// A record map mapped through the records' views.
pub open spec fn deep_map<T: View>(m: Map<u32, T>) -> Map<u32, T::V> {
    Map::new(|k: u32| m.dom().contains(k), |k: u32| m[k]@)
}

/// A typed page decoder: the page type it owns and how the record stream
/// after the 32-byte preamble is decoded into indexed records.
pub trait Block: Sized {
    /// Mathematical image of one decoded record.
    type ItemV;

    /// The page type tag this decoder is registered for.
    spec fn block_type() -> Type;

    /// What decoding the record stream of a page at `page` with the given
    /// logical size yields: the records in wire order, each under its index.
    spec fn spec_entries(data: Seq<u8>, page: int, logical: int) -> Result<
        Seq<(u32, Self::ItemV)>,
        StoreError,
    >;

    /// The decoded records, in wire order.
    spec fn entries_view(&self) -> Seq<(u32, Self::ItemV)>;

    /// The decoded record map.
    spec fn data_map(&self) -> Map<u32, Self::ItemV>;

    /// The page type tag this decoder is registered for.
    fn block_type_exec() -> (t: Type)
        ensures
            t == Self::block_type(),
    ;

    /// Decodes the records of the page that starts at `page_offset`, whose
    /// preamble `meta` was already read.
    fn from_meta(data: &[u8], page_offset: u64, meta: Meta) -> (r: Result<Self, StoreError>)
        ensures
            match r {
                Ok(b) => {
                    &&& Self::spec_entries(data@, page_offset as int, meta.logical_size as int)
                        == Ok::<Seq<(u32, Self::ItemV)>, StoreError>(b.entries_view())
                    &&& b.data_map() == map_of_entries(b.entries_view())
                },
                Err(e) => Self::spec_entries(data@, page_offset as int, meta.logical_size as int)
                    == Err::<Seq<(u32, Self::ItemV)>, StoreError>(e),
            },
    ;
}

} // verus!
