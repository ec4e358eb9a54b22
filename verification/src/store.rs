use std::collections::HashMap;
use vstd::prelude::*;

use crate::block::{deep_entries, deep_map, map_of_entries, Block};
use crate::categories::{Category, CategoryBlock, CategoryV};
use crate::error::StoreError;
use crate::header::{spec_header, Header, HeaderV};
use crate::index::IndexBlock;
use crate::meta::{Meta, PAGE_SIZE};
use crate::properties::{Property, PropertyBlock, PropertyV};

verus! {

broadcast use vstd::std_specs::hash::group_hash_axioms;

/// The decoded container: its header and the merged record map of each
/// chained kind.
#[derive(Debug, Clone)]
pub struct Store {
    pub header: Header,
    pub properties: HashMap<u32, Property>,
    pub categories: HashMap<u32, Category>,
}

/// The mathematical image of a decoded store.
pub struct StoreV {
    pub header: HeaderV,
    pub properties: Map<u32, PropertyV>,
    pub categories: Map<u32, CategoryV>,
}

impl View for Store {
    type V = StoreV;

    open spec fn view(&self) -> StoreV {
        StoreV {
            header: self.header@,
            properties: deep_map(self.properties@),
            categories: deep_map(self.categories@),
        }
    }
}

/// The record lists of every page of one chain, each page decoded by the
/// registered decoder for `T`, in chain order.
pub open spec fn spec_decode_pages<T: Block>(data: Seq<u8>, index: u32, metas: Seq<Meta>) -> Result<
    Seq<Seq<(u32, T::ItemV)>>,
    StoreError,
>
    decreases metas.len(),
{
    if metas.len() == 0 {
        Ok(Seq::empty())
    } else {
        match T::spec_entries(data, index as int * PAGE_SIZE as int, metas[0].logical_size as int) {
            Err(e) => Err(e),
            Ok(es) => match spec_decode_pages::<T>(
                data,
                metas[0].next_block_index,
                metas.drop_first(),
            ) {
                Err(e) => Err(e),
                Ok(rest) => Ok(seq![es] + rest),
            },
        }
    }
}

/// Walking the chain rooted at `root` and decoding each of its pages.
pub open spec fn spec_parse_blocks<T: Block>(data: Seq<u8>, root: u32) -> Result<
    Seq<Seq<(u32, T::ItemV)>>,
    StoreError,
> {
    match Meta::spec_read_chain(data, Some(T::block_type()), root) {
        Err(e) => Err(e),
        Ok(metas) => spec_decode_pages::<T>(data, root, metas),
    }
}

/// Folding one page's records into the accumulated map; an index that is
/// already present is a hard error, never a silent overwrite.
pub open spec fn spec_merge_entries<V>(es: Seq<(u32, V)>, acc: Map<u32, V>) -> Result<
    Map<u32, V>,
    StoreError,
>
    decreases es.len(),
{
    if es.len() == 0 {
        Ok(acc)
    } else if acc.contains_key(es[0].0) {
        Err(StoreError::DuplicateRecord)
    } else {
        spec_merge_entries(es.drop_first(), acc.insert(es[0].0, es[0].1))
    }
}

/// Folding a whole chain's pages into one record map.
pub open spec fn spec_merge_pages<V>(pages: Seq<Seq<(u32, V)>>, acc: Map<u32, V>) -> Result<
    Map<u32, V>,
    StoreError,
>
    decreases pages.len(),
{
    if pages.len() == 0 {
        Ok(acc)
    } else {
        match spec_merge_entries(pages[0], acc) {
            Err(e) => Err(e),
            Ok(acc2) => spec_merge_pages(pages.drop_first(), acc2),
        }
    }
}

/// The merged record map of the chain rooted at `root`.
pub open spec fn spec_kind_map<T: Block>(data: Seq<u8>, root: u32) -> Result<
    Map<u32, T::ItemV>,
    StoreError,
> {
    match spec_parse_blocks::<T>(data, root) {
        Err(e) => Err(e),
        Ok(pages) => spec_merge_pages(pages, Map::empty()),
    }
}

/// What decoding a whole container yields: the header, then the property,
/// category and item-kind chains in that order, each walked, decoded and
/// merged; the item-kind records are checked but not kept.
pub open spec fn spec_store(data: Seq<u8>) -> Result<StoreV, StoreError> {
    match spec_header(data) {
        Err(e) => Err(e),
        Ok(h) => match spec_kind_map::<PropertyBlock>(data, h.property_index) {
            Err(e) => Err(e),
            Ok(props) => match spec_kind_map::<CategoryBlock>(data, h.category_index) {
                Err(e) => Err(e),
                Ok(cats) => match spec_kind_map::<IndexBlock>(data, h.item_kind_index) {
                    Err(e) => Err(e),
                    Ok(_) => Ok(StoreV { header: h, properties: props, categories: cats }),
                },
            },
        },
    }
}

impl Store {
    /// Decodes a whole container from its bytes.
    pub fn read_from(data: &[u8]) -> (r: Result<Store, StoreError>)
        ensures
            match r {
                Ok(s) => spec_store(data@) == Ok::<StoreV, StoreError>(s@),
                Err(e) => spec_store(data@) == Err::<StoreV, StoreError>(e),
            },
    {
        let header = match Header::read_from(data) {
            Ok(h) => h,
            Err(e) => {
                return Err(e);
            },
        };
        let property_blocks: Vec<PropertyBlock> = match Self::parse_blocks(
            data,
            header.property_index,
        ) {
            Ok(v) => v,
            Err(e) => {
                return Err(e);
            },
        };
        proof {
            if let Ok(pages) = spec_parse_blocks::<PropertyBlock>(data@, header.property_index) {
                assert(property_blocks@.map_values(|b: PropertyBlock| b.entries_view())
                    =~= pages);
            }
        }
        let properties = match merge_property_pages(&property_blocks) {
            Ok(m) => m,
            Err(e) => {
                return Err(e);
            },
        };
        let category_blocks: Vec<CategoryBlock> = match Self::parse_blocks(
            data,
            header.category_index,
        ) {
            Ok(v) => v,
            Err(e) => {
                return Err(e);
            },
        };
        proof {
            if let Ok(pages) = spec_parse_blocks::<CategoryBlock>(data@, header.category_index) {
                assert(category_blocks@.map_values(|b: CategoryBlock| b.entries_view())
                    =~= pages);
            }
        }
        let categories = match merge_category_pages(&category_blocks) {
            Ok(m) => m,
            Err(e) => {
                return Err(e);
            },
        };
        let item_kind_blocks: Vec<IndexBlock> = match Self::parse_blocks(
            data,
            header.item_kind_index,
        ) {
            Ok(v) => v,
            Err(e) => {
                return Err(e);
            },
        };
        proof {
            if let Ok(pages) = spec_parse_blocks::<IndexBlock>(data@, header.item_kind_index) {
                assert(item_kind_blocks@.map_values(|b: IndexBlock| b.entries_view()) =~= pages);
            }
        }
        match merge_index_pages(&item_kind_blocks) {
            Ok(_) => {},
            Err(e) => {
                return Err(e);
            },
        };
        Ok(Store { header, properties, categories })
    }

    /// Walks the chain rooted at `offset` and decodes every one of its
    /// pages with the decoder registered for `T`.
    fn parse_blocks<T: Block>(data: &[u8], offset: u32) -> (r: Result<Vec<T>, StoreError>)
        ensures
            match r {
                Ok(blocks) => match spec_parse_blocks::<T>(data@, offset) {
                    Ok(pages) => {
                        &&& pages.len() == blocks@.len()
                        &&& forall|j: int|
                            0 <= j < pages.len() ==> (#[trigger] blocks@[j]).entries_view()
                                == pages[j]
                        &&& forall|j: int|
                            0 <= j < pages.len() ==> (#[trigger] blocks@[j]).data_map()
                                == map_of_entries(pages[j])
                    },
                    Err(_) => false,
                },
                Err(e) => spec_parse_blocks::<T>(data@, offset) == Err::<
                    Seq<Seq<(u32, T::ItemV)>>,
                    StoreError,
                >(e),
            },
    {
        let metas = match Meta::read_chain(data, Some(T::block_type_exec()), offset) {
            Ok(m) => m,
            Err(e) => {
                return Err(e);
            },
        };
        let mut blocks: Vec<T> = Vec::new();
        let mut idx: u32 = offset;
        let mut i: usize = 0;
        proof {
            assert(metas@.skip(0) =~= metas@);
            if let Ok(rest) = spec_decode_pages::<T>(data@, idx, metas@) {
                assert(blocks@.map_values(|b: T| b.entries_view()) + rest =~= rest);
            }
        }
        while i < metas.len()
            invariant
                i <= metas@.len(),
                blocks@.len() == i,
                Meta::spec_read_chain(data@, Some(T::block_type()), offset) == Ok::<
                    Seq<Meta>,
                    StoreError,
                >(metas@),
                idx == (if i == 0 {
                    offset
                } else {
                    metas@[i - 1].next_block_index
                }),
                forall|j: int|
                    0 <= j < i ==> (#[trigger] blocks@[j]).data_map() == map_of_entries(
                        blocks@[j].entries_view(),
                    ),
                spec_decode_pages::<T>(data@, offset, metas@) == pages_append::<T::ItemV>(
                    blocks@.map_values(|b: T| b.entries_view()),
                    spec_decode_pages::<T>(data@, idx, metas@.skip(i as int)),
                ),
            decreases metas@.len() - i,
        {
            let m = metas[i];
            proof {
                assert(metas@.skip(i as int)[0] == metas@[i as int]);
            }
            let b = match T::from_meta(data, (idx as u64) * PAGE_SIZE, m) {
                Ok(b) => b,
                Err(e) => {
                    return Err(e);
                },
            };
            let ghost blocks0 = blocks@;
            let ghost idx0 = idx;
            blocks.push(b);
            idx = m.next_block_index;
            i = i + 1;
            proof {
                let done0 = blocks0.map_values(|bb: T| bb.entries_view());
                let done = blocks@.map_values(|bb: T| bb.entries_view());
                assert(done =~= done0.push(b.entries_view()));
                assert(metas@.skip(i - 1).drop_first() =~= metas@.skip(i as int));
                if let Ok(rest) = spec_decode_pages::<T>(data@, idx, metas@.skip(i as int)) {
                    assert(done0 + (seq![b.entries_view()] + rest) =~= done + rest);
                }
            }
        }
        proof {
            assert(metas@.skip(metas@.len() as int) =~= Seq::<Meta>::empty());
            let done = blocks@.map_values(|bb: T| bb.entries_view());
            assert(done + Seq::<Seq<(u32, T::ItemV)>>::empty() =~= done);
        }
        Ok(blocks)
    }
}

/// Merges every property page's records into one map, refusing an index
/// that occurs twice anywhere in the chain.
#[verifier::loop_isolation(false)]
fn merge_property_pages(blocks: &Vec<PropertyBlock>) -> (r: Result<
    HashMap<u32, Property>,
    StoreError,
>)
    ensures
        ({
            let pages = blocks@.map_values(|b: PropertyBlock| b.entries_view());
            match r {
                Ok(m) => spec_merge_pages(pages, Map::empty()) == Ok::<
                    Map<u32, PropertyV>,
                    StoreError,
                >(deep_map(m@)),
                Err(e) => spec_merge_pages(pages, Map::empty()) == Err::<
                    Map<u32, PropertyV>,
                    StoreError,
                >(e),
            }
        }),
{
    let ghost pages = blocks@.map_values(|b: PropertyBlock| b.entries_view());
    let mut map: HashMap<u32, Property> = HashMap::new();
    let mut i: usize = 0;
    proof {
        assert(deep_map(map@) =~= Map::<u32, PropertyV>::empty());
        assert(pages.skip(0) =~= pages);
    }
    while i < blocks.len()
        invariant
            i <= blocks@.len(),
            spec_merge_pages(pages, Map::empty()) == spec_merge_pages(
                pages.skip(i as int),
                deep_map(map@),
            ),
        decreases blocks@.len() - i,
    {
        let list = blocks[i].record_list();
        let ghost es = blocks@[i as int].entries_view();
        proof {
            assert(pages.skip(i as int)[0] == es);
            assert(pages.skip(i as int).drop_first() =~= pages.skip(i + 1));
            assert(es.skip(0) =~= es);
            assert(es.len() == list@.len());
        }
        let mut j: usize = 0;
        while j < list.len()
            invariant
                j <= list@.len(),
                es == deep_entries(list@),
                es.len() == list@.len(),
                spec_merge_pages(pages, Map::empty()) == (match spec_merge_entries(
                    es.skip(j as int),
                    deep_map(map@),
                ) {
                    Err(e) => Err::<Map<u32, PropertyV>, StoreError>(e),
                    Ok(a) => spec_merge_pages(pages.skip(i + 1), a),
                }),
            decreases list@.len() - j,
        {
            proof {
                assert(es.skip(j as int)[0] == es[j as int]);
                assert(es.skip(j as int).drop_first() =~= es.skip(j + 1));
            }
            let pair = &list[j];
            let k = pair.0;
            if map.contains_key(&k) {
                return Err(StoreError::DuplicateRecord);
            }
            let ghost map0 = map@;
            map.insert(k, pair.1.clone_record());
            proof {
                assert(deep_map(map@) =~= deep_map(map0).insert(k, list@[j as int].1@));
            }
            j = j + 1;
        }
        proof {
            assert(es.skip(es.len() as int) =~= Seq::<(u32, PropertyV)>::empty());
        }
        i = i + 1;
    }
    proof {
        assert(pages.skip(pages.len() as int) =~= Seq::<Seq<(u32, PropertyV)>>::empty());
    }
    Ok(map)
}

/// Merges every category page's records into one map, refusing an index
/// that occurs twice anywhere in the chain.
#[verifier::loop_isolation(false)]
fn merge_category_pages(blocks: &Vec<CategoryBlock>) -> (r: Result<
    HashMap<u32, Category>,
    StoreError,
>)
    ensures
        ({
            let pages = blocks@.map_values(|b: CategoryBlock| b.entries_view());
            match r {
                Ok(m) => spec_merge_pages(pages, Map::empty()) == Ok::<
                    Map<u32, CategoryV>,
                    StoreError,
                >(deep_map(m@)),
                Err(e) => spec_merge_pages(pages, Map::empty()) == Err::<
                    Map<u32, CategoryV>,
                    StoreError,
                >(e),
            }
        }),
{
    let ghost pages = blocks@.map_values(|b: CategoryBlock| b.entries_view());
    let mut map: HashMap<u32, Category> = HashMap::new();
    let mut i: usize = 0;
    proof {
        assert(deep_map(map@) =~= Map::<u32, CategoryV>::empty());
        assert(pages.skip(0) =~= pages);
    }
    while i < blocks.len()
        invariant
            i <= blocks@.len(),
            spec_merge_pages(pages, Map::empty()) == spec_merge_pages(
                pages.skip(i as int),
                deep_map(map@),
            ),
        decreases blocks@.len() - i,
    {
        let list = blocks[i].record_list();
        let ghost es = blocks@[i as int].entries_view();
        proof {
            assert(pages.skip(i as int)[0] == es);
            assert(pages.skip(i as int).drop_first() =~= pages.skip(i + 1));
            assert(es.skip(0) =~= es);
            assert(es.len() == list@.len());
        }
        let mut j: usize = 0;
        while j < list.len()
            invariant
                j <= list@.len(),
                es == deep_entries(list@),
                es.len() == list@.len(),
                spec_merge_pages(pages, Map::empty()) == (match spec_merge_entries(
                    es.skip(j as int),
                    deep_map(map@),
                ) {
                    Err(e) => Err::<Map<u32, CategoryV>, StoreError>(e),
                    Ok(a) => spec_merge_pages(pages.skip(i + 1), a),
                }),
            decreases list@.len() - j,
        {
            proof {
                assert(es.skip(j as int)[0] == es[j as int]);
                assert(es.skip(j as int).drop_first() =~= es.skip(j + 1));
            }
            let pair = &list[j];
            let k = pair.0;
            if map.contains_key(&k) {
                return Err(StoreError::DuplicateRecord);
            }
            let ghost map0 = map@;
            map.insert(k, pair.1.clone_record());
            proof {
                assert(deep_map(map@) =~= deep_map(map0).insert(k, list@[j as int].1@));
            }
            j = j + 1;
        }
        proof {
            assert(es.skip(es.len() as int) =~= Seq::<(u32, CategoryV)>::empty());
        }
        i = i + 1;
    }
    proof {
        assert(pages.skip(pages.len() as int) =~= Seq::<Seq<(u32, CategoryV)>>::empty());
    }
    Ok(map)
}

/// Merges every index page's records into one map, refusing an index that
/// occurs twice anywhere in the chain.
#[verifier::loop_isolation(false)]
fn merge_index_pages(blocks: &Vec<IndexBlock>) -> (r: Result<HashMap<u32, Category>, StoreError>)
    ensures
        ({
            let pages = blocks@.map_values(|b: IndexBlock| b.entries_view());
            match r {
                Ok(m) => spec_merge_pages(pages, Map::empty()) == Ok::<
                    Map<u32, CategoryV>,
                    StoreError,
                >(deep_map(m@)),
                Err(e) => spec_merge_pages(pages, Map::empty()) == Err::<
                    Map<u32, CategoryV>,
                    StoreError,
                >(e),
            }
        }),
{
    let ghost pages = blocks@.map_values(|b: IndexBlock| b.entries_view());
    let mut map: HashMap<u32, Category> = HashMap::new();
    let mut i: usize = 0;
    proof {
        assert(deep_map(map@) =~= Map::<u32, CategoryV>::empty());
        assert(pages.skip(0) =~= pages);
    }
    while i < blocks.len()
        invariant
            i <= blocks@.len(),
            spec_merge_pages(pages, Map::empty()) == spec_merge_pages(
                pages.skip(i as int),
                deep_map(map@),
            ),
        decreases blocks@.len() - i,
    {
        let list = blocks[i].record_list();
        let ghost es = blocks@[i as int].entries_view();
        proof {
            assert(pages.skip(i as int)[0] == es);
            assert(pages.skip(i as int).drop_first() =~= pages.skip(i + 1));
            assert(es.skip(0) =~= es);
            assert(es.len() == list@.len());
        }
        let mut j: usize = 0;
        while j < list.len()
            invariant
                j <= list@.len(),
                es == deep_entries(list@),
                es.len() == list@.len(),
                spec_merge_pages(pages, Map::empty()) == (match spec_merge_entries(
                    es.skip(j as int),
                    deep_map(map@),
                ) {
                    Err(e) => Err::<Map<u32, CategoryV>, StoreError>(e),
                    Ok(a) => spec_merge_pages(pages.skip(i + 1), a),
                }),
            decreases list@.len() - j,
        {
            proof {
                assert(es.skip(j as int)[0] == es[j as int]);
                assert(es.skip(j as int).drop_first() =~= es.skip(j + 1));
            }
            let pair = &list[j];
            let k = pair.0;
            if map.contains_key(&k) {
                return Err(StoreError::DuplicateRecord);
            }
            let ghost map0 = map@;
            map.insert(k, pair.1.clone_record());
            proof {
                assert(deep_map(map@) =~= deep_map(map0).insert(k, list@[j as int].1@));
            }
            j = j + 1;
        }
        proof {
            assert(es.skip(es.len() as int) =~= Seq::<(u32, CategoryV)>::empty());
        }
        i = i + 1;
    }
    proof {
        assert(pages.skip(pages.len() as int) =~= Seq::<Seq<(u32, CategoryV)>>::empty());
    }
    Ok(map)
}

/// A record fold that succeeds took only indices that were fresh: none was
/// in the accumulator, no two of the page's own indices coincide, and the
/// result holds exactly the old and the new indices.
pub proof fn lemma_merge_entries_ok<V>(es: Seq<(u32, V)>, acc: Map<u32, V>)
    requires
        spec_merge_entries(es, acc) is Ok,
    ensures
        forall|j: int, l: int| 0 <= j < l < es.len() ==> es[j].0 != es[l].0,
        forall|j: int| 0 <= j < es.len() ==> !acc.contains_key((#[trigger] es[j]).0),
        spec_merge_entries(es, acc)->Ok_0.dom() == acc.dom() + Set::new(
            |k: u32| crate::block::has_index(es, k),
        ),
    decreases es.len(),
{
    if es.len() == 0 {
        assert(acc.dom() + Set::new(|k: u32| crate::block::has_index(es, k)) =~= acc.dom());
    } else {
        let acc2 = acc.insert(es[0].0, es[0].1);
        assert(spec_merge_entries(es, acc) == spec_merge_entries(es.drop_first(), acc2));
        lemma_merge_entries_ok(es.drop_first(), acc2);
        assert forall|j: int, l: int| 0 <= j < l < es.len() implies es[j].0 != es[l].0 by {
            if j == 0 {
                assert(!acc2.contains_key(es.drop_first()[l - 1].0));
            } else {
                assert(es.drop_first()[j - 1].0 != es.drop_first()[l - 1].0);
            }
        }
        assert forall|j: int| 0 <= j < es.len() implies !acc.contains_key(
            (#[trigger] es[j]).0,
        ) by {
            if j > 0 {
                assert(!acc2.contains_key(es.drop_first()[j - 1].0));
            }
        }
        let s_all = Set::new(|k: u32| crate::block::has_index(es, k));
        let s_rest = Set::new(|k: u32| crate::block::has_index(es.drop_first(), k));
        assert forall|k: u32| crate::block::has_index(es, k) implies (crate::block::has_index(
            es.drop_first(),
            k,
        ) || k == es[0].0) by {
            let j = choose|j: int| 0 <= j < es.len() && es[j].0 == k;
            if j > 0 {
                assert(es.drop_first()[j - 1].0 == k);
            }
        }
        assert forall|k: u32| crate::block::has_index(es.drop_first(), k) implies
            crate::block::has_index(es, k) by {
            let j = choose|j: int| 0 <= j < es.drop_first().len() && es.drop_first()[j].0 == k;
            assert(es[j + 1].0 == k);
        }
        assert(es[0].0 == es[0].0 && crate::block::has_index(es, es[0].0));
        assert(s_all =~= s_rest.insert(es[0].0));
        assert(acc2.dom() =~= acc.dom().insert(es[0].0));
        assert(acc2.dom() + s_rest =~= acc.dom() + s_all);
    }
}

/// A chain merge that succeeds proves that no record index occurs on two
/// different pages, and none was in the accumulator to begin with: a
/// duplicate anywhere makes the merge fail instead.
pub proof fn lemma_merge_pages_disjoint<V>(pages: Seq<Seq<(u32, V)>>, acc: Map<u32, V>)
    requires
        spec_merge_pages(pages, acc) is Ok,
    ensures
        forall|b: int, l: int|
            0 <= b < pages.len() && 0 <= l < pages[b].len() ==> !acc.contains_key(
                (#[trigger] pages[b][l]).0,
            ),
        forall|a: int, b: int, j: int, l: int|
            0 <= a < b < pages.len() && 0 <= j < pages[a].len() && 0 <= l < pages[b].len()
                ==> (#[trigger] pages[a][j]).0 != (#[trigger] pages[b][l]).0,
    decreases pages.len(),
{
    if pages.len() > 0 {
        assert(spec_merge_entries(pages[0], acc) is Ok);
        let acc2 = spec_merge_entries(pages[0], acc)->Ok_0;
        assert(spec_merge_pages(pages, acc) == spec_merge_pages(pages.drop_first(), acc2));
        lemma_merge_entries_ok(pages[0], acc);
        lemma_merge_pages_disjoint(pages.drop_first(), acc2);
        assert forall|b: int, l: int|
            0 <= b < pages.len() && 0 <= l < pages[b].len() implies !acc.contains_key(
            (#[trigger] pages[b][l]).0,
        ) by {
            if b == 0 {
                assert(!acc.contains_key(pages[0][l].0));
            } else {
                let x = pages.drop_first()[b - 1][l].0;
                assert(pages[b][l].0 == x);
                assert(!acc2.contains_key(x));
                if acc.contains_key(x) {
                    assert(acc2.contains_key(x));
                }
            }
        }
        assert forall|a: int, b: int, j: int, l: int|
            0 <= a < b < pages.len() && 0 <= j < pages[a].len() && 0 <= l < pages[b].len() implies (
        #[trigger] pages[a][j]).0 != (#[trigger] pages[b][l]).0 by {
            if a == 0 {
                assert(pages[0][j].0 == pages[0][j].0 && crate::block::has_index(
                    pages[0],
                    pages[0][j].0,
                ));
                assert(acc2.contains_key(pages[0][j].0));
                assert(!acc2.contains_key(pages.drop_first()[b - 1][l].0));
            } else {
                assert(pages.drop_first()[a - 1][j].0 != pages.drop_first()[b - 1][l].0);
            }
        }
    }
}

/// Prepends already-decoded pages to the outcome of decoding the rest.
pub open spec fn pages_append<V>(
    prefix: Seq<Seq<(u32, V)>>,
    r: Result<Seq<Seq<(u32, V)>>, StoreError>,
) -> Result<Seq<Seq<(u32, V)>>, StoreError> {
    match r {
        Ok(rest) => Ok(prefix + rest),
        Err(e) => Err(e),
    }
}

} // verus!
