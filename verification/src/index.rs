use std::collections::HashMap;
use vstd::prelude::*;

use crate::block::{deep_entries, deep_map, Block};
use crate::categories::{decode_category_page, spec_category_entries, Category, CategoryV};
use crate::error::StoreError;
use crate::meta::{Meta, Type};

verus! {

/// One index record. Index pages play a different semantic role than
/// category pages (they root the item-kind table) but share their wire
/// layout exactly, so their records carry the same fields.
#[derive(Debug, Clone, PartialEq, Eq)]
pub struct Index {
    pub name: String,
    pub lang: Option<String>,
}

/// An index page's decoded records.
#[derive(Debug, Clone)]
pub struct IndexBlock {
    pub data: HashMap<u32, Category>,
    entries: Vec<(u32, Category)>,
}

impl IndexBlock {
    /// The decoded records in wire order, with their indices.
    pub fn record_list(&self) -> (r: &Vec<(u32, Category)>)
        ensures
            deep_entries(r@) == self.entries_view(),
    {
        &self.entries
    }
}

impl Block for IndexBlock {
    type ItemV = CategoryV;

    open spec fn block_type() -> Type {
        Type::Index
    }

    open spec fn spec_entries(data: Seq<u8>, page: int, logical: int) -> Result<
        Seq<(u32, CategoryV)>,
        StoreError,
    > {
        spec_category_entries(data, page, 32, logical, Seq::empty())
    }

    closed spec fn entries_view(&self) -> Seq<(u32, CategoryV)> {
        deep_entries(self.entries@)
    }

    closed spec fn data_map(&self) -> Map<u32, CategoryV> {
        deep_map(self.data@)
    }

    fn block_type_exec() -> (t: Type) {
        Type::Index
    }

    fn from_meta(data: &[u8], page_offset: u64, meta: Meta) -> (r: Result<Self, StoreError>) {
        match decode_category_page(data, page_offset, meta.logical_size) {
            Ok(p) => {
                let (map, entries) = p;
                Ok(IndexBlock { data: map, entries })
            },
            Err(e) => Err(e),
        }
    }
}

} // verus!
