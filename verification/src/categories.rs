use std::collections::HashMap;
use vstd::prelude::*;
use vstd::utf8::{decode_utf8, valid_utf8};

use crate::block::{
    deep_entries, deep_map, has_index, lemma_has_index_push, lemma_map_of_entries_push,
    map_of_entries, Block,
};
use crate::bytes::{le32_at, lemma_nul_len_some, nul_len, read_zero_terminated};
use crate::error::StoreError;
use crate::meta::{le32_field, Meta, Type};

verus! {

broadcast use vstd::std_specs::hash::group_hash_axioms;

/// One category record: a name, and a language tag where the raw text
/// carried one after the two-character separator.
#[derive(Debug, Clone, PartialEq, Eq)]
pub struct Category {
    pub name: String,
    pub lang: Option<String>,
}

/// The mathematical image of a category record.
pub struct CategoryV {
    pub name: Seq<char>,
    pub lang: Option<Seq<char>>,
}

impl View for Category {
    type V = CategoryV;

    open spec fn view(&self) -> CategoryV {
        CategoryV {
            name: self.name@,
            lang: match self.lang {
                Some(l) => Some(l@),
                None => None,
            },
        }
    }
}

/// The position of the first separator pair at or after `i`: the character
/// U+0016 followed immediately by U+0002.
pub open spec fn sep_pos_from(s: Seq<char>, i: int) -> Option<int>
    decreases s.len() - i,
{
    if i < 0 || i + 1 >= s.len() {
        None
    } else if s[i] == '\u{16}' && s[i + 1] == '\u{2}' {
        Some(i)
    } else {
        sep_pos_from(s, i + 1)
    }
}

/// What a found separator position means.
pub proof fn lemma_sep_pos_some(s: Seq<char>, i: int)
    requires
        sep_pos_from(s, i) is Some,
    ensures
        i <= sep_pos_from(s, i)->0,
        sep_pos_from(s, i)->0 + 1 < s.len(),
        s[sep_pos_from(s, i)->0] == '\u{16}',
        s[sep_pos_from(s, i)->0 + 1] == '\u{2}',
    decreases s.len() - i,
{
    if !(i < 0 || i + 1 >= s.len()) && !(s[i] == '\u{16}' && s[i + 1] == '\u{2}') {
        lemma_sep_pos_some(s, i + 1);
    }
}

/// How a raw category text splits: the name runs to the first separator; the
/// language tag, if a separator exists, runs from there to the next
/// separator or the end; any further parts are discarded.
pub open spec fn spec_split_name(s: Seq<char>) -> (Seq<char>, Option<Seq<char>>) {
    match sep_pos_from(s, 0) {
        None => (s, None),
        Some(k) => {
            let rest = s.subrange(k + 2, s.len() as int);
            match sep_pos_from(rest, 0) {
                None => (s.subrange(0, k), Some(rest)),
                Some(j) => (s.subrange(0, k), Some(rest.subrange(0, j))),
            }
        },
    }
}

/// Finds the first separator pair at or after `from`.
fn find_separator(s: &str, from: usize) -> (r: Option<usize>)
    requires
        from <= s@.len(),
    ensures
        match r {
            Some(k) => sep_pos_from(s@, from as int) == Some(k as int),
            None => sep_pos_from(s@, from as int) is None,
        },
{
    let n = s.unicode_len();
    let mut i = from;
    while i < n && i + 1 < n
        invariant
            from <= i <= n == s@.len(),
            sep_pos_from(s@, from as int) == sep_pos_from(s@, i as int),
        decreases n - i,
    {
        if s.get_char(i) == '\u{16}' && s.get_char(i + 1) == '\u{2}' {
            return Some(i);
        }
        i = i + 1;
    }
    None
}

/// Splits a raw category text into its name and optional language tag.
pub fn split_category_text(s: &str) -> (r: (String, Option<String>))
    ensures
        r.0@ == spec_split_name(s@).0,
        match (r.1, spec_split_name(s@).1) {
            (Some(got), Some(want)) => got@ == want,
            (None, None) => true,
            _ => false,
        },
{
    let n = s.unicode_len();
    match find_separator(s, 0) {
        None => (s.to_owned(), None),
        Some(k) => {
            proof {
                lemma_sep_pos_some(s@, 0);
            }
            let name = s.substring_char(0, k).to_owned();
            let rest = s.substring_char(k + 2, n);
            match find_separator(rest, 0) {
                None => (name, Some(rest.to_owned())),
                Some(j) => {
                    proof {
                        lemma_sep_pos_some(rest@, 0);
                    }
                    (name, Some(rest.substring_char(0, j).to_owned()))
                },
            }
        },
    }
}

/// What decoding one category record at absolute offset `pos` yields: its
/// index, the split record, and the bytes consumed — a 4-byte index, then a
/// zero-terminated text field.
pub open spec fn spec_category_record(data: Seq<u8>, pos: int) -> Result<
    (u32, CategoryV, nat),
    StoreError,
> {
    if pos + 4 > data.len() {
        Err(StoreError::UnexpectedEof)
    } else {
        match nul_len(data, pos + 4) {
            None => Err(StoreError::UnexpectedEof),
            Some(k) => {
                let name_bytes = data.subrange(pos + 4, pos + 4 + k);
                if !valid_utf8(name_bytes) {
                    Err(StoreError::InvalidText)
                } else {
                    let split = spec_split_name(decode_utf8(name_bytes));
                    Ok(
                        (
                            le32_at(data, pos),
                            CategoryV { name: split.0, lang: split.1 },
                            (5 + k) as nat,
                        ),
                    )
                }
            },
        }
    }
}

/// The records of a category-shaped page from relative offset `rel` on,
/// read while the offset lies below the page's logical size, each index
/// fresh.
pub open spec fn spec_category_entries(
    data: Seq<u8>,
    page: int,
    rel: int,
    logical: int,
    acc: Seq<(u32, CategoryV)>,
) -> Result<Seq<(u32, CategoryV)>, StoreError>
    decreases
            (if rel < logical {
                logical - rel
            } else {
                0
            }),
{
    if rel >= logical {
        Ok(acc)
    } else {
        match spec_category_record(data, page + rel) {
            Err(e) => Err(e),
            Ok(rec) => if has_index(acc, rec.0) {
                Err(StoreError::DuplicateRecord)
            } else {
                spec_category_entries(data, page, rel + rec.2, logical, acc.push((rec.0, rec.1)))
            },
        }
    }
}

proof fn lemma_category_entries_unique_gen(
    data: Seq<u8>,
    page: int,
    rel: int,
    logical: int,
    acc: Seq<(u32, CategoryV)>,
)
    requires
        spec_category_entries(data, page, rel, logical, acc) is Ok,
        forall|j: int, l: int| 0 <= j < l < acc.len() ==> acc[j].0 != acc[l].0,
    ensures
        ({
            let es = spec_category_entries(data, page, rel, logical, acc)->Ok_0;
            forall|j: int, l: int| 0 <= j < l < es.len() ==> es[j].0 != es[l].0
        }),
    decreases
            (if rel < logical {
                logical - rel
            } else {
                0
            }),
{
    if rel < logical {
        let rec = spec_category_record(data, page + rel)->Ok_0;
        let acc2 = acc.push((rec.0, rec.1));
        assert forall|j: int, l: int| 0 <= j < l < acc2.len() implies acc2[j].0 != acc2[l].0 by {
            if l == acc.len() {
                assert(!has_index(acc, rec.0));
                assert(acc[j].0 != rec.0);
            }
        }
        lemma_category_entries_unique_gen(data, page, rel + rec.2, logical, acc2);
    }
}

/// Within one category or index page, decoding only succeeds when every
/// record carries a distinct index: a duplicate makes it fail instead.
pub proof fn lemma_category_page_unique(data: Seq<u8>, page: int, logical: int)
    requires
        spec_category_entries(data, page, 32, logical, Seq::empty()) is Ok,
    ensures
        ({
            let es = spec_category_entries(data, page, 32, logical, Seq::empty())->Ok_0;
            forall|j: int, l: int| 0 <= j < l < es.len() ==> es[j].0 != es[l].0
        }),
{
    lemma_category_entries_unique_gen(data, page, 32, logical, Seq::empty());
}

/// The wire form of one raw category record: its index little-endian, the
/// raw text bytes, and the terminator.
pub open spec fn spec_encode_category_record(r: (u32, Seq<u8>)) -> Seq<u8> {
    crate::bytes::le32_bytes(r.0) + r.1 + seq![0u8]
}

/// The wire form of a whole record list, in order.
pub open spec fn spec_encode_category_records(rs: Seq<(u32, Seq<u8>)>) -> Seq<u8>
    decreases rs.len(),
{
    if rs.len() == 0 {
        Seq::empty()
    } else {
        spec_encode_category_record(rs[0]) + spec_encode_category_records(rs.drop_first())
    }
}

/// The decoded image that a raw record list denotes: each text decoded and
/// split into name and language.
pub open spec fn spec_category_views(rs: Seq<(u32, Seq<u8>)>) -> Seq<(u32, CategoryV)>
    decreases rs.len(),
{
    if rs.len() == 0 {
        Seq::empty()
    } else {
        seq![
            (
                rs[0].0,
                CategoryV {
                    name: spec_split_name(decode_utf8(rs[0].1)).0,
                    lang: spec_split_name(decode_utf8(rs[0].1)).1,
                },
            ),
        ] + spec_category_views(rs.drop_first())
    }
}

/// A record list that the wire layout can carry: every text is NUL-free,
/// well-formed, and no index repeats.
pub open spec fn wf_category_raws(rs: Seq<(u32, Seq<u8>)>) -> bool {
    &&& forall|i: int|
        0 <= i < rs.len() ==> valid_utf8((#[trigger] rs[i]).1) && (forall|j: int|
            0 <= j < rs[i].1.len() ==> rs[i].1[j] != 0)
    &&& forall|i: int, j: int| 0 <= i < j < rs.len() ==> rs[i].0 != rs[j].0
}

proof fn lemma_category_round_trip_gen(
    data: Seq<u8>,
    page: int,
    rel: int,
    logical: int,
    rs: Seq<(u32, Seq<u8>)>,
    acc: Seq<(u32, CategoryV)>,
)
    requires
        0 <= page,
        32 <= rel,
        logical == rel + spec_encode_category_records(rs).len(),
        page + logical <= data.len(),
        data.subrange(page + rel, page + logical) == spec_encode_category_records(rs),
        wf_category_raws(rs),
        forall|i: int| 0 <= i < rs.len() ==> !has_index(acc, (#[trigger] rs[i]).0),
    ensures
        spec_category_entries(data, page, rel, logical, acc) == Ok::<
            Seq<(u32, CategoryV)>,
            StoreError,
        >(acc + spec_category_views(rs)),
    decreases rs.len(),
{
    let enc = spec_encode_category_records(rs);
    if rs.len() == 0 {
        assert(acc + spec_category_views(rs) =~= acc);
    } else {
        let r0 = rs[0];
        let pos = page + rel;
        let k = r0.1.len() as int;
        let enc0 = spec_encode_category_record(r0);
        let rest_enc = spec_encode_category_records(rs.drop_first());
        assert(enc == enc0 + rest_enc);
        assert(enc0.len() == 5 + k);
        assert forall|i: int| 0 <= i < enc.len() implies data[pos + i] == enc[i] by {
            assert(data.subrange(page + rel, page + logical)[i] == data[pos + i]);
        }
        assert(data.subrange(pos, pos + 4) =~= crate::bytes::le32_bytes(r0.0));
        crate::bytes::lemma_le32_round_trip(data, pos, r0.0);
        assert forall|j: int| #![trigger r0.1[j]] 0 <= j < k implies data[pos + 4 + j] == r0.1[j]
            && r0.1[j] != 0 by {
            assert(data[pos + 4 + j] == enc[4 + j]);
            assert(enc[4 + j] == enc0[4 + j]);
            assert(enc0[4 + j] == r0.1[j]);
            assert(rs[0].1[j] != 0);
        }
        assert(data[pos + 4 + k] == 0) by {
            assert(data[pos + 4 + k] == enc[4 + k]);
            assert(enc[4 + k] == enc0[4 + k]);
            assert(enc0[4 + k] == 0);
        }
        assert forall|j: int| pos + 4 <= j < pos + 4 + k implies data[j] != 0 by {
            let jj = j - (pos + 4);
            assert(0 <= jj < k);
            assert(r0.1[jj] != 0 && data[pos + 4 + jj] == r0.1[jj]);
            assert(pos + 4 + jj == j);
        }
        crate::bytes::lemma_nul_len_found(data, pos + 4, pos + 4 + k);
        assert(data.subrange(pos + 4, pos + 4 + k) =~= r0.1);
        let split = spec_split_name(decode_utf8(r0.1));
        let e0 = (r0.0, CategoryV { name: split.0, lang: split.1 });
        assert(spec_category_record(data, pos) == Ok::<(u32, CategoryV, nat), StoreError>(
            (e0.0, e0.1, (5 + k) as nat),
        ));
        assert(!has_index(acc, r0.0));
        let acc2 = acc.push(e0);
        assert(data.subrange(page + (rel + 5 + k), page + logical) =~= rest_enc) by {
            assert forall|i: int| 0 <= i < rest_enc.len() implies data[page + rel + 5 + k + i]
                == rest_enc[i] by {
                assert(enc[5 + k + i] == rest_enc[i]);
            }
        }
        assert forall|i: int| 0 <= i < rs.drop_first().len() implies !has_index(
            acc2,
            (#[trigger] rs.drop_first()[i]).0,
        ) by {
            assert(rs.drop_first()[i] == rs[i + 1]);
            lemma_has_index_push(acc, e0, rs[i + 1].0);
        }
        lemma_category_round_trip_gen(data, page, rel + 5 + k, logical, rs.drop_first(), acc2);
        assert(acc2 + spec_category_views(rs.drop_first()) =~= acc + spec_category_views(rs));
    }
}

/// Encoding any well-formed record list into the page wire layout and
/// decoding it again reproduces exactly those records, index by index; the
/// layout is the one that category and index pages share.
pub proof fn lemma_category_round_trip(data: Seq<u8>, page: int, rs: Seq<(u32, Seq<u8>)>)
    requires
        0 <= page,
        page + 32 + spec_encode_category_records(rs).len() <= data.len(),
        data.subrange(page + 32, page + 32 + spec_encode_category_records(rs).len() as int)
            == spec_encode_category_records(rs),
        wf_category_raws(rs),
    ensures
        spec_category_entries(
            data,
            page,
            32,
            32 + spec_encode_category_records(rs).len() as int,
            Seq::empty(),
        ) == Ok::<Seq<(u32, CategoryV)>, StoreError>(spec_category_views(rs)),
{
    let logical = 32 + spec_encode_category_records(rs).len() as int;
    lemma_category_round_trip_gen(data, page, 32, logical, rs, Seq::empty());
    assert(Seq::empty() + spec_category_views(rs) =~= spec_category_views(rs));
}

/// Decodes the record stream of one category-shaped page; the same wire
/// layout serves both category and index pages.
#[verifier::loop_isolation(false)]
pub(crate) fn decode_category_page(data: &[u8], page_offset: u64, logical_size: u32) -> (r: Result<
    (HashMap<u32, Category>, Vec<(u32, Category)>),
    StoreError,
>)
    ensures
        match r {
            Ok(p) => {
                &&& spec_category_entries(
                    data@,
                    page_offset as int,
                    32,
                    logical_size as int,
                    Seq::empty(),
                ) == Ok::<Seq<(u32, CategoryV)>, StoreError>(deep_entries(p.1@))
                &&& deep_map(p.0@) == map_of_entries(deep_entries(p.1@))
            },
            Err(e) => spec_category_entries(
                data@,
                page_offset as int,
                32,
                logical_size as int,
                Seq::empty(),
            ) == Err::<Seq<(u32, CategoryV)>, StoreError>(e),
        },
{
    let n = data.len() as u64;
    let logical = logical_size as u64;
    let mut map: HashMap<u32, Category> = HashMap::new();
    let mut entries: Vec<(u32, Category)> = Vec::new();
    let mut pos: u64 = 32;
    proof {
        assert(deep_entries(entries@) =~= Seq::<(u32, CategoryV)>::empty());
        assert(deep_map(map@) =~= map_of_entries(deep_entries(entries@)));
    }
    while pos < logical
        invariant
            32 <= pos,
            spec_category_entries(data@, page_offset as int, 32, logical as int, Seq::empty())
                == spec_category_entries(
                data@,
                page_offset as int,
                pos as int,
                logical as int,
                deep_entries(entries@),
            ),
            deep_map(map@) == map_of_entries(deep_entries(entries@)),
            forall|i: u32|
                #[trigger] map@.contains_key(i) == has_index(deep_entries(entries@), i),
        decreases
                (if pos < logical {
                    logical - pos
                } else {
                    0
                }),
    {
        if n < 4 || page_offset > u64::MAX - 4 || pos > u64::MAX - 4 - page_offset || page_offset
            + pos > n - 4 {
            return Err(StoreError::UnexpectedEof);
        }
        let base = page_offset + pos;
        let idx = match le32_field(data, base, 0) {
            Ok(v) => v,
            Err(e) => {
                return Err(e);
            },
        };
        let text = match read_zero_terminated(data, (base + 4) as usize) {
            Ok(p) => p,
            Err(e) => {
                return Err(e);
            },
        };
        let (raw_name, text_len) = text;
        proof {
            lemma_nul_len_some(data@, base + 4);
        }
        let consumed: u64 = 4 + text_len as u64;
        if map.contains_key(&idx) {
            return Err(StoreError::DuplicateRecord);
        }
        let split = split_category_text(raw_name.as_str());
        let (name, lang) = split;
        let ghost entries0 = entries@;
        let ghost map0 = map@;
        let record = Category { name, lang };
        let ghost recv = record@;
        let record_copy = record.clone_record();
        entries.push((idx, record));
        map.insert(idx, record_copy);
        proof {
            let x = (idx, recv);
            assert(deep_entries(entries@) =~= deep_entries(entries0).push(x));
            lemma_map_of_entries_push(deep_entries(entries0), x);
            assert(deep_map(map@) =~= deep_map(map0).insert(idx, recv));
            assert forall|i: u32|
                #[trigger] map@.contains_key(i) == has_index(deep_entries(entries@), i) by {
                lemma_has_index_push(deep_entries(entries0), x, i);
            }
            assert(spec_category_record(data@, page_offset + pos) == Ok::<
                (u32, CategoryV, nat),
                StoreError,
            >((idx, recv, consumed as nat)));
        }
        pos = pos + consumed;
    }
    Ok((map, entries))
}

impl Category {
    /// A field-for-field copy of the record.
    pub(crate) fn clone_record(&self) -> (r: Category)
        ensures
            r == *self,
    {
        Category {
            name: self.name.clone(),
            lang: match &self.lang {
                Some(l) => Some(l.clone()),
                None => None,
            },
        }
    }
}

/// A category page's decoded records.
#[derive(Debug, Clone)]
pub struct CategoryBlock {
    pub data: HashMap<u32, Category>,
    entries: Vec<(u32, Category)>,
}

impl CategoryBlock {
    /// The decoded records in wire order, with their indices.
    pub fn record_list(&self) -> (r: &Vec<(u32, Category)>)
        ensures
            deep_entries(r@) == self.entries_view(),
    {
        &self.entries
    }
}

impl Block for CategoryBlock {
    type ItemV = CategoryV;

    open spec fn block_type() -> Type {
        Type::Category
    }

    open spec fn spec_entries(data: Seq<u8>, page: int, logical: int) -> Result<
        Seq<(u32, CategoryV)>,
        StoreError,
    > {
        spec_category_entries(data, page, 32, logical, Seq::empty())
    }

    closed spec fn entries_view(&self) -> Seq<(u32, CategoryV)> {
        deep_entries(self.entries@)
    }

    closed spec fn data_map(&self) -> Map<u32, CategoryV> {
        deep_map(self.data@)
    }

    fn block_type_exec() -> (t: Type) {
        Type::Category
    }

    fn from_meta(data: &[u8], page_offset: u64, meta: Meta) -> (r: Result<Self, StoreError>) {
        match decode_category_page(data, page_offset, meta.logical_size) {
            Ok(p) => {
                let (map, entries) = p;
                Ok(CategoryBlock { data: map, entries })
            },
            Err(e) => Err(e),
        }
    }
}

} // verus!
