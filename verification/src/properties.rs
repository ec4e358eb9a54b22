use std::collections::HashMap;
use vstd::prelude::*;
use vstd::utf8::{decode_utf8, valid_utf8};

use crate::block::{
    deep_entries, deep_map, has_index, lemma_has_index_push, lemma_map_of_entries_push,
    map_of_entries, Block,
};
use crate::bytes::{le32_at, lemma_nul_len_some, nul_len, read_zero_terminated};
use crate::error::StoreError;
use crate::meta::{le32_field, u8_field, Meta, Type};

verus! {

broadcast use vstd::std_specs::hash::group_hash_axioms;

/// One property record: a name and two small type codes.
#[derive(Debug, Clone, PartialEq, Eq)]
pub struct Property {
    pub name: String,
    pub value_type: u8,
    pub prop_type: u8,
}

/// The mathematical image of a property record.
pub struct PropertyV {
    pub name: Seq<char>,
    pub value_type: u8,
    pub prop_type: u8,
}

impl View for Property {
    type V = PropertyV;

    open spec fn view(&self) -> PropertyV {
        PropertyV { name: self.name@, value_type: self.value_type, prop_type: self.prop_type }
    }
}

/// What decoding one property record at absolute offset `pos` yields: its
/// index, the record, and the bytes consumed — a 4-byte index, two type
/// bytes, then a zero-terminated name.
pub open spec fn spec_property_record(data: Seq<u8>, pos: int) -> Result<
    (u32, PropertyV, nat),
    StoreError,
> {
    if pos + 6 > data.len() {
        Err(StoreError::UnexpectedEof)
    } else {
        match nul_len(data, pos + 6) {
            None => Err(StoreError::UnexpectedEof),
            Some(k) => {
                let name_bytes = data.subrange(pos + 6, pos + 6 + k);
                if !valid_utf8(name_bytes) {
                    Err(StoreError::InvalidText)
                } else {
                    Ok(
                        (
                            le32_at(data, pos),
                            PropertyV {
                                name: decode_utf8(name_bytes),
                                value_type: data[pos + 4],
                                prop_type: data[pos + 5],
                            },
                            (7 + k) as nat,
                        ),
                    )
                }
            },
        }
    }
}

/// The records of a property page from relative offset `rel` on, read while
/// the offset lies below the page's logical size, each index fresh.
pub open spec fn spec_property_entries(
    data: Seq<u8>,
    page: int,
    rel: int,
    logical: int,
    acc: Seq<(u32, PropertyV)>,
) -> Result<Seq<(u32, PropertyV)>, StoreError>
    decreases
            (if rel < logical {
                logical - rel
            } else {
                0
            }),
{
    if rel >= logical {
        Ok(acc)
    } else {
        match spec_property_record(data, page + rel) {
            Err(e) => Err(e),
            Ok(rec) => if has_index(acc, rec.0) {
                Err(StoreError::DuplicateRecord)
            } else {
                spec_property_entries(data, page, rel + rec.2, logical, acc.push((rec.0, rec.1)))
            },
        }
    }
}

proof fn lemma_property_entries_unique_gen(
    data: Seq<u8>,
    page: int,
    rel: int,
    logical: int,
    acc: Seq<(u32, PropertyV)>,
)
    requires
        spec_property_entries(data, page, rel, logical, acc) is Ok,
        forall|j: int, l: int| 0 <= j < l < acc.len() ==> acc[j].0 != acc[l].0,
    ensures
        ({
            let es = spec_property_entries(data, page, rel, logical, acc)->Ok_0;
            forall|j: int, l: int| 0 <= j < l < es.len() ==> es[j].0 != es[l].0
        }),
    decreases
            (if rel < logical {
                logical - rel
            } else {
                0
            }),
{
    if rel < logical {
        let rec = spec_property_record(data, page + rel)->Ok_0;
        let acc2 = acc.push((rec.0, rec.1));
        assert forall|j: int, l: int| 0 <= j < l < acc2.len() implies acc2[j].0 != acc2[l].0 by {
            if l == acc.len() {
                assert(!has_index(acc, rec.0));
                assert(acc[j].0 != rec.0);
            }
        }
        lemma_property_entries_unique_gen(data, page, rel + rec.2, logical, acc2);
    }
}

/// Within one property page, decoding only succeeds when every record
/// carries a distinct index: a duplicate makes it fail instead.
pub proof fn lemma_property_page_unique(data: Seq<u8>, page: int, logical: int)
    requires
        PropertyBlock::spec_entries(data, page, logical) is Ok,
    ensures
        ({
            let es = PropertyBlock::spec_entries(data, page, logical)->Ok_0;
            forall|j: int, l: int| 0 <= j < l < es.len() ==> es[j].0 != es[l].0
        }),
{
    lemma_property_entries_unique_gen(data, page, 32, logical, Seq::empty());
}

/// The wire form of one raw property record: its index little-endian, the
/// two type codes, the name bytes, and the terminator.
pub open spec fn spec_encode_property_record(r: (u32, u8, u8, Seq<u8>)) -> Seq<u8> {
    crate::bytes::le32_bytes(r.0) + seq![r.1, r.2] + r.3 + seq![0u8]
}

/// The wire form of a whole record list, in order.
pub open spec fn spec_encode_property_records(rs: Seq<(u32, u8, u8, Seq<u8>)>) -> Seq<u8>
    decreases rs.len(),
{
    if rs.len() == 0 {
        Seq::empty()
    } else {
        spec_encode_property_record(rs[0]) + spec_encode_property_records(rs.drop_first())
    }
}

/// The decoded image that a raw record list denotes.
pub open spec fn spec_property_views(rs: Seq<(u32, u8, u8, Seq<u8>)>) -> Seq<(u32, PropertyV)>
    decreases rs.len(),
{
    if rs.len() == 0 {
        Seq::empty()
    } else {
        seq![
            (
                rs[0].0,
                PropertyV {
                    name: decode_utf8(rs[0].3),
                    value_type: rs[0].1,
                    prop_type: rs[0].2,
                },
            ),
        ] + spec_property_views(rs.drop_first())
    }
}

/// A record list that the wire layout can carry: every name is NUL-free,
/// well-formed text, and no index repeats.
pub open spec fn wf_property_raws(rs: Seq<(u32, u8, u8, Seq<u8>)>) -> bool {
    &&& forall|i: int|
        0 <= i < rs.len() ==> valid_utf8((#[trigger] rs[i]).3) && (forall|j: int|
            0 <= j < rs[i].3.len() ==> rs[i].3[j] != 0)
    &&& forall|i: int, j: int| 0 <= i < j < rs.len() ==> rs[i].0 != rs[j].0
}

proof fn lemma_property_round_trip_gen(
    data: Seq<u8>,
    page: int,
    rel: int,
    logical: int,
    rs: Seq<(u32, u8, u8, Seq<u8>)>,
    acc: Seq<(u32, PropertyV)>,
)
    requires
        0 <= page,
        32 <= rel,
        logical == rel + spec_encode_property_records(rs).len(),
        page + logical <= data.len(),
        data.subrange(page + rel, page + logical) == spec_encode_property_records(rs),
        wf_property_raws(rs),
        forall|i: int| 0 <= i < rs.len() ==> !has_index(acc, (#[trigger] rs[i]).0),
    ensures
        spec_property_entries(data, page, rel, logical, acc) == Ok::<
            Seq<(u32, PropertyV)>,
            StoreError,
        >(acc + spec_property_views(rs)),
    decreases rs.len(),
{
    let enc = spec_encode_property_records(rs);
    if rs.len() == 0 {
        assert(acc + spec_property_views(rs) =~= acc);
    } else {
        let r0 = rs[0];
        let pos = page + rel;
        let k = r0.3.len() as int;
        let enc0 = spec_encode_property_record(r0);
        let rest_enc = spec_encode_property_records(rs.drop_first());
        assert(enc == enc0 + rest_enc);
        assert(enc0.len() == 7 + k);
        assert forall|i: int| 0 <= i < enc.len() implies data[pos + i] == enc[i] by {
            assert(data.subrange(page + rel, page + logical)[i] == data[pos + i]);
        }
        assert(data.subrange(pos, pos + 4) =~= crate::bytes::le32_bytes(r0.0));
        crate::bytes::lemma_le32_round_trip(data, pos, r0.0);
        assert(data[pos + 4] == r0.1) by {
            assert(data[pos + 4] == enc[4]);
            assert(enc[4] == enc0[4]);
            assert(enc0[4] == r0.1);
        }
        assert(data[pos + 5] == r0.2) by {
            assert(data[pos + 5] == enc[5]);
            assert(enc[5] == enc0[5]);
            assert(enc0[5] == r0.2);
        }
        assert forall|j: int| #![trigger r0.3[j]] 0 <= j < k implies data[pos + 6 + j] == r0.3[j]
            && r0.3[j] != 0 by {
            assert(data[pos + 6 + j] == enc[6 + j]);
            assert(enc[6 + j] == enc0[6 + j]);
            assert(enc0[6 + j] == r0.3[j]);
            assert(rs[0].3[j] != 0);
        }
        assert(data[pos + 6 + k] == 0) by {
            assert(data[pos + 6 + k] == enc[6 + k]);
            assert(enc[6 + k] == enc0[6 + k]);
            assert(enc0[6 + k] == 0);
        }
        assert forall|j: int| pos + 6 <= j < pos + 6 + k implies data[j] != 0 by {
            let jj = j - (pos + 6);
            assert(0 <= jj < k);
            assert(r0.3[jj] != 0 && data[pos + 6 + jj] == r0.3[jj]);
            assert(pos + 6 + jj == j);
        }
        crate::bytes::lemma_nul_len_found(data, pos + 6, pos + 6 + k);
        assert(data.subrange(pos + 6, pos + 6 + k) =~= r0.3);
        let e0 = (r0.0, PropertyV { name: decode_utf8(r0.3), value_type: r0.1, prop_type: r0.2 });
        assert(spec_property_record(data, pos) == Ok::<(u32, PropertyV, nat), StoreError>(
            (e0.0, e0.1, (7 + k) as nat),
        ));
        assert(!has_index(acc, r0.0));
        let acc2 = acc.push(e0);
        assert(data.subrange(page + (rel + 7 + k), page + logical) =~= rest_enc) by {
            assert forall|i: int| 0 <= i < rest_enc.len() implies data[page + rel + 7 + k + i]
                == rest_enc[i] by {
                assert(enc[7 + k + i] == rest_enc[i]);
            }
        }
        assert forall|i: int| 0 <= i < rs.drop_first().len() implies !has_index(
            acc2,
            (#[trigger] rs.drop_first()[i]).0,
        ) by {
            assert(rs.drop_first()[i] == rs[i + 1]);
            lemma_has_index_push(acc, e0, rs[i + 1].0);
        }
        lemma_property_round_trip_gen(data, page, rel + 7 + k, logical, rs.drop_first(), acc2);
        assert(acc2 + spec_property_views(rs.drop_first()) =~= acc + spec_property_views(rs));
    }
}

/// Encoding any well-formed record list into the page wire layout and
/// decoding it again reproduces exactly those records, index by index.
pub proof fn lemma_property_round_trip(data: Seq<u8>, page: int, rs: Seq<(u32, u8, u8, Seq<u8>)>)
    requires
        0 <= page,
        page + 32 + spec_encode_property_records(rs).len() <= data.len(),
        data.subrange(page + 32, page + 32 + spec_encode_property_records(rs).len() as int)
            == spec_encode_property_records(rs),
        wf_property_raws(rs),
    ensures
        PropertyBlock::spec_entries(
            data,
            page,
            32 + spec_encode_property_records(rs).len() as int,
        ) == Ok::<Seq<(u32, PropertyV)>, StoreError>(spec_property_views(rs)),
{
    let logical = 32 + spec_encode_property_records(rs).len() as int;
    lemma_property_round_trip_gen(data, page, 32, logical, rs, Seq::empty());
    assert(Seq::empty() + spec_property_views(rs) =~= spec_property_views(rs));
}

/// A property page's decoded records.
#[derive(Debug, Clone)]
pub struct PropertyBlock {
    pub data: HashMap<u32, Property>,
    entries: Vec<(u32, Property)>,
}

impl Property {
    /// A field-for-field copy of the record.
    pub(crate) fn clone_record(&self) -> (r: Property)
        ensures
            r == *self,
    {
        Property {
            name: self.name.clone(),
            value_type: self.value_type,
            prop_type: self.prop_type,
        }
    }
}

impl PropertyBlock {
    /// The decoded records in wire order, with their indices.
    pub fn record_list(&self) -> (r: &Vec<(u32, Property)>)
        ensures
            deep_entries(r@) == self.entries_view(),
    {
        &self.entries
    }
}

impl Block for PropertyBlock {
    type ItemV = PropertyV;

    open spec fn block_type() -> Type {
        Type::Property
    }

    open spec fn spec_entries(data: Seq<u8>, page: int, logical: int) -> Result<
        Seq<(u32, PropertyV)>,
        StoreError,
    > {
        spec_property_entries(data, page, 32, logical, Seq::empty())
    }

    closed spec fn entries_view(&self) -> Seq<(u32, PropertyV)> {
        deep_entries(self.entries@)
    }

    closed spec fn data_map(&self) -> Map<u32, PropertyV> {
        deep_map(self.data@)
    }

    fn block_type_exec() -> (t: Type) {
        Type::Property
    }

    #[verifier::loop_isolation(false)]
    fn from_meta(data: &[u8], page_offset: u64, meta: Meta) -> (r: Result<Self, StoreError>) {
        let n = data.len() as u64;
        let logical = meta.logical_size as u64;
        let mut map: HashMap<u32, Property> = HashMap::new();
        let mut entries: Vec<(u32, Property)> = Vec::new();
        let mut pos: u64 = 32;
        proof {
            assert(deep_entries(entries@) =~= Seq::<(u32, PropertyV)>::empty());
            assert(deep_map(map@) =~= map_of_entries(deep_entries(entries@)));
        }
        while pos < logical
            invariant
                32 <= pos,
                Self::spec_entries(data@, page_offset as int, logical as int)
                    == spec_property_entries(
                    data@,
                    page_offset as int,
                    pos as int,
                    logical as int,
                    deep_entries(entries@),
                ),
                deep_map(map@) == map_of_entries(deep_entries(entries@)),
                forall|i: u32|
                    #[trigger] map@.contains_key(i) == has_index(deep_entries(entries@), i),
            decreases
                    (if pos < logical {
                        logical - pos
                    } else {
                        0
                    }),
        {
            if n < 6 || page_offset > u64::MAX - 6 || pos > u64::MAX - 6 - page_offset
                || page_offset + pos > n - 6 {
                return Err(StoreError::UnexpectedEof);
            }
            let base = page_offset + pos;
            let idx = match le32_field(data, base, 0) {
                Ok(v) => v,
                Err(e) => {
                    return Err(e);
                },
            };
            let value_type = match u8_field(data, base, 4) {
                Ok(v) => v,
                Err(e) => {
                    return Err(e);
                },
            };
            let prop_type = match u8_field(data, base, 5) {
                Ok(v) => v,
                Err(e) => {
                    return Err(e);
                },
            };
            let text = match read_zero_terminated(data, (base + 6) as usize) {
                Ok(p) => p,
                Err(e) => {
                    return Err(e);
                },
            };
            let (name, text_len) = text;
            proof {
                lemma_nul_len_some(data@, base + 6);
            }
            let consumed: u64 = 6 + text_len as u64;
            if map.contains_key(&idx) {
                return Err(StoreError::DuplicateRecord);
            }
            let ghost entries0 = entries@;
            let ghost map0 = map@;
            let ghost propv = PropertyV { name: name@, value_type, prop_type };
            let name_copy = name.clone();
            entries.push((idx, Property { name, value_type, prop_type }));
            map.insert(idx, Property { name: name_copy, value_type, prop_type });
            proof {
                let x = (idx, propv);
                assert(deep_entries(entries@) =~= deep_entries(entries0).push(x));
                lemma_map_of_entries_push(deep_entries(entries0), x);
                assert(deep_map(map@) =~= deep_map(map0).insert(idx, propv));
                assert forall|i: u32|
                    #[trigger] map@.contains_key(i) == has_index(deep_entries(entries@), i) by {
                    lemma_has_index_push(deep_entries(entries0), x, i);
                }
                assert(spec_property_record(data@, page_offset + pos) == Ok::<
                    (u32, PropertyV, nat),
                    StoreError,
                >((idx, propv, consumed as nat)));
            }
            pos = pos + consumed;
        }
        Ok(PropertyBlock { data: map, entries })
    }
}

} // verus!
