use vstd::prelude::*;
use vstd::seq_lib::*;
use vstd::set_lib::{lemma_int_range, lemma_len_subset, set_int_range};

use crate::bytes::{le32_at, read_u32_le};
use crate::error::StoreError;

verus! {

/// Every page is this many bytes long, and page index `i` starts at byte
/// offset `i * 4096`.
pub const PAGE_SIZE: u64 = 4096;

/// Signature that opens every chained data page.
pub const BLOCK_SIGNATURE: u32 = 0x6462_7032;

/// The two accepted signatures of the allocation table page.
pub const BLOCK0_SIGNATURE_A: u32 = 0x6462_6D31;

pub const BLOCK0_SIGNATURE_B: u32 = 0x6462_6D32;

/// Semantic kind of a data page, from the closed set of known type tags.
#[derive(Clone, Copy, Debug, PartialEq, Eq, Structural)]
pub enum Type {
    Metadata,
    Property,
    Category,
    Index,
}

/// One allocation slot of the allocation table page.
#[derive(Clone, Copy, Debug, PartialEq, Eq, Structural)]
pub struct Index {
    pub offset_index: u32,
    pub dest_block_size: u32,
}

/// The allocation table stored on the second page of the file.
#[derive(Clone, Debug, PartialEq, Eq)]
pub struct Block0 {
    pub physical_size: u32,
    pub indices: Vec<Index>,
}

/// The 32-byte preamble of a data page: sizes, type tag, and the chain
/// pointer to the next page (0 ends the chain).
#[derive(Clone, Copy, Debug, PartialEq, Eq)]
pub struct Meta {
    pub physical_size: u32,
    pub logical_size: u32,
    pub block_type: Option<Type>,
    pub next_block_index: u32,
}

/// Reads the little-endian u32 that stands `delta` bytes into a structure at
/// `base`, guarding every offset computation against overflow.
pub fn le32_field(data: &[u8], base: u64, delta: u64) -> (r: Result<u32, StoreError>)
    requires
        delta <= 40,
    ensures
        base + delta + 4 <= data@.len() ==> r == Ok::<u32, StoreError>(
            le32_at(data@, base + delta),
        ),
        base + delta + 4 > data@.len() ==> r == Err::<u32, StoreError>(StoreError::UnexpectedEof),
{
    let n = data.len() as u64;
    if base >= n || n - base < delta + 4 {
        return Err(StoreError::UnexpectedEof);
    }
    let off = base + delta;
    read_u32_le(data, off as usize)
}

/// Reads the byte that stands `delta` bytes into a structure at `base`.
pub fn u8_field(data: &[u8], base: u64, delta: u64) -> (r: Result<u8, StoreError>)
    requires
        delta <= 40,
    ensures
        base + delta < data@.len() ==> r == Ok::<u8, StoreError>(data@[base + delta]),
        base + delta >= data@.len() ==> r == Err::<u8, StoreError>(StoreError::UnexpectedEof),
{
    let n = data.len() as u64;
    if base >= n || n - base < delta + 1 {
        return Err(StoreError::UnexpectedEof);
    }
    let off = base + delta;
    Ok(data[off as usize])
}

/// How a raw type tag is understood: four known kinds, two reserved tags that
/// mark a free page, and everything else refused.
pub open spec fn spec_type_from_tag(tag: u32) -> Result<Option<Type>, StoreError> {
    if tag == 0x09 {
        Ok(Some(Type::Metadata))
    } else if tag == 0x11 {
        Ok(Some(Type::Property))
    } else if tag == 0x21 {
        Ok(Some(Type::Category))
    } else if tag == 0x81 {
        Ok(Some(Type::Index))
    } else if tag == 0x00 || tag == 0x41 {
        Ok(None)
    } else {
        Err(StoreError::UnknownBlockType)
    }
}

impl Type {
    /// Decodes the 4-byte type tag at `offset`.
    pub fn read_from(data: &[u8], offset: u64) -> (r: Result<Option<Type>, StoreError>)
        ensures
            offset + 4 <= data@.len() ==> r == spec_type_from_tag(le32_at(data@, offset as int)),
            offset + 4 > data@.len() ==> r == Err::<Option<Type>, StoreError>(
                StoreError::UnexpectedEof,
            ),
    {
        let tag = match le32_field(data, offset, 0) {
            Ok(t) => t,
            Err(e) => {
                return Err(e);
            },
        };
        if tag == 0x09 {
            Ok(Some(Type::Metadata))
        } else if tag == 0x11 {
            Ok(Some(Type::Property))
        } else if tag == 0x21 {
            Ok(Some(Type::Category))
        } else if tag == 0x81 {
            Ok(Some(Type::Index))
        } else if tag == 0x00 || tag == 0x41 {
            Ok(None)
        } else {
            Err(StoreError::UnknownBlockType)
        }
    }
}

/// What decoding a page preamble at byte offset `off` yields: the signature
/// is checked first, then the sizes and the type tag, then the chain pointer.
pub open spec fn spec_meta_at(data: Seq<u8>, off: int) -> Result<Meta, StoreError> {
    if off + 4 > data.len() {
        Err(StoreError::UnexpectedEof)
    } else if le32_at(data, off) != BLOCK_SIGNATURE {
        Err(StoreError::InvalidFormat)
    } else if off + 16 > data.len() {
        Err(StoreError::UnexpectedEof)
    } else {
        match spec_type_from_tag(le32_at(data, off + 12)) {
            Err(e) => Err(e),
            Ok(bt) => if off + 24 > data.len() {
                Err(StoreError::UnexpectedEof)
            } else {
                Ok(
                    Meta {
                        physical_size: le32_at(data, off + 4),
                        logical_size: le32_at(data, off + 8),
                        block_type: bt,
                        next_block_index: le32_at(data, off + 20),
                    },
                )
            },
        }
    }
}

impl Meta {
    /// Decodes the 32-byte preamble of the page that starts at `offset`.
    pub fn read_from(data: &[u8], offset: u64) -> (r: Result<Meta, StoreError>)
        ensures
            r == spec_meta_at(data@, offset as int),
    {
        let _len = data.len();
        let signature = match le32_field(data, offset, 0) {
            Ok(s) => s,
            Err(e) => {
                return Err(e);
            },
        };
        if signature != BLOCK_SIGNATURE {
            return Err(StoreError::InvalidFormat);
        }
        let physical_size = match le32_field(data, offset, 4) {
            Ok(v) => v,
            Err(e) => {
                return Err(e);
            },
        };
        let logical_size = match le32_field(data, offset, 8) {
            Ok(v) => v,
            Err(e) => {
                return Err(e);
            },
        };
        let block_type = match Type::read_from(data, offset + 12) {
            Ok(t) => t,
            Err(e) => {
                return Err(e);
            },
        };
        let next_block_index = match le32_field(data, offset, 20) {
            Ok(v) => v,
            Err(e) => {
                return Err(e);
            },
        };
        Ok(
            Meta {
                physical_size,
                logical_size,
                block_type,
                next_block_index,
            },
        )
    }

    /// What following a chain yields, one page per step: stop at index 0,
    /// refuse a revisited page, refuse a page of the wrong type, and
    /// propagate any preamble error. The fuel only bounds the recursion; a
    /// walk that starts with no page visited can never run out of it,
    /// because every step visits a fresh 32-bit index.
    pub open spec fn spec_walk_chain(
        data: Seq<u8>,
        expected: Option<Type>,
        index: u32,
        visited: Seq<u32>,
        fuel: nat,
    ) -> Result<Seq<Meta>, StoreError>
        decreases fuel,
    {
        if index == 0 {
            Ok(Seq::empty())
        } else if fuel == 0 {
            Err(StoreError::CorruptChain)
        } else if visited.contains(index) {
            Err(StoreError::CorruptChain)
        } else {
            match spec_meta_at(data, index as int * PAGE_SIZE as int) {
                Err(e) => Err(e),
                Ok(m) => if m.block_type != expected {
                    Err(StoreError::TypeMismatch)
                } else {
                    match Self::spec_walk_chain(
                        data,
                        expected,
                        m.next_block_index,
                        visited.push(index),
                        (fuel - 1) as nat,
                    ) {
                        Err(e) => Err(e),
                        Ok(rest) => Ok(seq![m] + rest),
                    }
                },
            }
        }
    }

    /// The chain that starts at `index`: every page preamble in link order.
    pub open spec fn spec_read_chain(data: Seq<u8>, expected: Option<Type>, index: u32) -> Result<
        Seq<Meta>,
        StoreError,
    > {
        Self::spec_walk_chain(data, expected, index, Seq::empty(), 0x1_0000_0001)
    }

    /// Follows `next_block_index` pointers from page `index` until the 0
    /// sentinel, checking each page's signature and type on the way and
    /// refusing a pointer that leads back to a page already seen.
    pub fn read_chain(data: &[u8], expected_type: Option<Type>, index: u32) -> (r: Result<
        Vec<Meta>,
        StoreError,
    >)
        ensures
            match r {
                Ok(metas) => Self::spec_read_chain(data@, expected_type, index) == Ok::<
                    Seq<Meta>,
                    StoreError,
                >(metas@),
                Err(e) => Self::spec_read_chain(data@, expected_type, index) == Err::<
                    Seq<Meta>,
                    StoreError,
                >(e),
            },
    {
        let mut results: Vec<Meta> = Vec::new();
        let mut visited: Vec<u32> = Vec::new();
        let mut cur = index;
        proof {
            assert(results@ + Seq::<Meta>::empty() =~= results@);
            if let Ok(rest) = Self::spec_walk_chain(
                data@,
                expected_type,
                cur,
                visited@,
                0x1_0000_0001,
            ) {
                assert(results@ + rest =~= rest);
            }
        }
        loop
            invariant
                visited@.no_duplicates(),
                visited@.len() <= 0x1_0000_0000,
                Self::spec_read_chain(data@, expected_type, index) == walk_append(
                    results@,
                    Self::spec_walk_chain(
                        data@,
                        expected_type,
                        cur,
                        visited@,
                        (0x1_0000_0001 - visited@.len()) as nat,
                    ),
                ),
            decreases 0x1_0000_0001 - visited@.len(),
        {
            let ghost fuel = (0x1_0000_0001 - visited@.len()) as nat;
            if cur == 0 {
                proof {
                    assert(results@ + Seq::<Meta>::empty() =~= results@);
                }
                return Ok(results);
            }
            if contains_index(&visited, cur) {
                return Err(StoreError::CorruptChain);
            }
            let off = cur as u64 * PAGE_SIZE;
            let m = match Meta::read_from(data, off) {
                Ok(m) => m,
                Err(e) => {
                    return Err(e);
                },
            };
            if !same_block_type(m.block_type, expected_type) {
                return Err(StoreError::TypeMismatch);
            }
            let ghost results0 = results@;
            let ghost visited0 = visited@;
            results.push(m);
            visited.push(cur);
            proof {
                assert(visited@ =~= visited0.push(cur));
                assert(results@ =~= results0.push(m));
                lemma_distinct_u32_seq_len(visited@);
                let rec = Self::spec_walk_chain(
                    data@,
                    expected_type,
                    m.next_block_index,
                    visited@,
                    (fuel - 1) as nat,
                );
                assert(Self::spec_walk_chain(data@, expected_type, cur, visited0, fuel) == (
                match rec {
                    Err(e) => Err::<Seq<Meta>, StoreError>(e),
                    Ok(rest) => Ok::<Seq<Meta>, StoreError>(seq![m] + rest),
                }));
                if let Ok(rest) = rec {
                    assert(results0 + (seq![m] + rest) =~= results@ + rest);
                }
            }
            cur = m.next_block_index;
        }
    }
}

/// Prepends an already-walked prefix to the outcome of the rest of a walk.
pub open spec fn walk_append(prefix: Seq<Meta>, r: Result<Seq<Meta>, StoreError>) -> Result<
    Seq<Meta>,
    StoreError,
> {
    match r {
        Ok(rest) => Ok(prefix + rest),
        Err(e) => Err(e),
    }
}

/// Whether two page types agree, `None` standing for a free page.
fn same_block_type(a: Option<Type>, b: Option<Type>) -> (r: bool)
    ensures
        r == (a == b),
{
    match (a, b) {
        (None, None) => true,
        (Some(x), Some(y)) => x == y,
        _ => false,
    }
}

/// Whether `needle` already occurs in `haystack`.
fn contains_index(haystack: &Vec<u32>, needle: u32) -> (r: bool)
    ensures
        r == haystack@.contains(needle),
{
    let mut i: usize = 0;
    while i < haystack.len()
        invariant
            i <= haystack@.len(),
            forall|j: int| 0 <= j < i ==> haystack@[j] != needle,
        decreases haystack@.len() - i,
    {
        if haystack[i] == needle {
            return true;
        }
        i = i + 1;
    }
    false
}

/// What decoding an allocation slot at byte offset `off` yields: 8 reserved
/// bytes, then the slot's offset index and destination block size.
pub open spec fn spec_index_at(data: Seq<u8>, off: int) -> Result<Index, StoreError> {
    if off + 16 > data.len() {
        Err(StoreError::UnexpectedEof)
    } else {
        Ok(
            Index {
                offset_index: le32_at(data, off + 8),
                dest_block_size: le32_at(data, off + 12),
            },
        )
    }
}

impl Index {
    /// Decodes the 16-byte allocation slot that starts at `offset`.
    pub fn read_from(data: &[u8], offset: u64) -> (r: Result<Index, StoreError>)
        ensures
            r == spec_index_at(data@, offset as int),
    {
        let offset_index = match le32_field(data, offset, 8) {
            Ok(v) => v,
            Err(e) => {
                return Err(e);
            },
        };
        let dest_block_size = match le32_field(data, offset, 12) {
            Ok(v) => v,
            Err(e) => {
                return Err(e);
            },
        };
        Ok(Index { offset_index, dest_block_size })
    }
}

/// The run of `count` allocation slots that starts at byte offset `off`.
pub open spec fn spec_block0_entries(data: Seq<u8>, off: int, count: nat) -> Result<
    Seq<Index>,
    StoreError,
>
    decreases count,
{
    if count == 0 {
        Ok(Seq::empty())
    } else {
        match spec_index_at(data, off) {
            Err(e) => Err(e),
            Ok(x) => match spec_block0_entries(data, off + 16, (count - 1) as nat) {
                Err(e) => Err(e),
                Ok(rest) => Ok(seq![x] + rest),
            },
        }
    }
}

/// What decoding the allocation table page yields: one of its two accepted
/// signatures, the physical size, the slot count, 8 reserved bytes, then the
/// slots themselves.
pub open spec fn spec_block0(data: Seq<u8>) -> Result<(u32, Seq<Index>), StoreError> {
    if 4096 + 4 > data.len() {
        Err(StoreError::UnexpectedEof)
    } else if le32_at(data, 4096) != BLOCK0_SIGNATURE_A && le32_at(data, 4096)
        != BLOCK0_SIGNATURE_B {
        Err(StoreError::InvalidFormat)
    } else if 4096 + 12 > data.len() {
        Err(StoreError::UnexpectedEof)
    } else {
        match spec_block0_entries(data, 4116, le32_at(data, 4104) as nat) {
            Err(e) => Err(e),
            Ok(es) => Ok((le32_at(data, 4100), es)),
        }
    }
}

/// Prepends already-read slots to the outcome of reading the rest.
pub open spec fn slots_append(prefix: Seq<Index>, r: Result<Seq<Index>, StoreError>) -> Result<
    Seq<Index>,
    StoreError,
> {
    match r {
        Ok(rest) => Ok(prefix + rest),
        Err(e) => Err(e),
    }
}

impl Block0 {
    /// Decodes the allocation table stored on the second page.
    #[verifier::loop_isolation(false)]
    pub fn read_from(data: &[u8]) -> (r: Result<Block0, StoreError>)
        ensures
            match r {
                Ok(b) => spec_block0(data@) == Ok::<(u32, Seq<Index>), StoreError>(
                    (b.physical_size, b.indices@),
                ),
                Err(e) => spec_block0(data@) == Err::<(u32, Seq<Index>), StoreError>(e),
            },
    {
        let signature = match le32_field(data, 4096, 0) {
            Ok(s) => s,
            Err(e) => {
                return Err(e);
            },
        };
        if signature != BLOCK0_SIGNATURE_A && signature != BLOCK0_SIGNATURE_B {
            return Err(StoreError::InvalidFormat);
        }
        let physical_size = match le32_field(data, 4096, 4) {
            Ok(v) => v,
            Err(e) => {
                return Err(e);
            },
        };
        let item_count = match le32_field(data, 4096, 8) {
            Ok(v) => v,
            Err(e) => {
                return Err(e);
            },
        };
        let mut indices: Vec<Index> = Vec::new();
        let mut i: u32 = 0;
        proof {
            if let Ok(rest) = spec_block0_entries(data@, 4116, item_count as nat) {
                assert(indices@ + rest =~= rest);
            }
        }
        while i < item_count
            invariant
                i <= item_count,
                indices@.len() == i,
                spec_block0_entries(data@, 4116, item_count as nat) == slots_append(
                    indices@,
                    spec_block0_entries(
                        data@,
                        4116 + 16 * i as int,
                        (item_count - i) as nat,
                    ),
                ),
            decreases item_count - i,
        {
            let off: u64 = 4116 + 16 * (i as u64);
            let entry = match Index::read_from(data, off) {
                Ok(x) => x,
                Err(e) => {
                    proof {
                        assert(spec_block0_entries(
                            data@,
                            4116 + 16 * i as int,
                            (item_count - i) as nat,
                        ) == Err::<Seq<Index>, StoreError>(e));
                    }
                    return Err(e);
                },
            };
            let ghost indices0 = indices@;
            indices.push(entry);
            proof {
                if let Ok(rest) = spec_block0_entries(
                    data@,
                    4116 + 16 * (i + 1) as int,
                    (item_count - i - 1) as nat,
                ) {
                    assert(indices0 + (seq![entry] + rest) =~= indices@ + rest);
                }
            }
            i = i + 1;
        }
        proof {
            assert(indices@ + Seq::<Index>::empty() =~= indices@);
        }
        Ok(Block0 { physical_size, indices })
    }
}

/// Whatever page a valid single-page chain starts from, walking it yields
/// exactly that one page's preamble, whose chain pointer is the 0 sentinel.
pub proof fn lemma_read_chain_single_page(
    data: Seq<u8>,
    expected: Option<Type>,
    start: u32,
    m: Meta,
)
    requires
        start != 0,
        spec_meta_at(data, start as int * PAGE_SIZE as int) == Ok::<Meta, StoreError>(m),
        m.block_type == expected,
        m.next_block_index == 0,
    ensures
        Meta::spec_read_chain(data, expected, start) == Ok::<Seq<Meta>, StoreError>(seq![m]),
{
    assert(Meta::spec_walk_chain(
        data,
        expected,
        0,
        Seq::empty().push(start),
        0x1_0000_0000,
    ) == Ok::<Seq<Meta>, StoreError>(Seq::empty()));
    assert(seq![m] + Seq::<Meta>::empty() =~= seq![m]);
}

/// Walking from the head of any correctly linked, duplicate-free run of
/// pages of the expected type yields exactly those pages' preambles, in link
/// order.
pub proof fn lemma_read_chain_linked_pages(
    data: Seq<u8>,
    expected: Option<Type>,
    idxs: Seq<u32>,
    metas: Seq<Meta>,
)
    requires
        idxs.len() == metas.len() > 0,
        idxs.no_duplicates(),
        forall|i: int| 0 <= i < idxs.len() ==> idxs[i] != 0,
        forall|i: int|
            0 <= i < idxs.len() ==> spec_meta_at(
                data,
                #[trigger] idxs[i] as int * PAGE_SIZE as int,
            ) == Ok::<Meta, StoreError>(metas[i]),
        forall|i: int| 0 <= i < metas.len() ==> (#[trigger] metas[i]).block_type == expected,
        forall|i: int|
            0 <= i < metas.len() - 1 ==> (#[trigger] metas[i]).next_block_index == idxs[i + 1],
        metas.last().next_block_index == 0,
    ensures
        Meta::spec_read_chain(data, expected, idxs[0]) == Ok::<Seq<Meta>, StoreError>(metas),
{
    lemma_distinct_u32_seq_len(idxs);
    lemma_walk_linked_pages(data, expected, idxs, metas, Seq::empty(), 0x1_0000_0001);
}

proof fn lemma_walk_linked_pages(
    data: Seq<u8>,
    expected: Option<Type>,
    idxs: Seq<u32>,
    metas: Seq<Meta>,
    visited: Seq<u32>,
    fuel: nat,
)
    requires
        idxs.len() == metas.len(),
        idxs.no_duplicates(),
        forall|i: int| 0 <= i < idxs.len() ==> idxs[i] != 0,
        forall|i: int|
            0 <= i < idxs.len() ==> spec_meta_at(
                data,
                #[trigger] idxs[i] as int * PAGE_SIZE as int,
            ) == Ok::<Meta, StoreError>(metas[i]),
        forall|i: int| 0 <= i < metas.len() ==> (#[trigger] metas[i]).block_type == expected,
        forall|i: int|
            0 <= i < metas.len() - 1 ==> (#[trigger] metas[i]).next_block_index == idxs[i + 1],
        metas.len() > 0 ==> metas.last().next_block_index == 0,
        forall|i: int| 0 <= i < idxs.len() ==> !visited.contains(#[trigger] idxs[i]),
        fuel >= idxs.len(),
    ensures
        Meta::spec_walk_chain(
            data,
            expected,
            if idxs.len() == 0 {
                0
            } else {
                idxs[0]
            },
            visited,
            fuel,
        ) == Ok::<Seq<Meta>, StoreError>(metas),
    decreases idxs.len(),
{
    if idxs.len() == 0 {
        assert(metas =~= Seq::<Meta>::empty());
    } else {
        let rest_idxs = idxs.drop_first();
        let rest_metas = metas.drop_first();
        let visited2 = visited.push(idxs[0]);
        assert forall|i: int| 0 <= i < rest_idxs.len() implies !visited2.contains(
            #[trigger] rest_idxs[i],
        ) by {
            assert(rest_idxs[i] == idxs[i + 1]);
            if visited2.contains(rest_idxs[i]) {
                let k = choose|k: int| 0 <= k < visited2.len() && visited2[k] == rest_idxs[i];
                if k < visited.len() {
                    assert(visited.contains(idxs[i + 1]));
                }
            }
        }
        lemma_walk_linked_pages(
            data,
            expected,
            rest_idxs,
            rest_metas,
            visited2,
            (fuel - 1) as nat,
        );
        assert(metas[0].next_block_index == if rest_idxs.len() == 0 {
            0u32
        } else {
            rest_idxs[0]
        });
        assert(seq![metas[0]] + rest_metas =~= metas);
    }
}

/// A chain whose last page points back to one of the chain's own pages is
/// rejected as corrupt rather than walked forever.
pub proof fn lemma_read_chain_rejects_back_pointer(
    data: Seq<u8>,
    expected: Option<Type>,
    idxs: Seq<u32>,
    metas: Seq<Meta>,
    j: int,
)
    requires
        idxs.len() == metas.len() > 0,
        idxs.no_duplicates(),
        forall|i: int| 0 <= i < idxs.len() ==> idxs[i] != 0,
        forall|i: int|
            0 <= i < idxs.len() ==> spec_meta_at(
                data,
                #[trigger] idxs[i] as int * PAGE_SIZE as int,
            ) == Ok::<Meta, StoreError>(metas[i]),
        forall|i: int| 0 <= i < metas.len() ==> (#[trigger] metas[i]).block_type == expected,
        forall|i: int|
            0 <= i < metas.len() - 1 ==> (#[trigger] metas[i]).next_block_index == idxs[i + 1],
        0 <= j < idxs.len(),
        metas.last().next_block_index == idxs[j],
    ensures
        Meta::spec_read_chain(data, expected, idxs[0]) == Err::<Seq<Meta>, StoreError>(
            StoreError::CorruptChain,
        ),
{
    lemma_distinct_u32_seq_len(idxs);
    assert(idxs.contains(idxs[j]));
    lemma_walk_into_revisit(data, expected, idxs, metas, idxs[j], Seq::empty(), 0x1_0000_0001);
}

proof fn lemma_contains_push(s: Seq<u32>, x: u32, y: u32)
    ensures
        s.push(x).contains(y) <==> (s.contains(y) || x == y),
{
    if s.contains(y) {
        let k = choose|k: int| 0 <= k < s.len() && s[k] == y;
        assert(s.push(x)[k] == y);
    }
    if x == y {
        assert(s.push(x)[s.len() as int] == y);
    }
    if s.push(x).contains(y) {
        let k = choose|k: int| 0 <= k < s.push(x).len() && s.push(x)[k] == y;
        if k < s.len() {
            assert(s[k] == y);
        }
    }
}

proof fn lemma_contains_drop_first(s: Seq<u32>, y: u32)
    requires
        s.len() > 0,
    ensures
        s.contains(y) <==> (s[0] == y || s.drop_first().contains(y)),
{
    if s.contains(y) {
        let k = choose|k: int| 0 <= k < s.len() && s[k] == y;
        if k > 0 {
            assert(s.drop_first()[k - 1] == y);
        }
    }
    if s[0] == y {
        assert(s.contains(y));
    }
    if s.drop_first().contains(y) {
        let k = choose|k: int| 0 <= k < s.drop_first().len() && s.drop_first()[k] == y;
        assert(s[k + 1] == y);
    }
}

#[verifier::rlimit(50)]
#[verifier::spinoff_prover]
proof fn lemma_walk_into_revisit(
    data: Seq<u8>,
    expected: Option<Type>,
    idxs: Seq<u32>,
    metas: Seq<Meta>,
    target: u32,
    visited: Seq<u32>,
    fuel: nat,
)
    requires
        idxs.len() == metas.len() > 0,
        idxs.no_duplicates(),
        forall|i: int| 0 <= i < idxs.len() ==> idxs[i] != 0,
        forall|i: int|
            0 <= i < idxs.len() ==> spec_meta_at(
                data,
                #[trigger] idxs[i] as int * PAGE_SIZE as int,
            ) == Ok::<Meta, StoreError>(metas[i]),
        forall|i: int| 0 <= i < metas.len() ==> (#[trigger] metas[i]).block_type == expected,
        forall|i: int|
            0 <= i < metas.len() - 1 ==> (#[trigger] metas[i]).next_block_index == idxs[i + 1],
        metas.last().next_block_index == target,
        target != 0,
        visited.contains(target) || idxs.contains(target),
        forall|i: int| 0 <= i < idxs.len() ==> !visited.contains(#[trigger] idxs[i]),
        fuel >= idxs.len() + 1,
    ensures
        Meta::spec_walk_chain(data, expected, idxs[0], visited, fuel) == Err::<
            Seq<Meta>,
            StoreError,
        >(StoreError::CorruptChain),
    decreases idxs.len(),
{
    let visited2 = visited.push(idxs[0]);
    lemma_contains_push(visited, idxs[0], target);
    if idxs.len() == 1 {
        assert(metas[0].next_block_index == target);
        assert(visited2.contains(target)) by {
            if !visited.contains(target) {
                lemma_contains_drop_first(idxs, target);
                assert(!idxs.drop_first().contains(target));
                assert(idxs[0] == target);
            }
        }
        assert(Meta::spec_walk_chain(data, expected, target, visited2, (fuel - 1) as nat)
            == Err::<Seq<Meta>, StoreError>(StoreError::CorruptChain));
    } else {
        let rest_idxs = idxs.drop_first();
        let rest_metas = metas.drop_first();
        assert forall|i: int| 0 <= i < rest_idxs.len() implies !visited2.contains(
            #[trigger] rest_idxs[i],
        ) by {
            assert(rest_idxs[i] == idxs[i + 1]);
            lemma_contains_push(visited, idxs[0], idxs[i + 1]);
        }
        assert(visited2.contains(target) || rest_idxs.contains(target)) by {
            if idxs.contains(target) {
                lemma_contains_drop_first(idxs, target);
            }
        }
        assert(rest_metas.last() == metas.last());
        lemma_walk_into_revisit(
            data,
            expected,
            rest_idxs,
            rest_metas,
            target,
            visited2,
            (fuel - 1) as nat,
        );
        assert(metas[0].next_block_index == rest_idxs[0]);
    }
}

/// A sequence of pairwise distinct 32-bit values cannot be longer than the
/// number of 32-bit values there are.
pub proof fn lemma_distinct_u32_seq_len(s: Seq<u32>)
    requires
        s.no_duplicates(),
    ensures
        s.len() <= 0x1_0000_0000,
{
    let t = s.map_values(|x: u32| x as int);
    assert(t.no_duplicates());
    t.unique_seq_to_set();
    assert forall|e: int| t.to_set().contains(e) implies set_int_range(
        0,
        0x1_0000_0000,
    ).contains(e) by {
        let i = choose|i: int| 0 <= i < t.len() && t[i] == e;
        assert(0 <= s[i] < 0x1_0000_0000);
    }
    assert(t.to_set().subset_of(set_int_range(0, 0x1_0000_0000)));
    lemma_int_range(0, 0x1_0000_0000);
    lemma_len_subset(t.to_set(), set_int_range(0, 0x1_0000_0000));
}

} // verus!
