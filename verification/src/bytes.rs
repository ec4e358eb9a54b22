use vstd::prelude::*;
use vstd::slice::{slice_subrange, slice_to_vec};
use vstd::utf8::{decode_utf8, valid_utf8};

use crate::error::StoreError;

verus! {

/// The little-endian 32-bit integer stored at byte offset `off`.
pub open spec fn le32_at(data: Seq<u8>, off: int) -> u32 {
    (data[off] + data[off + 1] * 0x100 + data[off + 2] * 0x1_0000 + data[off + 3]
        * 0x100_0000) as u32
}

/// Reads the little-endian u32 at `off`, or reports that the input ended.
pub fn read_u32_le(data: &[u8], off: usize) -> (r: Result<u32, StoreError>)
    ensures
        off + 4 <= data@.len() ==> r == Ok::<u32, StoreError>(le32_at(data@, off as int)),
        off + 4 > data@.len() ==> r == Err::<u32, StoreError>(StoreError::UnexpectedEof),
{
    if data.len() < 4 || off > data.len() - 4 {
        return Err(StoreError::UnexpectedEof);
    }
    let b0 = data[off] as u32;
    let b1 = data[off + 1] as u32;
    let b2 = data[off + 2] as u32;
    let b3 = data[off + 3] as u32;
    Ok(b0 + b1 * 0x100 + b2 * 0x1_0000 + b3 * 0x100_0000)
}

/// Reads the byte at `off`, or reports that the input ended.
pub fn read_u8_at(data: &[u8], off: usize) -> (r: Result<u8, StoreError>)
    ensures
        off < data@.len() ==> r == Ok::<u8, StoreError>(data@[off as int]),
        off >= data@.len() ==> r == Err::<u8, StoreError>(StoreError::UnexpectedEof),
{
    if off >= data.len() {
        return Err(StoreError::UnexpectedEof);
    }
    Ok(data[off])
}

/// How many bytes stand at `p` before the next zero byte: `Some(k)` when
/// `data[p + k]` is the first zero at or after `p`, `None` when no zero
/// follows before the end of the input.
pub open spec fn nul_len(data: Seq<u8>, p: int) -> Option<nat>
    decreases data.len() - p,
{
    if p < 0 || p >= data.len() {
        None
    } else if data[p] == 0 {
        Some(0nat)
    } else {
        match nul_len(data, p + 1) {
            None => None,
            Some(k) => Some((k + 1) as nat),
        }
    }
}

pub proof fn lemma_nul_len_found(data: Seq<u8>, p: int, q: int)
    requires
        0 <= p <= q < data.len(),
        data[q] == 0,
        forall|j: int| p <= j < q ==> data[j] != 0,
    ensures
        nul_len(data, p) == Some((q - p) as nat),
    decreases q - p,
{
    if p < q {
        lemma_nul_len_found(data, p + 1, q);
    }
}

proof fn lemma_nul_len_missing(data: Seq<u8>, p: int)
    requires
        0 <= p,
        forall|j: int| p <= j < data.len() ==> data[j] != 0,
    ensures
        nul_len(data, p) is None,
    decreases data.len() - p,
{
    if p < data.len() {
        lemma_nul_len_missing(data, p + 1);
    }
}

/// The four little-endian bytes that encode a 32-bit integer.
pub open spec fn le32_bytes(v: u32) -> Seq<u8> {
    seq![
        (v % 0x100) as u8,
        ((v / 0x100) % 0x100) as u8,
        ((v / 0x1_0000) % 0x100) as u8,
        ((v / 0x100_0000) % 0x100) as u8,
    ]
}

/// Reading back the four little-endian bytes of an integer yields it again.
pub proof fn lemma_le32_round_trip(data: Seq<u8>, off: int, v: u32)
    requires
        0 <= off,
        off + 4 <= data.len(),
        data.subrange(off, off + 4) == le32_bytes(v),
    ensures
        le32_at(data, off) == v,
{
    assert(data[off] == le32_bytes(v)[0] && data[off + 1] == le32_bytes(v)[1] && data[off + 2]
        == le32_bytes(v)[2] && data[off + 3] == le32_bytes(v)[3]) by {
        assert(data.subrange(off, off + 4)[0] == data[off]);
        assert(data.subrange(off, off + 4)[1] == data[off + 1]);
        assert(data.subrange(off, off + 4)[2] == data[off + 2]);
        assert(data.subrange(off, off + 4)[3] == data[off + 3]);
    }
    assert((v % 0x100) + ((v / 0x100) % 0x100) * 0x100 + ((v / 0x1_0000) % 0x100) * 0x1_0000 + ((v
        / 0x100_0000) % 0x100) * 0x100_0000 == v) by (nonlinear_arith);
}

/// What a successful zero-byte scan means for the underlying bytes.
pub proof fn lemma_nul_len_some(data: Seq<u8>, p: int)
    requires
        nul_len(data, p) is Some,
    ensures
        0 <= p,
        p + nul_len(data, p)->0 < data.len(),
        data[p + nul_len(data, p)->0] == 0,
        forall|j: int| p <= j < p + nul_len(data, p)->0 ==> data[j] != 0,
    decreases data.len() - p,
{
    if !(p < 0 || p >= data.len()) && data[p] != 0 {
        lemma_nul_len_some(data, p + 1);
    }
}

/// Relies on `String::from_utf8`: it succeeds exactly on well-formed UTF-8
/// input and decodes it to the corresponding sequence of characters, as
/// `vstd::utf8` models both.
#[verifier::external_body]
pub(crate) fn utf8_to_string(bytes: &[u8]) -> (r: Option<String>)
    ensures
        r is Some <==> valid_utf8(bytes@),
        r matches Some(s) ==> s@ == decode_utf8(bytes@),
{
    String::from_utf8(bytes.to_vec()).ok()
}

/// Decodes the zero-terminated text field that starts at `off`, returning the
/// text and the number of bytes consumed, terminator included.
pub fn read_zero_terminated(data: &[u8], off: usize) -> (r: Result<(String, usize), StoreError>)
    ensures
        match r {
            Ok(p) => {
                &&& nul_len(data@, off as int) matches Some(k)
                &&& valid_utf8(data@.subrange(off as int, off + k))
                &&& p.0@ == decode_utf8(data@.subrange(off as int, off + k))
                &&& p.1 == k + 1
            },
            Err(StoreError::UnexpectedEof) => nul_len(data@, off as int) is None,
            Err(StoreError::InvalidText) => {
                &&& nul_len(data@, off as int) matches Some(k)
                &&& !valid_utf8(data@.subrange(off as int, off + k))
            },
            Err(_) => false,
        },
{
    let mut i = off;
    while i < data.len() && data[i] != 0
        invariant
            off <= i <= data@.len() || i == off,
            forall|j: int| off <= j < i ==> data@[j] != 0,
        decreases data@.len() - i,
    {
        i = i + 1;
    }
    if i >= data.len() {
        proof {
            lemma_nul_len_missing(data@, off as int);
        }
        return Err(StoreError::UnexpectedEof);
    }
    proof {
        lemma_nul_len_found(data@, off as int, i as int);
    }
    let raw = slice_subrange(data, off, i);
    match utf8_to_string(raw) {
        Some(s) => Ok((s, i - off + 1)),
        None => Err(StoreError::InvalidText),
    }
}

/// The characters that remain once every trailing NUL is removed.
pub open spec fn trim_nuls(s: Seq<char>) -> Seq<char>
    decreases s.len(),
{
    if s.len() > 0 && s.last() == '\0' {
        trim_nuls(s.drop_last())
    } else {
        s
    }
}

/// Copies `s` without its trailing NUL padding.
pub fn trim_trailing_nuls(s: &str) -> (r: String)
    ensures
        r@ == trim_nuls(s@),
{
    let n = s.unicode_len();
    proof {
        assert(s@.subrange(0, n as int) =~= s@);
    }
    let mut k = n;
    while k > 0 && s.get_char(k - 1) == '\0'
        invariant
            k <= n == s@.len(),
            trim_nuls(s@) == trim_nuls(s@.subrange(0, k as int)),
        decreases k,
    {
        proof {
            assert(s@.subrange(0, k as int).drop_last() =~= s@.subrange(0, k - 1));
        }
        k = k - 1;
    }
    proof {
        if k == 0 {
            assert(trim_nuls(s@.subrange(0, 0)) =~= s@.subrange(0, 0));
        }
        assert(s@.subrange(0, n as int) =~= s@);
    }
    let out = s.substring_char(0, k);
    out.to_owned()
}

/// Copies the bytes of `data` from `from` (inclusive) to `to` (exclusive),
/// stopping early where the input ends.
pub fn bytes_window(data: &[u8], from: usize, to: usize) -> (r: Vec<u8>)
    requires
        from <= to,
    ensures
        data@.len() <= from ==> r@ == Seq::<u8>::empty(),
        data@.len() > from ==> r@ == data@.subrange(
            from as int,
            if to <= data@.len() {
                to as int
            } else {
                data@.len() as int
            },
        ),
{
    if data.len() <= from {
        let empty: Vec<u8> = Vec::new();
        proof {
            assert(empty@ =~= Seq::<u8>::empty());
        }
        return empty;
    }
    let end = if to <= data.len() {
        to
    } else {
        data.len()
    };
    let part = slice_subrange(data, from, end);
    slice_to_vec(part)
}

} // verus!
