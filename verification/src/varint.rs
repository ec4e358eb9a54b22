use vstd::prelude::*;

use crate::error::StoreError;

verus! {

/// How many continuation bytes the first byte of a var-int announces: its
/// number of leading one bits.
pub open spec fn var_int_extra(b0: u8) -> nat {
    if b0 < 0x80 {
        0
    } else if b0 < 0xC0 {
        1
    } else if b0 < 0xE0 {
        2
    } else if b0 < 0xF0 {
        3
    } else if b0 < 0xF8 {
        4
    } else if b0 < 0xFC {
        5
    } else if b0 < 0xFE {
        6
    } else if b0 < 0xFF {
        7
    } else {
        8
    }
}

/// Total encoded length of a var-int whose first byte is `b0`.
pub open spec fn var_int_len(b0: u8) -> nat {
    1 + var_int_extra(b0)
}

/// What the first byte contributes to the value, as a (possibly empty)
/// most-significant byte: itself when it has no leading ones, its low bits
/// when one to four leading ones announce the length, and nothing at all when
/// five or more do, the first byte then being a pure length marker.
pub open spec fn var_int_head(b0: u8) -> Seq<u8> {
    let e = var_int_extra(b0);
    if e == 0 {
        seq![b0]
    } else if e == 1 {
        seq![(b0 - 0x80) as u8]
    } else if e == 2 {
        seq![(b0 - 0xC0) as u8]
    } else if e == 3 {
        seq![(b0 - 0xE0) as u8]
    } else if e == 4 {
        seq![(b0 - 0xF0) as u8]
    } else {
        Seq::empty()
    }
}

/// A byte sequence read as one big-endian integer.
pub open spec fn be_accum(s: Seq<u8>) -> nat
    decreases s.len(),
{
    if s.len() == 0 {
        0
    } else {
        (be_accum(s.drop_last()) * 0x100 + s.last()) as nat
    }
}

/// 256 raised to `n`.
pub open spec fn pow256(n: nat) -> nat
    decreases n,
{
    if n == 0 {
        1
    } else {
        0x100 * pow256((n - 1) as nat)
    }
}

pub proof fn lemma_be_accum_bound(s: Seq<u8>)
    ensures
        be_accum(s) < pow256(s.len()),
    decreases s.len(),
{
    if s.len() > 0 {
        lemma_be_accum_bound(s.drop_last());
    }
}

/// The value of the var-int at the start of `s`: the head contributed by the
/// first byte, followed big-endian by the announced continuation bytes.
pub open spec fn var_int_value(s: Seq<u8>) -> nat {
    let e = var_int_extra(s[0]) as int;
    be_accum(var_int_head(s[0]) + s.subrange(1, 1 + e))
}

/// Decodes the self-describing integer at the start of `data`, returning the
/// value and the number of bytes consumed.
pub fn read_var_int(data: &[u8]) -> (r: Result<(u64, u64), StoreError>)
    ensures
        match r {
            Ok(p) => {
                &&& data@.len() >= var_int_len(data@[0])
                &&& p.0 == var_int_value(data@)
                &&& p.1 == var_int_len(data@[0])
            },
            Err(e) => {
                &&& e == StoreError::UnexpectedEof
                &&& (data@.len() == 0 || data@.len() < var_int_len(data@[0]))
            },
        },
{
    if data.len() == 0 {
        return Err(StoreError::UnexpectedEof);
    }
    let b0 = data[0];
    let extra: usize = if b0 < 0x80 {
        0
    } else if b0 < 0xC0 {
        1
    } else if b0 < 0xE0 {
        2
    } else if b0 < 0xF0 {
        3
    } else if b0 < 0xF8 {
        4
    } else if b0 < 0xFC {
        5
    } else if b0 < 0xFE {
        6
    } else if b0 < 0xFF {
        7
    } else {
        8
    };
    assert(extra == var_int_extra(b0));
    if data.len() < 1 + extra {
        return Err(StoreError::UnexpectedEof);
    }
    let ghost head = var_int_head(b0);
    let mut acc: u64 = if b0 < 0x80 {
        b0 as u64
    } else if b0 < 0xC0 {
        (b0 - 0x80) as u64
    } else if b0 < 0xE0 {
        (b0 - 0xC0) as u64
    } else if b0 < 0xF0 {
        (b0 - 0xE0) as u64
    } else if b0 < 0xF8 {
        (b0 - 0xF0) as u64
    } else {
        0
    };
    proof {
        assert(be_accum(Seq::<u8>::empty()) == 0);
        assert(data@.subrange(1, 1) =~= Seq::<u8>::empty());
        assert(head + data@.subrange(1, 1) =~= head);
        if head.len() > 0 {
            assert(head.drop_last() =~= Seq::<u8>::empty());
            assert(be_accum(head) == be_accum(head.drop_last()) * 0x100 + head.last());
        }
        assert(acc == be_accum(head + data@.subrange(1, 1)));
    }
    let mut i: usize = 1;
    while i < 1 + extra
        invariant
            1 <= i <= 1 + extra,
            1 + extra <= data@.len(),
            extra == var_int_extra(b0),
            b0 == data@[0],
            head == var_int_head(b0),
            head.len() + extra <= 8,
            acc == be_accum(head + data@.subrange(1, i as int)),
        decreases 1 + extra - i,
    {
        proof {
            lemma_be_accum_bound(head + data@.subrange(1, i as int));
            lemma_pow256_within_u64((head + data@.subrange(1, i as int)).len());
            assert((head + data@.subrange(1, i + 1)).drop_last() =~= head + data@.subrange(
                1,
                i as int,
            ));
        }
        acc = acc * 0x100 + (data[i] as u64);
        i = i + 1;
    }
    proof {
        assert(head + data@.subrange(1, 1 + extra as int) =~= var_int_head(data@[0])
            + data@.subrange(1, 1 + var_int_extra(data@[0]) as int));
    }
    Ok((acc, 1 + extra as u64))
}

proof fn lemma_pow256_increases(a: nat, b: nat)
    requires
        a <= b,
    ensures
        pow256(a) <= pow256(b),
    decreases b,
{
    if a < b {
        lemma_pow256_increases(a, (b - 1) as nat);
    }
}

proof fn lemma_pow256_within_u64(n: nat)
    requires
        n <= 7,
    ensures
        pow256(n) <= 0x100_0000_0000_0000,
{
    lemma_pow256_increases(n, 7);
    assert(pow256(7) == 0x100 * pow256(6));
    assert(pow256(6) == 0x100 * pow256(5));
    assert(pow256(5) == 0x100 * pow256(4));
    assert(pow256(4) == 0x100 * pow256(3));
    assert(pow256(3) == 0x100 * pow256(2));
    assert(pow256(2) == 0x100 * pow256(1));
    assert(pow256(1) == 0x100 * pow256(0));
    assert(pow256(0) == 1);
}

} // verus!
