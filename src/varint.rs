use vstd::prelude::*;

use crate::error::{Error, Result};
use crate::read_ext::{
    le_bytes, le_value, lemma_le_bytes_first, lemma_le_round_trip, lemma_pow256_facts, pow256,
    read_le, write_le,
};

verus! {

/// Largest magnitude plus one that the format can carry.
pub const VARINT_LIMIT: u64 = 0x4000_0000_0000_0000;

/// The size class chosen for a magnitude: the smallest width it fits in.
pub open spec fn size_class(n: nat) -> nat {
    if n < 64 {
        0
    } else if n < 16384 {
        1
    } else if n < 1073741824 {
        2
    } else {
        3
    }
}

/// Bytes taken by a size class.
pub open spec fn class_width(c: nat) -> nat {
    if c == 0 {
        1
    } else if c == 1 {
        2
    } else if c == 2 {
        4
    } else {
        8
    }
}

/// The wire form of a magnitude: shifted left by two, size class in the low
/// bits, little-endian in the width of the class.
pub open spec fn spec_encode(n: nat) -> Seq<u8> {
    le_bytes(n * 4 + size_class(n), class_width(size_class(n)))
}

/// What reading a varint from the front of `s` gives: the magnitude and the
/// number of bytes taken.
pub open spec fn spec_decode(s: Seq<u8>) -> Result<(nat, nat)> {
    if s.len() == 0 {
        Err(Error::UnexpectedEof)
    } else {
        let w = class_width((s[0] % 4) as nat);
        if s.len() < w {
            Err(Error::UnexpectedEof)
        } else {
            Ok((le_value(s.take(w as int)) / 4, w))
        }
    }
}

pub fn encode(number: usize) -> (r: Vec<u8>)
    requires
        number < VARINT_LIMIT,
    ensures
        r@ == spec_encode(number as nat),
{
    let size_marker: u64 = if number < 64 {
        0
    } else if number < 16384 {
        1
    } else if number < 1073741824 {
        2
    } else {
        3
    };
    let width: usize = if size_marker == 0 {
        1
    } else if size_marker == 1 {
        2
    } else if size_marker == 2 {
        4
    } else {
        8
    };
    let shifted: u64 = (number as u64) * 4 + size_marker;
    let mut out: Vec<u8> = Vec::new();
    write_le(&mut out, shifted, width);
    assert(out@ =~= spec_encode(number as nat));
    out
}

/// Reads a varint at `pos`: the magnitude and the number of bytes it took.
pub fn decode(data: &[u8], pos: usize) -> (r: Result<(u64, usize)>)
    requires
        pos <= data@.len(),
    ensures
        spec_decode(data@.subrange(pos as int, data@.len() as int)) == (match r {
            Ok((n, w)) => Ok::<(nat, nat), Error>((n as nat, w as nat)),
            Err(e) => Err(e),
        }),
        r is Ok ==> 1 <= r->Ok_0.1 <= 8 && pos + r->Ok_0.1 <= data@.len(),
{
    let ghost s = data@.subrange(pos as int, data@.len() as int);
    if pos >= data.len() {
        return Err(Error::UnexpectedEof);
    }
    let v = data[pos];
    let mask = v & 0x03;
    assert(mask == v % 4) by (bit_vector)
        requires
            mask == v & 3u8,
    ;
    let width: usize = if mask == 0 {
        1
    } else if mask == 1 {
        2
    } else if mask == 2 {
        4
    } else if mask == 3 {
        8
    } else {
        return Err(Error::InvalidVarIntMask);
    };
    let raw = read_le(data, pos, width)?;
    assert(data@.subrange(pos as int, pos + width) =~= s.take(width as int));
    proof {
        lemma_pow256_facts();
    }
    Ok((raw / 4, width))
}

/// A decoded magnitude always fits in 62 bits.
pub proof fn lemma_decode_bound(s: Seq<u8>)
    ensures
        spec_decode(s) is Ok ==> spec_decode(s)->Ok_0.0 < VARINT_LIMIT,
{
    if spec_decode(s) is Ok {
        let w = class_width((s[0] % 4) as nat);
        crate::read_ext::lemma_le_value_bound(s.take(w as int));
        lemma_pow256_facts();
        crate::read_ext::lemma_pow_mono(w, 8);
    }
}

/// Every magnitude the format can carry is read back from its encoding,
/// whatever follows it, and the encoding takes the smallest size class.
pub proof fn lemma_varint_round_trip(n: nat, rest: Seq<u8>)
    requires
        n < VARINT_LIMIT,
    ensures
        spec_decode(spec_encode(n) + rest) == Ok::<(nat, nat), Error>(
            (n, class_width(size_class(n))),
        ),
        spec_encode(n).len() == class_width(size_class(n)),
        size_class(n) == 0 <==> n < 64,
        size_class(n) == 1 <==> 64 <= n < 16384,
        size_class(n) == 2 <==> 16384 <= n < 1073741824,
        size_class(n) == 3 <==> 1073741824 <= n,
{
    let c = size_class(n);
    let w = class_width(c);
    let x = n * 4 + c;
    lemma_pow256_facts();
    assert(x < pow256(w));
    lemma_le_round_trip(x, w);
    lemma_le_bytes_first(x, w);
    let s = spec_encode(n) + rest;
    assert(s.take(w as int) =~= spec_encode(n));
    assert(((x % 256) as u8) % 4 == c) by (nonlinear_arith)
        requires
            x == n * 4 + c,
            c < 4,
    ;
    assert(x / 4 == n) by (nonlinear_arith)
        requires
            x == n * 4 + c,
            c < 4,
    ;
}

} // verus!
