use vstd::prelude::*;

use crate::error::{Error, Result};

verus! {

/// `256` to the power `k`.
pub open spec fn pow256(k: nat) -> nat
    decreases k,
{
    if k == 0 {
        1
    } else {
        256 * pow256((k - 1) as nat)
    }
}

/// The number that bytes denote when read little-endian.
pub open spec fn le_value(s: Seq<u8>) -> nat
    decreases s.len(),
{
    if s.len() == 0 {
        0
    } else {
        s[0] as nat + 256 * le_value(s.drop_first())
    }
}

/// The `width` lowest bytes of `x`, least significant first.
pub open spec fn le_bytes(x: nat, width: nat) -> Seq<u8>
    decreases width,
{
    if width == 0 {
        Seq::empty()
    } else {
        seq![(x % 256) as u8] + le_bytes(x / 256, (width - 1) as nat)
    }
}

pub proof fn lemma_pow256_facts()
    ensures
        pow256(1) == 0x100,
        pow256(2) == 0x1_0000,
        pow256(4) == 0x1_0000_0000,
        pow256(8) == 0x1_0000_0000_0000_0000,
{
    reveal_with_fuel(pow256, 9);
}

pub proof fn lemma_le_value_bound(s: Seq<u8>)
    ensures
        le_value(s) < pow256(s.len()),
    decreases s.len(),
{
    if s.len() > 0 {
        lemma_le_value_bound(s.drop_first());
        let r = le_value(s.drop_first());
        let p = pow256((s.len() - 1) as nat);
        assert(s[0] as nat + 256 * r < 256 * p) by (nonlinear_arith)
            requires
                r < p,
                s[0] < 256,
        ;
    }
}

/// Writing the low bytes of a number that fits and reading them back gives the number.
pub proof fn lemma_le_round_trip(x: nat, width: nat)
    requires
        x < pow256(width),
    ensures
        le_bytes(x, width).len() == width,
        le_value(le_bytes(x, width)) == x,
    decreases width,
{
    if width > 0 {
        let p = pow256((width - 1) as nat);
        assert(x / 256 < p) by (nonlinear_arith)
            requires
                x < 256 * p,
        ;
        lemma_le_round_trip(x / 256, (width - 1) as nat);
        let s = le_bytes(x, width);
        assert(s.drop_first() =~= le_bytes(x / 256, (width - 1) as nat));
        assert(x == (x % 256) + 256 * (x / 256)) by (nonlinear_arith);
    }
}

pub proof fn lemma_le_bytes_first(x: nat, width: nat)
    requires
        width > 0,
    ensures
        le_bytes(x, width)[0] == (x % 256) as u8,
{
}

/// Reads `width` bytes at `pos` as a little-endian number.
pub fn read_le(data: &[u8], pos: usize, width: usize) -> (r: Result<u64>)
    requires
        width <= 8,
    ensures
        pos as int + width as int <= data@.len() ==> r == Ok::<u64, Error>(
            le_value(data@.subrange(pos as int, pos + width)) as u64,
        ),
        pos as int + width as int > data@.len() ==> r == Err::<u64, Error>(Error::UnexpectedEof),
        r is Ok ==> pos + width <= data@.len(),
        r is Ok ==> le_value(data@.subrange(pos as int, pos + width)) < pow256(width as nat),
{
    if pos > data.len() || data.len() - pos < width {
        return Err(Error::UnexpectedEof);
    }
    let end = pos + width;
    let mut i: usize = end;
    let mut v: u64 = 0;
    proof {
        lemma_pow256_facts();
        lemma_le_value_bound(data@.subrange(pos as int, end as int));
    }
    while i > pos
        invariant
            pos <= i <= end,
            end == pos + width,
            end <= data@.len(),
            width <= 8,
            pow256(8) == 0x1_0000_0000_0000_0000,
            v as nat == le_value(data@.subrange(i as int, end as int)),
        decreases i,
    {
        i = i - 1;
        proof {
            let t = data@.subrange(i as int, end as int);
            assert(t.drop_first() =~= data@.subrange(i + 1, end as int));
            lemma_le_value_bound(t);
            lemma_pow_mono((end - i) as nat, 8);
        }
        v = v * 256 + data[i] as u64;
    }
    Ok(v)
}

pub proof fn lemma_pow_mono(a: nat, b: nat)
    requires
        a <= b,
    ensures
        pow256(a) <= pow256(b),
    decreases b,
{
    if a < b {
        lemma_pow_mono(a, (b - 1) as nat);
    }
}

/// Appends the `width` low bytes of `x`, least significant first.
pub fn write_le(out: &mut Vec<u8>, x: u64, width: usize)
    ensures
        final(out)@ == old(out)@ + le_bytes(x as nat, width as nat),
{
    let ghost start = old(out)@;
    let mut y: u64 = x;
    let mut i: usize = 0;
    while i < width
        invariant
            i <= width,
            out@ + le_bytes(y as nat, (width - i) as nat) == start + le_bytes(x as nat, width as nat),
        decreases width - i,
    {
        let ghost before = out@;
        out.push((y % 256) as u8);
        proof {
            let rest = le_bytes((y / 256) as nat, (width - i - 1) as nat);
            assert(le_bytes(y as nat, (width - i) as nat) == seq![(y % 256) as u8] + rest);
            assert(out@ + rest =~= before + (seq![(y % 256) as u8] + rest));
        }
        y = y / 256;
        i = i + 1;
    }
    assert(out@ + le_bytes(y as nat, 0) =~= out@);
}

/// Reads one byte that must be 0 or 1.
pub open spec fn spec_bool(b: u8) -> Result<bool> {
    if b > 1 {
        Err(Error::InvalidBoolValue)
    } else {
        Ok(b != 0)
    }
}

pub fn read_bool(b: u8) -> (r: Result<bool>)
    ensures
        r == spec_bool(b),
{
    if b > 1 {
        Err(Error::InvalidBoolValue)
    } else {
        Ok(b != 0)
    }
}

} // verus!
