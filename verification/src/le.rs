//! Little-endian integers of a fixed width, as they stand in records.

use vstd::prelude::*;

verus! {

/// The `width` low bytes of `x`, least significant first.
pub open spec fn le_bytes(x: nat, width: nat) -> Seq<u8>
    decreases width,
{
    if width == 0 {
        Seq::empty()
    } else {
        seq![(x % 256) as u8] + le_bytes(x / 256, (width - 1) as nat)
    }
}

/// The number whose little-endian bytes are `bytes`.
pub open spec fn le_value(bytes: Seq<u8>) -> nat
    decreases bytes.len(),
{
    if bytes.len() == 0 {
        0
    } else {
        bytes[0] as nat + 256 * le_value(bytes.skip(1))
    }
}

/// `256` to the power `width`.
pub open spec fn radix_pow(width: nat) -> nat
    decreases width,
{
    if width == 0 {
        1
    } else {
        256 * radix_pow((width - 1) as nat)
    }
}

/// A number written in `width` bytes takes `width` bytes.
pub proof fn lemma_le_bytes_len(x: nat, width: nat)
    ensures
        le_bytes(x, width).len() == width,
    decreases width,
{
    if width > 0 {
        lemma_le_bytes_len(x / 256, (width - 1) as nat);
    }
}

/// Reading back what was written gives the number again, as far as it fits.
pub proof fn lemma_le_round_trip(x: nat, width: nat)
    ensures
        le_value(le_bytes(x, width)) == x % radix_pow(width),
    decreases width,
{
    if width > 0 {
        let rest = le_bytes(x / 256, (width - 1) as nat);
        let all = le_bytes(x, width);
        lemma_le_round_trip(x / 256, (width - 1) as nat);
        lemma_le_bytes_len(x, width);
        assert(all.skip(1) =~= rest);
        let p = radix_pow((width - 1) as nat);
        lemma_radix_pow_positive((width - 1) as nat);
        assert(x % (256 * p) == x % 256 + 256 * ((x / 256) % p)) by {
            lemma_mod_split(x, p);
        }
    }
}

/// A power of `256` is positive.
pub proof fn lemma_radix_pow_positive(width: nat)
    ensures
        radix_pow(width) > 0,
    decreases width,
{
    if width > 0 {
        lemma_radix_pow_positive((width - 1) as nat);
    }
}

proof fn lemma_mod_split(x: nat, p: nat)
    requires
        p > 0,
    ensures
        x % (256 * p) == x % 256 + 256 * ((x / 256) % p),
{
    let q = x / 256;
    let r = x % 256;
    let q2 = q / p;
    let r2 = q % p;
    assert(x == 256 * q + r);
    assert(q == p * q2 + r2) by {
        vstd::arithmetic::div_mod::lemma_fundamental_div_mod(q as int, p as int);
    }
    assert(x == (256 * p) * q2 + (256 * r2 + r)) by (nonlinear_arith)
        requires
            x == 256 * q + r,
            q == p * q2 + r2,
    ;
    assert(0 <= 256 * r2 + r < 256 * p) by (nonlinear_arith)
        requires
            0 <= r < 256,
            0 <= r2 < p,
    ;
    vstd::arithmetic::div_mod::lemma_fundamental_div_mod_converse(
        x as int,
        (256 * p) as int,
        q2 as int,
        (256 * r2 + r) as int,
    );
}

/// A number read from `bytes` is below `256` to the power of their count.
pub proof fn lemma_le_value_bound(bytes: Seq<u8>)
    ensures
        le_value(bytes) < radix_pow(bytes.len()),
    decreases bytes.len(),
{
    if bytes.len() > 0 {
        lemma_le_value_bound(bytes.skip(1));
    }
}

/// The powers of `256` that the record formats use.
pub proof fn lemma_radix_pow_values()
    ensures
        radix_pow(0) == 1,
        radix_pow(1) == 0x100,
        radix_pow(2) == 0x1_0000,
        radix_pow(4) == 0x1_0000_0000,
        radix_pow(8) == 0x1_0000_0000_0000_0000,
{
    reveal_with_fuel(radix_pow, 9);
}

/// Writing a number and reading it back gives the number, where it fits
/// the width.
pub proof fn lemma_le_value_of_bytes(x: nat, width: nat)
    requires
        x < radix_pow(width),
    ensures
        le_bytes(x, width).len() == width,
        le_value(le_bytes(x, width)) == x,
{
    lemma_le_bytes_len(x, width);
    lemma_le_round_trip(x, width);
    vstd::arithmetic::div_mod::lemma_small_mod(x, radix_pow(width));
}

/// Appends the `width` low bytes of `x` to `out`, least significant first.
pub fn push_le(out: &mut Vec<u8>, x: u64, width: usize)
    ensures
        final(out)@ == old(out)@ + le_bytes(x as nat, width as nat),
{
    let mut rest: u64 = x;
    let mut i: usize = 0;
    while i < width
        invariant
            i <= width,
            old(out)@ + le_bytes(x as nat, width as nat) == out@ + le_bytes(
                rest as nat,
                (width - i) as nat,
            ),
        decreases width - i,
    {
        proof {
            assert(out@.push((rest % 256) as u8) + le_bytes(
                (rest / 256) as nat,
                (width - i - 1) as nat,
            ) =~= out@ + le_bytes(rest as nat, (width - i) as nat));
        }
        out.push((rest % 256) as u8);
        rest = rest / 256;
        i += 1;
    }
    proof {
        assert(out@ + le_bytes(rest as nat, 0) =~= out@);
    }
}

/// Reads the number that the `width` bytes from `start` on hold, least
/// significant first.
pub fn read_le(bytes: &[u8], start: usize, width: usize) -> (x: u64)
    requires
        width <= 8,
        start + width <= bytes@.len(),
    ensures
        x == le_value(bytes@.subrange(start as int, start + width)),
{
    let mut x: u64 = 0;
    let mut i: usize = width;
    let total = bytes.len();
    proof {
        lemma_radix_pow_values();
    }
    while i > 0
        invariant
            i <= width,
            width <= 8,
            start + width <= total,
            total == bytes@.len(),
            x == le_value(bytes@.subrange(start + i, start + width)),
            x < radix_pow((width - i) as nat),
        decreases i,
    {
        i -= 1;
        proof {
            let longer = bytes@.subrange(start + i, start + width);
            assert(longer.skip(1) =~= bytes@.subrange(start + i + 1, start + width));
            assert(longer[0] == bytes@[start + i]);
            lemma_le_value_bound(longer);
            lemma_radix_pow_monotonic((width - i) as nat, 8);
            lemma_radix_pow_values();
        }
        x = x * 256 + bytes[start + i] as u64;
    }
    x
}

/// The powers of `256` grow with the exponent.
pub proof fn lemma_radix_pow_monotonic(a: nat, b: nat)
    requires
        a <= b,
    ensures
        radix_pow(a) <= radix_pow(b),
    decreases b,
{
    if a < b {
        lemma_radix_pow_monotonic(a, (b - 1) as nat);
    }
}

/// Appends `src` to `out`.
pub fn append_bytes(out: &mut Vec<u8>, src: &[u8])
    ensures
        final(out)@ == old(out)@ + src@,
{
    let mut i: usize = 0;
    while i < src.len()
        invariant
            i <= src.len(),
            out@ == old(out)@ + src@.take(i as int),
        decreases src.len() - i,
    {
        proof {
            assert(src@.take(i + 1) =~= src@.take(i as int).push(src@[i as int]));
        }
        out.push(src[i]);
        i += 1;
    }
    proof {
        assert(src@.take(src.len() as int) =~= src@);
    }
}

/// A copy of the bytes of `src` from `start` up to `end`.
pub fn copy_range(src: &[u8], start: usize, end: usize) -> (out: Vec<u8>)
    requires
        start <= end <= src@.len(),
    ensures
        out@ == src@.subrange(start as int, end as int),
{
    let mut out: Vec<u8> = Vec::new();
    let mut i: usize = start;
    while i < end
        invariant
            start <= i <= end,
            end <= src@.len(),
            out@ == src@.subrange(start as int, i as int),
        decreases end - i,
    {
        proof {
            assert(src@.subrange(start as int, i + 1) =~= src@.subrange(
                start as int,
                i as int,
            ).push(src@[i as int]));
        }
        out.push(src[i]);
        i += 1;
    }
    out
}

} // verus!
