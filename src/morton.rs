//! Morton (Z-order) codes of two 16-bit coordinates.
use vstd::prelude::*;

verus! {

/// Spreads the low 16 bits of `v` so that bit `i` lands on bit `2 * i`;
/// the odd bits and the high half of `v` are dropped.
pub open spec fn spread(v: u32) -> u32 {
    let a = (v | (v << 8u32)) & 0x00FF00FFu32;
    let b = (a | (a << 4u32)) & 0x0F0F0F0Fu32;
    let c = (b | (b << 2u32)) & 0x33333333u32;
    (c | (c << 1u32)) & 0x55555555u32
}

/// Gathers the even bits of `z` into the low 16 bits: the inverse of `spread`.
pub open spec fn gather(z: u32) -> u32 {
    let a = z & 0x55555555u32;
    let b = (a | (a >> 1u32)) & 0x33333333u32;
    let c = (b | (b >> 2u32)) & 0x0F0F0F0Fu32;
    let d = (c | (c >> 4u32)) & 0x00FF00FFu32;
    (d | (d >> 8u32)) & 0x0000FFFFu32
}

/// The Morton code of `(x, y)`: the bits of `x` on the even positions, those
/// of `y` on the odd ones.
pub open spec fn morton(x: u32, y: u32) -> u32 {
    spread(x) | (spread(y) << 1u32)
}

/// The two coordinates that a Morton code holds.
pub open spec fn unmorton(z: u32) -> (u32, u32) {
    (gather(z), gather(z >> 1u32))
}

/// Bit `i` of `v`, as 0 or 1.
pub open spec fn bit(v: u32, i: u32) -> u32 {
    (v >> i) & 1u32
}

/// `spread` moves bit `i` of a 16-bit value to bit `2 * i` and clears the odd bits.
pub proof fn lemma_spread_bits(v: u32, i: u32)
    requires
        v < 0x10000,
        i < 16,
    ensures
        bit(spread(v), (2 * i) as u32) == bit(v, i),
        bit(spread(v), (2 * i + 1) as u32) == 0,
{
    let a = (v | (v << 8u32)) & 0x00FF00FFu32;
    let b = (a | (a << 4u32)) & 0x0F0F0F0Fu32;
    let c = (b | (b << 2u32)) & 0x33333333u32;
    let d = (c | (c << 1u32)) & 0x55555555u32;
    let j: u32 = (2 * i) as u32;
    assert((d >> j) & 1u32 == (v >> i) & 1u32 && (d >> (j + 1u32)) & 1u32 == 0) by (bit_vector)
        requires
            v < 0x10000u32,
            i < 16u32,
            j == i + i,
            a == (v | (v << 8u32)) & 0x00FF00FFu32,
            b == (a | (a << 4u32)) & 0x0F0F0F0Fu32,
            c == (b | (b << 2u32)) & 0x33333333u32,
            d == (c | (c << 1u32)) & 0x55555555u32,
    ;
}

/// In a Morton code bit `2 * i` is bit `i` of `x` and bit `2 * i + 1` is bit
/// `i` of `y`, for 16-bit coordinates.
pub proof fn lemma_morton_bits(x: u32, y: u32, i: u32)
    requires
        x < 0x10000,
        y < 0x10000,
        i < 16,
    ensures
        bit(morton(x, y), (2 * i) as u32) == bit(x, i),
        bit(morton(x, y), (2 * i + 1) as u32) == bit(y, i),
{
    lemma_spread_bits(x, i);
    lemma_spread_bits(y, i);
    spread_is_even(x);
    spread_is_even(y);
    let sx = spread(x);
    let sy = spread(y);
    let j: u32 = (2 * i) as u32;
    assert(j & 1u32 == 0) by (bit_vector)
        requires
            j == i + i,
            i < 16u32,
    ;
    assert((((sx | (sy << 1u32)) >> j) & 1u32 == (sx >> j) & 1u32) && (((sx | (sy << 1u32)) >> (j
        + 1u32)) & 1u32 == (sy >> j) & 1u32)) by (bit_vector)
        requires
            j < 31u32,
            j & 1u32 == 0,
            sx & 0xAAAAAAAAu32 == 0,
            sy & 0xAAAAAAAAu32 == 0,
    ;
}

/// Decoding the Morton code of two 16-bit coordinates gives them back.
pub proof fn lemma_unmorton_morton(x: u32, y: u32)
    requires
        x < 0x10000,
        y < 0x10000,
    ensures
        unmorton(morton(x, y)) == (x, y),
{
    let z = morton(x, y);
    let sx = spread(x);
    let sy = spread(y);
    assert(sx & 0xAAAAAAAAu32 == 0 && sy & 0xAAAAAAAAu32 == 0) by {
        spread_is_even(x);
        spread_is_even(y);
    }
    assert(z & 0x55555555u32 == sx && (z >> 1u32) & 0x55555555u32 == sy) by (bit_vector)
        requires
            z == sx | (sy << 1u32),
            sx & 0xAAAAAAAAu32 == 0,
            sy & 0xAAAAAAAAu32 == 0,
    ;
    gather_spread(x);
    gather_spread(y);
    gather_masks(z);
    gather_masks(z >> 1u32);
}

/// Encoding the coordinates that a Morton code holds gives the code back.
pub proof fn lemma_morton_unmorton(z: u32)
    ensures
        morton(unmorton(z).0, unmorton(z).1) == z,
{
    let a = z & 0x55555555u32;
    let b = (z >> 1u32) & 0x55555555u32;
    gather_masks(z);
    gather_masks(z >> 1u32);
    assert(a & 0xAAAAAAAAu32 == 0 && b & 0xAAAAAAAAu32 == 0) by (bit_vector)
        requires
            a == z & 0x55555555u32,
            b == (z >> 1u32) & 0x55555555u32,
    ;
    spread_gather(a);
    spread_gather(b);
    assert(a | (b << 1u32) == z) by (bit_vector)
        requires
            a == z & 0x55555555u32,
            b == (z >> 1u32) & 0x55555555u32,
    ;
}

proof fn spread_gather(e: u32)
    requires
        e & 0xAAAAAAAAu32 == 0,
    ensures
        spread(gather(e)) == e,
{
    let f = (e | (e >> 1u32)) & 0x33333333u32;
    let g = (f | (f >> 2u32)) & 0x0F0F0F0Fu32;
    let h = (g | (g >> 4u32)) & 0x00FF00FFu32;
    let k = (h | (h >> 8u32)) & 0x0000FFFFu32;
    let a = (k | (k << 8u32)) & 0x00FF00FFu32;
    let b = (a | (a << 4u32)) & 0x0F0F0F0Fu32;
    let c = (b | (b << 2u32)) & 0x33333333u32;
    let d = (c | (c << 1u32)) & 0x55555555u32;
    assert(e & 0x55555555u32 == e) by (bit_vector)
        requires
            e & 0xAAAAAAAAu32 == 0,
    ;
    assert(d == e) by (bit_vector)
        requires
            e & 0xAAAAAAAAu32 == 0,
            f == (e | (e >> 1u32)) & 0x33333333u32,
            g == (f | (f >> 2u32)) & 0x0F0F0F0Fu32,
            h == (g | (g >> 4u32)) & 0x00FF00FFu32,
            k == (h | (h >> 8u32)) & 0x0000FFFFu32,
            a == (k | (k << 8u32)) & 0x00FF00FFu32,
            b == (a | (a << 4u32)) & 0x0F0F0F0Fu32,
            c == (b | (b << 2u32)) & 0x33333333u32,
            d == (c | (c << 1u32)) & 0x55555555u32,
    ;
}

proof fn spread_is_even(v: u32)
    ensures
        spread(v) & 0xAAAAAAAAu32 == 0,
{
    let a = (v | (v << 8u32)) & 0x00FF00FFu32;
    let b = (a | (a << 4u32)) & 0x0F0F0F0Fu32;
    let c = (b | (b << 2u32)) & 0x33333333u32;
    let d = (c | (c << 1u32)) & 0x55555555u32;
    assert(d & 0xAAAAAAAAu32 == 0) by (bit_vector)
        requires
            d == (c | (c << 1u32)) & 0x55555555u32,
    ;
}

/// `gather` reads the even bits only.
proof fn gather_masks(z: u32)
    ensures
        gather(z) == gather(z & 0x55555555u32),
{
    assert((z & 0x55555555u32) & 0x55555555u32 == z & 0x55555555u32) by (bit_vector);
}

proof fn gather_spread(v: u32)
    requires
        v < 0x10000,
    ensures
        gather(spread(v)) == v,
{
    let a = (v | (v << 8u32)) & 0x00FF00FFu32;
    let b = (a | (a << 4u32)) & 0x0F0F0F0Fu32;
    let c = (b | (b << 2u32)) & 0x33333333u32;
    let d = (c | (c << 1u32)) & 0x55555555u32;
    let e = d & 0x55555555u32;
    let f = (e | (e >> 1u32)) & 0x33333333u32;
    let g = (f | (f >> 2u32)) & 0x0F0F0F0Fu32;
    let h = (g | (g >> 4u32)) & 0x00FF00FFu32;
    let k = (h | (h >> 8u32)) & 0x0000FFFFu32;
    assert(k == v) by (bit_vector)
        requires
            v < 0x10000u32,
            a == (v | (v << 8u32)) & 0x00FF00FFu32,
            b == (a | (a << 4u32)) & 0x0F0F0F0Fu32,
            c == (b | (b << 2u32)) & 0x33333333u32,
            d == (c | (c << 1u32)) & 0x55555555u32,
            e == d & 0x55555555u32,
            f == (e | (e >> 1u32)) & 0x33333333u32,
            g == (f | (f >> 2u32)) & 0x0F0F0F0Fu32,
            h == (g | (g >> 4u32)) & 0x00FF00FFu32,
            k == (h | (h >> 8u32)) & 0x0000FFFFu32,
    ;
}

/// `gather` moves bit `2 * i` of its argument to bit `i` and leaves the
/// high half clear.
pub proof fn lemma_gather_bits(z: u32, i: u32)
    requires
        i < 16,
    ensures
        bit(gather(z), i) == bit(z, (2 * i) as u32),
        gather(z) < 0x10000,
{
    let a = z & 0x55555555u32;
    let b = (a | (a >> 1u32)) & 0x33333333u32;
    let c = (b | (b >> 2u32)) & 0x0F0F0F0Fu32;
    let d = (c | (c >> 4u32)) & 0x00FF00FFu32;
    let e = (d | (d >> 8u32)) & 0x0000FFFFu32;
    let j: u32 = (2 * i) as u32;
    assert((e >> i) & 1u32 == (z >> j) & 1u32 && e < 0x10000u32) by (bit_vector)
        requires
            i < 16u32,
            j == i + i,
            a == z & 0x55555555u32,
            b == (a | (a >> 1u32)) & 0x33333333u32,
            c == (b | (b >> 2u32)) & 0x0F0F0F0Fu32,
            d == (c | (c >> 4u32)) & 0x00FF00FFu32,
            e == (d | (d >> 8u32)) & 0x0000FFFFu32,
    ;
}

/// Interleaves the low 16 bits of `x` and `y` into one Morton code: for
/// 16-bit coordinates, bit `2 * i` of the code is bit `i` of `x` and bit
/// `2 * i + 1` is bit `i` of `y`.
pub fn interleave_morton(x: u32, y: u32) -> (z: u32)
    ensures
        z == morton(x, y),
        x < 0x10000 && y < 0x10000 ==> forall|i: u32|
            i < 16 ==> #[trigger] bit(z, (2 * i) as u32) == bit(x, i) && bit(z, (2 * i + 1) as u32)
                == bit(y, i),
{
    let a = (x | (x << 8u32)) & 0x00FF00FFu32;
    let a = (a | (a << 4u32)) & 0x0F0F0F0Fu32;
    let a = (a | (a << 2u32)) & 0x33333333u32;
    let a = (a | (a << 1u32)) & 0x55555555u32;
    let b = (y | (y << 8u32)) & 0x00FF00FFu32;
    let b = (b | (b << 4u32)) & 0x0F0F0F0Fu32;
    let b = (b | (b << 2u32)) & 0x33333333u32;
    let b = (b | (b << 1u32)) & 0x55555555u32;
    let z = a | (b << 1u32);
    proof {
        assert(z == morton(x, y));
        if x < 0x10000 && y < 0x10000 {
            assert forall|i: u32| i < 16 implies #[trigger] bit(z, (2 * i) as u32) == bit(x, i) && bit(
                z,
                (2 * i + 1) as u32,
            ) == bit(y, i) by {
                lemma_morton_bits(x, y, i);
            }
        }
    }
    z
}

/// Splits a Morton code into its two 16-bit coordinates: bit `i` of the
/// first is bit `2 * i` of the code, bit `i` of the second bit `2 * i + 1`.
pub fn deinterleave_morton(z: u32) -> (r: (u32, u32))
    ensures
        r == unmorton(z),
        r.0 < 0x10000,
        r.1 < 0x10000,
        forall|i: u32|
            i < 16 ==> #[trigger] bit(r.0, i) == bit(z, (2 * i) as u32) && bit(r.1, i) == bit(
                z,
                (2 * i + 1) as u32,
            ),
{
    proof {
        lemma_gather_bits(z, 0);
        lemma_gather_bits(z >> 1u32, 0);
        assert forall|i: u32| i < 16 implies #[trigger] bit(gather(z), i) == bit(z, (2 * i) as u32)
            && bit(gather(z >> 1u32), i) == bit(z, (2 * i + 1) as u32) by {
            lemma_gather_bits(z, i);
            lemma_gather_bits(z >> 1u32, i);
            let j: u32 = (2 * i) as u32;
            assert(((z >> 1u32) >> j) & 1u32 == (z >> (j + 1u32)) & 1u32) by (bit_vector)
                requires
                    j < 31u32,
            ;
        }
    }
    let x = z & 0x55555555u32;
    let x = (x | (x >> 1u32)) & 0x33333333u32;
    let x = (x | (x >> 2u32)) & 0x0F0F0F0Fu32;
    let x = (x | (x >> 4u32)) & 0x00FF00FFu32;
    let x = (x | (x >> 8u32)) & 0x0000FFFFu32;
    let y = (z >> 1u32) & 0x55555555u32;
    let y = (y | (y >> 1u32)) & 0x33333333u32;
    let y = (y | (y >> 2u32)) & 0x0F0F0F0Fu32;
    let y = (y | (y >> 4u32)) & 0x00FF00FFu32;
    let y = (y | (y >> 8u32)) & 0x0000FFFFu32;
    (x, y)
}

} // verus!
