//! Layout of the equirectangular environment map: a raw file of big-endian
//! 32-bit words, three per texel, row by row.
use vstd::prelude::*;

verus! {

/// Texels per row.
pub const SKY_WIDTH: usize = 2500;

/// Rows.
pub const SKY_HEIGHT: usize = 1250;

/// The big-endian word that starts at byte `i`.
pub open spec fn be_word(b: Seq<u8>, i: int) -> u32 {
    (b[i] as int * 0x1000000 + b[i + 1] as int * 0x10000 + b[i + 2] as int * 0x100 + b[i
        + 3] as int) as u32
}

/// Reads `bytes` as big-endian 32-bit words; a trailing part word is dropped.
pub fn decode_words(bytes: &Vec<u8>) -> (r: Vec<u32>)
    ensures
        r@.len() == bytes@.len() / 4,
        forall|i: int| 0 <= i < r@.len() ==> r@[i] == be_word(bytes@, 4 * i),
{
    let len = bytes.len();
    let n = len / 4;
    let mut r: Vec<u32> = Vec::new();
    let mut i: usize = 0;
    while i < n
        invariant
            n == bytes@.len() / 4,
            len == bytes@.len(),
            i <= n,
            r@.len() == i,
            forall|k: int| 0 <= k < i ==> r@[k] == be_word(bytes@, 4 * k),
        decreases n - i,
    {
        assert(4 * i + 3 < len) by (nonlinear_arith)
            requires
                i < n,
                n == len / 4,
        ;
        let j = 4 * i;
        let w = (bytes[j] as u32) * 0x1000000 + (bytes[j + 1] as u32) * 0x10000 + (bytes[j + 2]
            as u32) * 0x100 + (bytes[j + 3] as u32);
        r.push(w);
        i = i + 1;
    }
    r
}

/// The offset in the word list of the first component of texel `(u, v)`,
/// with `u` and `v` clamped to the map.
pub open spec fn texel_offset_of(u: nat, v: nat) -> nat {
    let cu = if u < SKY_WIDTH {
        u
    } else {
        (SKY_WIDTH - 1) as nat
    };
    let cv = if v < SKY_HEIGHT {
        v
    } else {
        (SKY_HEIGHT - 1) as nat
    };
    3 * (cu + SKY_WIDTH as nat * cv)
}

/// The offset of texel `(u, v)`: always the start of a whole texel inside
/// the map, since a direction straight back or straight down lands one past
/// the last column or row.
pub fn texel_offset(u: usize, v: usize) -> (r: usize)
    ensures
        r == texel_offset_of(u as nat, v as nat),
        r + 3 <= 3 * SKY_WIDTH * SKY_HEIGHT,
{
    let cu = if u < SKY_WIDTH {
        u
    } else {
        SKY_WIDTH - 1
    };
    let cv = if v < SKY_HEIGHT {
        v
    } else {
        SKY_HEIGHT - 1
    };
    3 * (cu + SKY_WIDTH * cv)
}

} // verus!
