//! Bit-level helpers: order-preserving float keys, Morton (Z-order) codes,
//! sort keys and colour channels.
use vstd::prelude::*;

verus! {

/// Bit `i` of a 64-bit word.
pub open spec fn bit64(v: u64, i: u64) -> bool {
    (v >> i) & 1u64 == 1u64
}

/// Bit `i` of a 32-bit word.
pub open spec fn bit32(v: u32, i: u32) -> bool {
    (v >> i) & 1u32 == 1u32
}

/// The value that the IEEE sign-magnitude encoding `bits` orders by: the
/// magnitude for a clear sign bit, minus the magnitude minus one for a set one
/// (so that negative zero sorts just below positive zero).
pub open spec fn sign_magnitude(bits: u32) -> int {
    if bits < 0x8000_0000u32 {
        bits as int
    } else {
        -((bits - 0x8000_0000u32) as int) - 1
    }
}

/// Spreads the bits of `x` onto the even bit positions of a 64-bit word.
pub fn spread(x: u32) -> (r: u64)
    ensures
        forall|k: u64| k < 32 ==> #[trigger] bit64(r, (2 * k) as u64) == bit32(x, k as u32),
        forall|k: u64| k < 32 ==> #[trigger] bit64(r, (2 * k + 1) as u64) == false,
{
    let x0 = x as u64;
    let x1 = (x0 | (x0 << 16u64)) & 0x0000_FFFF_0000_FFFFu64;
    let x2 = (x1 | (x1 << 8u64)) & 0x00FF_00FF_00FF_00FFu64;
    let x3 = (x2 | (x2 << 4u64)) & 0x0F0F_0F0F_0F0F_0F0Fu64;
    let x4 = (x3 | (x3 << 2u64)) & 0x3333_3333_3333_3333u64;
    let x5 = (x4 | (x4 << 1u64)) & 0x5555_5555_5555_5555u64;
    assert(forall|k: u64| k < 32 ==> #[trigger] bit64(x5, (2 * k) as u64) == bit32(x, k as u32))
        by (bit_vector)
        requires
            x0 == x as u64,
            x1 == (x0 | (x0 << 16u64)) & 0x0000_FFFF_0000_FFFFu64,
            x2 == (x1 | (x1 << 8u64)) & 0x00FF_00FF_00FF_00FFu64,
            x3 == (x2 | (x2 << 4u64)) & 0x0F0F_0F0F_0F0F_0F0Fu64,
            x4 == (x3 | (x3 << 2u64)) & 0x3333_3333_3333_3333u64,
            x5 == (x4 | (x4 << 1u64)) & 0x5555_5555_5555_5555u64,
    ;
    assert(forall|k: u64| k < 32 ==> !#[trigger] bit64(x5, (2 * k + 1) as u64)) by (bit_vector)
        requires
            x5 == (x4 | (x4 << 1u64)) & 0x5555_5555_5555_5555u64,
    ;
    x5
}

/// Maps the bit pattern of a float to an unsigned integer whose order is the
/// sign-magnitude order of the pattern.
pub fn ordered_bits(bits: u32) -> (r: u32)
    ensures
        r as int == sign_magnitude(bits) + 0x8000_0000,
{
    if bits >> 31u32 == 0 {
        assert(bits >> 31u32 == 0 ==> bits < 0x8000_0000u32 && bits | 0x8000_0000u32 == bits
            + 0x8000_0000u32) by (bit_vector);
        bits | 0x8000_0000u32
    } else {
        assert(bits >> 31u32 != 0 ==> bits >= 0x8000_0000u32 && !bits == 0xFFFF_FFFFu32 - bits)
            by (bit_vector);
        !bits
    }
}

/// `ordered_bits` is strictly monotone in the sign-magnitude order.
pub proof fn lemma_ordered_bits_monotone(a: u32, b: u32, ra: u32, rb: u32)
    requires
        ra as int == sign_magnitude(a) + 0x8000_0000,
        rb as int == sign_magnitude(b) + 0x8000_0000,
    ensures
        sign_magnitude(a) < sign_magnitude(b) ==> ra < rb,
        sign_magnitude(a) == sign_magnitude(b) ==> a == b,
{
}

/// The Morton code of two coordinates given by their float bit patterns: the
/// ordered key of `x` on the even bits, that of `y` on the odd bits.
pub fn morton_code(x_bits: u32, y_bits: u32) -> (r: u64)
    ensures
        forall|k: u64|
            k < 32 ==> #[trigger] bit64(r, (2 * k) as u64) == bit32(
                (sign_magnitude(x_bits) + 0x8000_0000) as u32,
                k as u32,
            ),
        forall|k: u64|
            k < 32 ==> #[trigger] bit64(r, (2 * k + 1) as u64) == bit32(
                (sign_magnitude(y_bits) + 0x8000_0000) as u32,
                k as u32,
            ),
{
    let xi = ordered_bits(x_bits);
    let yi = ordered_bits(y_bits);
    let sx = spread(xi);
    let sy = spread(yi);
    let r = sx | (sy << 1u64);
    assert forall|k: u64| k < 32 implies #[trigger] bit64(r, (2 * k) as u64) == bit32(xi, k as u32) by {
        assert(bit64(sx, (2 * k) as u64) == bit32(xi, k as u32));
        if k > 0 {
            assert(bit64(sy, (2 * (k - 1) + 1) as u64) == false);
        }
        assert(bit64(r, (2 * k) as u64) == bit64(sx, (2 * k) as u64)) by (bit_vector)
            requires
                k < 32,
                r == sx | (sy << 1u64),
                k == 0 || !bit64(sy, (2 * (k - 1) + 1) as u64),
        ;
    }
    assert forall|k: u64| k < 32 implies #[trigger] bit64(r, (2 * k + 1) as u64) == bit32(yi, k as u32) by {
        assert(bit64(sy, (2 * k) as u64) == bit32(yi, k as u32));
        assert(bit64(sx, (2 * k + 1) as u64) == false);
        assert(bit64(r, (2 * k + 1) as u64) == bit64(sy, (2 * k) as u64)) by (bit_vector)
            requires
                k < 32,
                r == sx | (sy << 1u64),
                !bit64(sx, (2 * k + 1) as u64),
        ;
    }
    r
}

/// The key by which points are ordered: layer first, then Morton code.
pub fn point_sort_key(layer: usize, code: u64) -> (r: u128)
    ensures
        r == layer as int * 0x1_0000_0000_0000_0000int + code as int,
{
    let l = layer as u128;
    let c = code as u128;
    assert(l < 0x1_0000_0000_0000_0000u128 && c < 0x1_0000_0000_0000_0000u128 ==> (l << 64u128)
        | c == l * 0x1_0000_0000_0000_0000u128 + c) by (bit_vector);
    (l << 64u128) | c
}

/// The four 8-bit channels of a `0xRRGGBBAA` colour, most significant first.
pub fn hex_channels(hex: u32) -> (r: [u8; 4])
    ensures
        r[0] as int == hex as int / 0x100_0000,
        r[1] as int == (hex as int / 0x1_0000) % 0x100,
        r[2] as int == (hex as int / 0x100) % 0x100,
        r[3] as int == hex as int % 0x100,
{
    let c0 = ((hex >> 24u32) & 0xFFu32) as u8;
    let c1 = ((hex >> 16u32) & 0xFFu32) as u8;
    let c2 = ((hex >> 8u32) & 0xFFu32) as u8;
    let c3 = (hex & 0xFFu32) as u8;
    assert((hex >> 24u32) & 0xFFu32 == hex / 0x100_0000u32) by (bit_vector);
    assert((hex >> 16u32) & 0xFFu32 == (hex / 0x1_0000u32) % 0x100u32) by (bit_vector);
    assert((hex >> 8u32) & 0xFFu32 == (hex / 0x100u32) % 0x100u32) by (bit_vector);
    assert(hex & 0xFFu32 == hex % 0x100u32) by (bit_vector);
    [c0, c1, c2, c3]
}

/// The channels of a colour put back together give the colour.
pub proof fn lemma_hex_channels_recompose(hex: u32, r: [u8; 4])
    requires
        r[0] as int == hex as int / 0x100_0000,
        r[1] as int == (hex as int / 0x1_0000) % 0x100,
        r[2] as int == (hex as int / 0x100) % 0x100,
        r[3] as int == hex as int % 0x100,
    ensures
        r[0] as int * 0x100_0000 + r[1] as int * 0x1_0000 + r[2] as int * 0x100 + r[3] as int
            == hex as int,
{
    let h = hex as int;
    assert(h == (h / 0x100_0000) * 0x100_0000 + ((h / 0x1_0000) % 0x100) * 0x1_0000 + ((h / 0x100)
        % 0x100) * 0x100 + h % 0x100) by (nonlinear_arith)
        requires
            0 <= h,
    ;
}

} // verus!
