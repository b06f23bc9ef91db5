use kicad_spaghetti::morton::hex_channels;
use kicad_spaghetti::morton::morton_code;
use kicad_spaghetti::morton::ordered_bits;
use kicad_spaghetti::morton::point_sort_key;
use kicad_spaghetti::morton::spread;

#[test]
fn spread_places_bits_on_even_positions() {
    assert_eq!(spread(0), 0);
    assert_eq!(spread(1), 1);
    assert_eq!(spread(0b1011), 0b100_0101);
    assert_eq!(spread(u32::MAX), 0x5555_5555_5555_5555);
    assert_eq!(spread(0x8000_0000), 1u64 << 62);
}

#[test]
fn ordered_bits_of_signed_zeros_and_ones() {
    assert_eq!(ordered_bits(0.0f32.to_bits()), 0x8000_0000);
    assert_eq!(ordered_bits((-0.0f32).to_bits()), 0x7FFF_FFFF);
    assert_eq!(ordered_bits(1.0f32.to_bits()), 0xBF80_0000);
    assert_eq!(ordered_bits((-1.0f32).to_bits()), 0x407F_FFFF);
}

#[test]
fn ordered_bits_keeps_float_order() {
    let values = [-1e30f32, -2.5, -1.0, -0.5, -1e-30, -0.0, 0.0, 1e-30, 0.5, 1.0, 2.5, 1e30];
    for w in values.windows(2) {
        assert!(ordered_bits(w[0].to_bits()) < ordered_bits(w[1].to_bits()));
    }
}

#[test]
fn morton_code_interleaves_the_ordered_keys() {
    assert_eq!(morton_code(0.0f32.to_bits(), 0.0f32.to_bits()), 0xC000_0000_0000_0000);
    let x = 3.25f32.to_bits();
    let y = (-7.5f32).to_bits();
    let expected = spread(ordered_bits(x)) | (spread(ordered_bits(y)) << 1);
    assert_eq!(morton_code(x, y), expected);
}

#[test]
fn point_sort_key_puts_layer_first() {
    assert_eq!(point_sort_key(3, 5), (3u128 << 64) | 5);
    assert_eq!(point_sort_key(0, u64::MAX), u64::MAX as u128);
    assert!(point_sort_key(0, u64::MAX) < point_sort_key(1, 0));
}

#[test]
fn hex_channels_splits_a_colour() {
    assert_eq!(hex_channels(0x1122_3344), [0x11, 0x22, 0x33, 0x44]);
    assert_eq!(hex_channels(0xFFFF_FFFF), [0xFF, 0xFF, 0xFF, 0xFF]);
    assert_eq!(hex_channels(0), [0, 0, 0, 0]);
}

#[test]
fn hex_channels_recompose_to_the_colour() {
    for hex in [0u32, 1, 0x1234_5678, 0xDEAD_BEEF, u32::MAX] {
        let c = hex_channels(hex);
        let back = (c[0] as u32) << 24 | (c[1] as u32) << 16 | (c[2] as u32) << 8 | c[3] as u32;
        assert_eq!(back, hex);
    }
}
