use pathtracer::skybox::{decode_words, texel_offset, SKY_HEIGHT, SKY_WIDTH};

#[test]
fn words_are_big_endian() {
    let bytes = vec![0u8, 0, 0, 1, 0x3f, 0x80, 0, 0, 0x12, 0x34, 0x56, 0x78, 9];
    let words = decode_words(&bytes);
    assert_eq!(words, vec![1, 0x3f80_0000, 0x1234_5678]);
    assert_eq!(f32::from_bits(words[1]), 1.0);
    assert_eq!(decode_words(&vec![1, 2, 3]), Vec::<u32>::new());
}

#[test]
fn texels_are_addressed_row_by_row() {
    assert_eq!(texel_offset(0, 0), 0);
    assert_eq!(texel_offset(10, 2), 3 * (10 + 2500 * 2));
    assert_eq!(texel_offset(2499, 1249), 3 * (2499 + 2500 * 1249));
    assert_eq!(texel_offset(2500, 1250), 3 * (2499 + 2500 * 1249));
    assert_eq!(texel_offset(2500, 0), 3 * 2499);
    assert_eq!(SKY_WIDTH * SKY_HEIGHT * 3, 9_375_000);
}
