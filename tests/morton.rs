use pathtracer::morton::{deinterleave_morton, interleave_morton};

#[test]
fn morton_interleaves_bits() {
    assert_eq!(interleave_morton(0, 0), 0);
    assert_eq!(interleave_morton(1, 0), 1);
    assert_eq!(interleave_morton(0, 1), 2);
    assert_eq!(interleave_morton(3, 3), 15);
    assert_eq!(interleave_morton(5, 9), 147);
    assert_eq!(interleave_morton(0xFFFF, 0), 0x5555_5555);
    assert_eq!(interleave_morton(0, 0xFFFF), 0xAAAA_AAAA);
}

#[test]
fn morton_deinterleaves_bits() {
    assert_eq!(deinterleave_morton(0), (0, 0));
    assert_eq!(deinterleave_morton(1), (1, 0));
    assert_eq!(deinterleave_morton(2), (0, 1));
    assert_eq!(deinterleave_morton(15), (3, 3));
    assert_eq!(deinterleave_morton(0xFFFF_FFFF), (0xFFFF, 0xFFFF));
}

#[test]
fn morton_round_trips() {
    for &(x, y) in &[(0u32, 0u32), (1, 2), (123, 4567), (0xFFFF, 0x1234), (800, 600)] {
        assert_eq!(deinterleave_morton(interleave_morton(x, y)), (x, y));
    }
    for &z in &[0u32, 7, 0xDEAD_BEEF, 0x8000_0001, u32::MAX] {
        let (x, y) = deinterleave_morton(z);
        assert_eq!(interleave_morton(x, y), z);
    }
}
