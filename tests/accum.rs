use pathtracer::accum::Accumulator;

#[test]
fn accumulator_starts_empty() {
    let acc = Accumulator::new(4, 3, 0i64);
    assert_eq!(acc.spp(), 0);
    assert_eq!(acc.width(), 4);
    assert_eq!(acc.height(), 3);
    for i in 0..12 {
        assert_eq!(acc.get(i), 0);
    }
}

#[test]
fn frames_count_samples_until_motion() {
    let mut acc = Accumulator::new(2, 2, [0.0f32; 3]);
    acc.begin_frame(false, [0.0; 3]);
    acc.cells_mut()[1] = [1.0, 2.0, 3.0];
    acc.begin_frame(false, [0.0; 3]);
    assert_eq!(acc.spp(), 2);
    assert_eq!(acc.get(1), [1.0, 2.0, 3.0]);
    acc.begin_frame(true, [0.0; 3]);
    assert_eq!(acc.spp(), 1);
    for i in 0..4 {
        assert_eq!(acc.get(i), [0.0; 3]);
    }
}

#[test]
fn clearing_resets_samples() {
    let mut acc = Accumulator::new(3, 1, 5u32);
    acc.begin_frame(false, 0);
    acc.begin_frame(false, 0);
    acc.clear(0);
    assert_eq!(acc.spp(), 0);
    assert_eq!(acc.cells_mut().clone(), vec![0, 0, 0]);
}
