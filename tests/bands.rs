use pathtracer::bands::row_bands;

#[test]
fn bands_split_evenly() {
    assert_eq!(row_bands(600, 8), vec![
        (0, 75), (75, 150), (150, 225), (225, 300),
        (300, 375), (375, 450), (450, 525), (525, 600),
    ]);
}

#[test]
fn bands_spread_the_remainder() {
    assert_eq!(row_bands(10, 3), vec![(0, 4), (4, 7), (7, 10)]);
    assert_eq!(row_bands(2, 4), vec![(0, 1), (1, 2), (2, 2), (2, 2)]);
    assert_eq!(row_bands(0, 2), vec![(0, 0), (0, 0)]);
    assert_eq!(row_bands(7, 1), vec![(0, 7)]);
}
