use ballmaker::film::SamplingFilm;

#[test]
fn film_starts_filled() {
    let f = SamplingFilm::new(2, 3, 7u32);
    assert_eq!(f.width(), 2);
    assert_eq!(f.height(), 3);
    for y in 0..3 {
        for x in 0..2 {
            assert_eq!(*f.sample_collector(x, y), 7);
        }
    }
}

#[test]
fn film_set_is_row_major() {
    let mut f = SamplingFilm::new(2, 3, 0u32);
    f.set(0, 1, 5);
    let bytes = f.to_rgb8(|v: &u32| (*v as u8, 0, 0));
    assert_eq!(bytes.len(), 2 * 3 * 3);
    for (i, b) in bytes.iter().enumerate() {
        assert_eq!(*b, if i == 3 * 2 { 5 } else { 0 });
    }
}

#[test]
fn overwrite_copies_and_clips() {
    let mut canvas = SamplingFilm::new(4, 3, 0u32);
    let mut tile = SamplingFilm::new(3, 2, 0u32);
    for y in 0..2 {
        for x in 0..3 {
            tile.set(x, y, 10 + (x + 3 * y) as u32);
        }
    }
    canvas.overwrite_with(2, 2, &tile);
    let mut got = Vec::new();
    for y in 0..3 {
        for x in 0..4 {
            got.push(*canvas.sample_collector(x, y));
        }
    }
    assert_eq!(got, vec![0, 0, 0, 0, 0, 0, 0, 0, 0, 0, 10, 11]);
}

#[test]
fn overwrite_outside_changes_nothing() {
    let mut canvas = SamplingFilm::new(2, 2, 1u32);
    let tile = SamplingFilm::new(2, 2, 9u32);
    canvas.overwrite_with(2, 0, &tile);
    canvas.overwrite_with(0, 5, &tile);
    for y in 0..2 {
        for x in 0..2 {
            assert_eq!(*canvas.sample_collector(x, y), 1);
        }
    }
}

#[test]
fn to_rgb8_extracts_each_pixel() {
    let mut f = SamplingFilm::new(1, 2, (0u8, 0u8, 0u8));
    f.set(0, 0, (1, 2, 3));
    f.set(0, 1, (4, 5, 6));
    assert_eq!(f.to_rgb8(|p: &(u8, u8, u8)| *p), vec![1, 2, 3, 4, 5, 6]);
}
