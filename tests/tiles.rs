use ballmaker::tiles::{tile_count, tiles, CoordinateRange, Tile};

#[test]
fn test_coordinate_range() {
    let mut cr = CoordinateRange(0..2, 0..3).iter();
    assert_eq!(cr.next(), Some((0, 0)));
    assert_eq!(cr.next(), Some((0, 1)));
    assert_eq!(cr.next(), Some((0, 2)));
    assert_eq!(cr.next(), Some((1, 0)));
    assert_eq!(cr.next(), Some((1, 1)));
    assert_eq!(cr.next(), Some((1, 2)));
    assert_eq!(cr.next(), None);
}

#[test]
fn coordinate_range_stays_exhausted() {
    let mut cr = CoordinateRange(3..4, 5..7).iter();
    assert_eq!(cr.next(), Some((3, 5)));
    assert_eq!(cr.next(), Some((3, 6)));
    assert_eq!(cr.next(), None);
    assert_eq!(cr.next(), None);
}

#[test]
fn coordinate_range_empty_sides() {
    assert_eq!(CoordinateRange(0..0, 0..3).iter().next(), None);
    assert_eq!(CoordinateRange(0..3, 2..2).iter().next(), None);
}

#[test]
fn tile_count_rounds_up() {
    assert_eq!(tile_count(800, 50), 16);
    assert_eq!(tile_count(450, 50), 9);
    assert_eq!(tile_count(451, 50), 10);
    assert_eq!(tile_count(0, 7), 0);
    assert_eq!(tile_count(7, 1), 7);
}

#[test]
fn tiles_cut_edges_short() {
    let ts = tiles(5, 3, 2, 2);
    let expected = vec![
        Tile { x: 0, y: 0, width: 2, height: 2 },
        Tile { x: 0, y: 2, width: 2, height: 1 },
        Tile { x: 2, y: 0, width: 2, height: 2 },
        Tile { x: 2, y: 2, width: 2, height: 1 },
        Tile { x: 4, y: 0, width: 1, height: 2 },
        Tile { x: 4, y: 2, width: 1, height: 1 },
    ];
    assert_eq!(ts, expected);
}

#[test]
fn tiles_cover_each_pixel_once() {
    let (w, h) = (13usize, 7usize);
    let ts = tiles(w, h, 4, 3);
    for y in 0..h {
        for x in 0..w {
            let n = ts
                .iter()
                .filter(|t| t.x <= x && x < t.x + t.width && t.y <= y && y < t.y + t.height)
                .count();
            assert_eq!(n, 1);
        }
    }
}

#[test]
fn one_tile_for_whole_canvas() {
    assert_eq!(tiles(6, 4, 6, 4), vec![Tile { x: 0, y: 0, width: 6, height: 4 }]);
    assert_eq!(tiles(6, 4, 100, 100), vec![Tile { x: 0, y: 0, width: 6, height: 4 }]);
}
