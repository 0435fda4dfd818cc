use ballmaker::film::SamplingFilm;
use ballmaker::scheduler::{wants_sample, TileSampler, TileStep};
use ballmaker::tiles::{tiles, Tile};

#[test]
fn wants_sample_rules() {
    assert!(wants_sample(0, 2, 4, true));
    assert!(wants_sample(1, 2, 4, true));
    assert!(!wants_sample(2, 2, 4, true));
    assert!(wants_sample(2, 2, 4, false));
    assert!(!wants_sample(4, 2, 4, false));
    assert!(!wants_sample(0, 0, 0, false));
}

/// Accumulator of a pixel in these tests: samples drawn and their sum.
type Acc = (usize, u64);

/// The `k`-th sample of canvas pixel `(x, y)`: the same whichever tile the pixel is in.
fn sample(x: usize, y: usize, k: usize) -> u64 {
    ((x * 31 + y * 17 + k * 7) % 11) as u64
}

/// A pixel counts as converged once its sum is even.
fn converged(a: Acc) -> bool {
    a.1 % 2 == 0
}

fn render(w: usize, h: usize, tw: usize, th: usize, min: usize, max: usize) -> (SamplingFilm<Acc>, usize) {
    let mut film = SamplingFilm::new(w, h, (0, 0));
    let mut total = 0;
    for t in tiles(w, h, tw, th).into_iter().rev() {
        let mut local = SamplingFilm::new(t.width, t.height, (0usize, 0u64));
        let mut ts = TileSampler::new(t, min, max);
        let mut status = converged((0, 0));
        loop {
            match ts.step(status) {
                TileStep::Sample { x, y, canvas_x, canvas_y } => {
                    assert_eq!((canvas_x, canvas_y), (t.x + x, t.y + y));
                    let mut a = *local.sample_collector(x, y);
                    a.1 += sample(canvas_x, canvas_y, a.0);
                    a.0 += 1;
                    local.set(x, y, a);
                    status = converged(a);
                }
                TileStep::NextPixel => {
                    status = match ts.current() {
                        Some((x, y)) => converged(*local.sample_collector(x, y)),
                        None => true,
                    };
                }
                TileStep::Done { samples } => {
                    total += samples;
                    break;
                }
            }
        }
        film.overwrite_with(t.x, t.y, &local);
    }
    (film, total)
}

fn pixels(f: &SamplingFilm<Acc>) -> Vec<Acc> {
    let mut v = Vec::new();
    for y in 0..f.height() {
        for x in 0..f.width() {
            v.push(*f.sample_collector(x, y));
        }
    }
    v
}

#[test]
fn total_equals_sum_of_pixel_counts() {
    let (film, total) = render(9, 6, 4, 4, 2, 6);
    let counts: usize = pixels(&film).iter().map(|a| a.0).sum();
    assert_eq!(total, counts);
    for a in pixels(&film) {
        assert!(a.0 >= 2 && a.0 <= 6);
    }
}

#[test]
fn one_tile_matches_small_tiles() {
    let (whole, n_whole) = render(9, 6, 9, 6, 1, 5);
    let (small, n_small) = render(9, 6, 2, 3, 1, 5);
    let (odd, n_odd) = render(9, 6, 4, 5, 1, 5);
    assert_eq!(pixels(&whole), pixels(&small));
    assert_eq!(pixels(&whole), pixels(&odd));
    assert_eq!(n_whole, n_small);
    assert_eq!(n_whole, n_odd);
}

#[test]
fn sampler_walks_rows_then_finishes() {
    let mut ts = TileSampler::new(Tile { x: 10, y: 20, width: 2, height: 1 }, 1, 1);
    assert_eq!(ts.current(), Some((0, 0)));
    assert_eq!(ts.step(true), TileStep::Sample { x: 0, y: 0, canvas_x: 10, canvas_y: 20 });
    assert_eq!(ts.step(false), TileStep::NextPixel);
    assert_eq!(ts.current(), Some((1, 0)));
    assert_eq!(ts.step(false), TileStep::Sample { x: 1, y: 0, canvas_x: 11, canvas_y: 20 });
    assert_eq!(ts.step(false), TileStep::NextPixel);
    assert_eq!(ts.current(), None);
    assert_eq!(ts.step(false), TileStep::Done { samples: 2 });
    assert_eq!(ts.step(true), TileStep::Done { samples: 2 });
}

#[test]
fn sampler_stops_early_when_converged() {
    let mut ts = TileSampler::new(Tile { x: 0, y: 0, width: 1, height: 1 }, 2, 10);
    assert!(matches!(ts.step(true), TileStep::Sample { .. }));
    assert!(matches!(ts.step(true), TileStep::Sample { .. }));
    assert_eq!(ts.step(true), TileStep::NextPixel);
    assert_eq!(ts.step(true), TileStep::Done { samples: 2 });
}

#[test]
fn sampler_stops_at_max() {
    let mut ts = TileSampler::new(Tile { x: 0, y: 0, width: 1, height: 1 }, 0, 3);
    for _ in 0..3 {
        assert!(matches!(ts.step(false), TileStep::Sample { .. }));
    }
    assert_eq!(ts.step(false), TileStep::NextPixel);
    assert_eq!(ts.step(false), TileStep::Done { samples: 3 });
}
