//! Per-tile adaptive sampling: which pixel takes the next sample, when a pixel is done, and
//! how many samples a tile took in all.
use vstd::prelude::*;
use crate::film::{blit, col_of, row_of};
use crate::tiles::{Tile, tile_contains, tiles_spec, lemma_tiles_partition};
use vstd::arithmetic::div_mod::{lemma_fundamental_div_mod, lemma_fundamental_div_mod_converse};

verus! {

/// Whether a pixel that holds `n` samples takes another: never past `max_samples`, always
/// below `min_samples`, and in between only while its variance is above the target.
pub open spec fn wants_sample_spec(n: nat, min_samples: nat, max_samples: nat, converged: bool) -> bool {
    n < max_samples && (n < min_samples || !converged)
}

/// Whether a pixel that holds `n` samples takes another; `converged` tells whether its
/// largest channel variance is at or below the target.
pub fn wants_sample(n: usize, min_samples: usize, max_samples: usize, converged: bool) -> (r: bool)
    ensures
        r == wants_sample_spec(n as nat, min_samples as nat, max_samples as nat, converged),
{
    n < max_samples && (n < min_samples || !converged)
}

/// The sum of a sequence of counts.
pub open spec fn sum(s: Seq<nat>) -> nat
    decreases s.len(),
{
    if s.len() == 0 {
        0
    } else {
        sum(s.drop_last()) + s.last()
    }
}

/// What the caller does next for a tile.
#[derive(Clone, Copy, PartialEq, Eq, Structural, Debug)]
pub enum TileStep {
    /// Draw one sample for the pixel at `(x, y)` of the tile, which is `(canvas_x, canvas_y)`
    /// on the canvas, fold it into that pixel, then step again with its new status.
    Sample { x: usize, y: usize, canvas_x: usize, canvas_y: usize },
    /// The current pixel is done: step again with the status of the next one.
    NextPixel,
    /// Every pixel of the tile is done; `samples` were drawn in all.
    Done { samples: usize },
}

/// Walks the pixels of a tile row by row and decides, sample by sample, how long each one
/// is refined.
pub struct TileSampler {
    tile: Tile,
    min_samples: usize,
    max_samples: usize,
    pixel: usize,
    drawn: usize,
    total: usize,
    counts: Ghost<Seq<nat>>,
}

impl TileSampler {
    pub closed spec fn tile(&self) -> Tile {
        self.tile
    }

    pub closed spec fn min_samples(&self) -> nat {
        self.min_samples as nat
    }

    pub closed spec fn max_samples(&self) -> nat {
        self.max_samples as nat
    }

    /// Row-major index, within the tile, of the pixel being refined.
    pub closed spec fn pixel(&self) -> nat {
        self.pixel as nat
    }

    /// Samples drawn so far for the pixel being refined.
    pub closed spec fn drawn(&self) -> nat {
        self.drawn as nat
    }

    /// Samples drawn so far for the tile.
    pub closed spec fn total(&self) -> nat {
        self.total as nat
    }

    /// Samples drawn for each pixel that is done, in order.
    pub closed spec fn counts(&self) -> Seq<nat> {
        self.counts@
    }

    pub open spec fn pixel_count(&self) -> nat {
        (self.tile().width * self.tile().height) as nat
    }

    /// Column, within the tile, of the pixel being refined.
    pub open spec fn local_x(&self) -> nat {
        self.pixel() % (self.tile().width as nat)
    }

    /// Row, within the tile, of the pixel being refined.
    pub open spec fn local_y(&self) -> nat {
        self.pixel() / (self.tile().width as nat)
    }

    pub open spec fn wf(&self) -> bool {
        &&& self.pixel_count() <= usize::MAX
        &&& self.pixel_count() * self.max_samples() <= usize::MAX
        &&& self.tile().x + self.tile().width <= usize::MAX
        &&& self.tile().y + self.tile().height <= usize::MAX
        &&& self.pixel() <= self.pixel_count()
        &&& self.counts().len() == self.pixel()
        &&& self.drawn() <= self.max_samples()
        &&& self.pixel() == self.pixel_count() ==> self.drawn() == 0
        &&& self.total() == sum(self.counts()) + self.drawn()
        &&& forall|k: int|
            0 <= k < self.counts().len() ==> #[trigger] self.counts()[k] <= self.max_samples()
        &&& forall|k: int|
            0 <= k < self.counts().len() ==> (#[trigger] self.counts()[k] >= self.min_samples()
                || self.counts()[k] == self.max_samples())
    }

    /// A sampler at the first pixel of `tile`, with nothing drawn yet.
    pub fn new(tile: Tile, min_samples: usize, max_samples: usize) -> (r: Self)
        requires
            tile.width * tile.height <= usize::MAX,
            tile.width * tile.height * max_samples <= usize::MAX,
            tile.x + tile.width <= usize::MAX,
            tile.y + tile.height <= usize::MAX,
        ensures
            r.wf(),
            r.tile() == tile,
            r.min_samples() == min_samples,
            r.max_samples() == max_samples,
            r.pixel() == 0,
            r.drawn() == 0,
            r.total() == 0,
            r.counts() == Seq::<nat>::empty(),
    {
        TileSampler {
            tile,
            min_samples,
            max_samples,
            pixel: 0,
            drawn: 0,
            total: 0,
            counts: Ghost(Seq::empty()),
        }
    }

    proof fn lemma_bound(&self)
        requires
            self.wf(),
        ensures
            sum(self.counts()) <= self.pixel() * self.max_samples(),
    {
        lemma_sum_bound(self.counts(), self.max_samples());
    }

    /// The pixel being refined, in tile coordinates, or `None` once every pixel is done.
    pub fn current(&self) -> (r: Option<(usize, usize)>)
        requires
            self.wf(),
        ensures
            self.pixel() < self.pixel_count() ==> r == Some(
                (self.local_x() as usize, self.local_y() as usize),
            ),
            self.pixel() == self.pixel_count() ==> r is None,
    {
        if self.pixel >= self.tile.width * self.tile.height {
            None
        } else {
            let w = self.tile.width;
            assert(w > 0) by (nonlinear_arith)
                requires
                    self.pixel < w * self.tile.height,
            ;
            Some((self.pixel % w, self.pixel / w))
        }
    }

    /// One decision. `converged` tells whether the current pixel's largest channel variance
    /// is at or below the target.
    pub fn step(&mut self, converged: bool) -> (r: TileStep)
        requires
            old(self).wf(),
        ensures
            final(self).wf(),
            final(self).tile() == old(self).tile(),
            final(self).min_samples() == old(self).min_samples(),
            final(self).max_samples() == old(self).max_samples(),
            old(self).pixel() == old(self).pixel_count() ==> r == (TileStep::Done {
                samples: old(self).total() as usize,
            }) && *final(self) == *old(self),
            r matches TileStep::Done { samples } ==> samples == sum(final(self).counts())
                && final(self).counts().len() == final(self).pixel_count(),
            old(self).pixel() < old(self).pixel_count() && wants_sample_spec(
                old(self).drawn(),
                old(self).min_samples(),
                old(self).max_samples(),
                converged,
            ) ==> r == (TileStep::Sample {
                x: old(self).local_x() as usize,
                y: old(self).local_y() as usize,
                canvas_x: (old(self).tile().x + old(self).local_x()) as usize,
                canvas_y: (old(self).tile().y + old(self).local_y()) as usize,
            }) && final(self).pixel() == old(self).pixel() && final(self).drawn() == old(self).drawn()
                + 1 && final(self).total() == old(self).total() + 1 && final(self).counts() == old(
                self,
            ).counts(),
            old(self).pixel() < old(self).pixel_count() && !wants_sample_spec(
                old(self).drawn(),
                old(self).min_samples(),
                old(self).max_samples(),
                converged,
            ) ==> r == TileStep::NextPixel && final(self).pixel() == old(self).pixel() + 1
                && final(self).drawn() == 0 && final(self).total() == old(self).total()
                && final(self).counts() == old(self).counts().push(old(self).drawn()),
    {
        if self.pixel >= self.tile.width * self.tile.height {
            proof {
                assert(self.pixel == self.tile.width * self.tile.height);
            }
            return TileStep::Done { samples: self.total };
        }
        if wants_sample(self.drawn, self.min_samples, self.max_samples, converged) {
            proof {
                self.lemma_bound();
                assert(self.pixel() * self.max_samples() + self.max_samples() <= self.pixel_count()
                    * self.max_samples()) by (nonlinear_arith)
                    requires
                        self.pixel() < self.pixel_count(),
                ;
            }
            let w = self.tile.width;
            assert(w > 0) by (nonlinear_arith)
                requires
                    self.pixel < w * self.tile.height,
            ;
            let x = self.pixel % w;
            let y = self.pixel / w;
            assert(y < self.tile.height) by (nonlinear_arith)
                requires
                    self.pixel < w * self.tile.height,
                    y == self.pixel / w,
                    w > 0,
            ;
            self.drawn = self.drawn + 1;
            self.total = self.total + 1;
            TileStep::Sample { x, y, canvas_x: self.tile.x + x, canvas_y: self.tile.y + y }
        } else {
            let ghost before = self.counts@;
            proof {
                self.counts@ = self.counts@.push(self.drawn as nat);
                assert(self.counts@.drop_last() == before);
            }
            self.pixel = self.pixel + 1;
            self.drawn = 0;
            TileStep::NextPixel
        }
    }
}

proof fn lemma_sum_bound(s: Seq<nat>, bound: nat)
    requires
        forall|k: int| 0 <= k < s.len() ==> #[trigger] s[k] <= bound,
    ensures
        sum(s) <= s.len() * bound,
    decreases s.len(),
{
    if s.len() > 0 {
        lemma_sum_bound(s.drop_last(), bound);
        assert(sum(s) <= s.len() * bound) by (nonlinear_arith)
            requires
                sum(s) == sum(s.drop_last()) + s.last(),
                sum(s.drop_last()) <= (s.len() - 1) * bound,
                s.last() <= bound,
        ;
    }
}

/// The film of tile `t` in which each pixel holds `g` of the canvas pixel it stands for.
pub open spec fn tile_film<P>(g: spec_fn(int, int) -> P, t: Tile) -> Seq<P> {
    Seq::new(
        (t.width * t.height) as nat,
        |k: int| g(t.x + k % (t.width as int), t.y + k / (t.width as int)),
    )
}

/// The canvas `init`, `width` pixels wide, after the films of `tiles` (built from `g`) have
/// been copied onto it one after another.
pub open spec fn compose<P>(init: Seq<P>, width: nat, tiles: Seq<Tile>, g: spec_fn(int, int) -> P) -> Seq<P>
    decreases tiles.len(),
{
    if tiles.len() == 0 {
        init
    } else {
        let t = tiles.last();
        blit(
            compose(init, width, tiles.drop_last(), g),
            width,
            t.x as int,
            t.y as int,
            tile_film(g, t),
            t.width as nat,
            t.height as nat,
        )
    }
}

/// Whether some tile of `tiles` holds pixel `(x, y)`.
pub open spec fn covered(tiles: Seq<Tile>, x: int, y: int) -> bool {
    exists|j: int| 0 <= j < tiles.len() && tile_contains(#[trigger] tiles[j], x, y)
}

proof fn lemma_compose_at<P>(init: Seq<P>, width: nat, tiles: Seq<Tile>, g: spec_fn(int, int) -> P, i: int)
    requires
        width > 0,
        0 <= i < init.len(),
    ensures
        compose(init, width, tiles, g).len() == init.len(),
        compose(init, width, tiles, g)[i] == if covered(tiles, col_of(i, width), row_of(i, width)) {
            g(col_of(i, width), row_of(i, width))
        } else {
            init[i]
        },
    decreases tiles.len(),
{
    let x = col_of(i, width);
    let y = row_of(i, width);
    if tiles.len() > 0 {
        let t = tiles.last();
        let prefix = tiles.drop_last();
        lemma_compose_at(init, width, prefix, g, i);
        if tile_contains(t, x, y) {
            let tw = t.width as int;
            let dx = x - t.x;
            let dy = y - t.y;
            lemma_fundamental_div_mod_converse(dx + dy * tw, tw, dy, dx);
            assert(dx + dy * tw < tw * t.height) by (nonlinear_arith)
                requires
                    0 <= dx < tw,
                    0 <= dy < t.height,
            ;
            assert(dy * tw >= 0) by (nonlinear_arith)
                requires
                    0 <= dy,
                    0 <= tw,
            ;
            assert(tile_contains(tiles[tiles.len() - 1], x, y));
        } else {
            if covered(tiles, x, y) {
                let j = choose|j: int| 0 <= j < tiles.len() && tile_contains(#[trigger] tiles[j], x, y);
                assert(prefix[j] == tiles[j]);
            }
            if covered(prefix, x, y) {
                let j = choose|j: int| 0 <= j < prefix.len() && tile_contains(#[trigger] prefix[j], x, y);
                assert(tiles[j] == prefix[j]);
            }
        }
    }
}

/// Every pixel's value depends on that pixel alone (`g`): copying the film of every tile of
/// the canvas onto it, in any order and even with repeats, leaves each pixel holding `g` of
/// itself, whatever the tile size.
pub proof fn lemma_tiles_compose_pointwise<P>(
    init: Seq<P>,
    width: usize,
    height: usize,
    tile_width: usize,
    tile_height: usize,
    order: Seq<Tile>,
    g: spec_fn(int, int) -> P,
)
    requires
        tile_width > 0,
        tile_height > 0,
        init.len() == width * height,
        forall|j: int|
            0 <= j < tiles_spec(width as nat, height as nat, tile_width as nat, tile_height as nat).len()
                ==> order.contains(
                #[trigger] tiles_spec(width as nat, height as nat, tile_width as nat, tile_height as nat)[j],
            ),
    ensures
        compose(init, width as nat, order, g) == Seq::new(
            init.len(),
            |i: int| g(col_of(i, width as nat), row_of(i, width as nat)),
        ),
{
    let target = Seq::new(init.len(), |i: int| g(col_of(i, width as nat), row_of(i, width as nat)));
    let grid = tiles_spec(width as nat, height as nat, tile_width as nat, tile_height as nat);
    if init.len() > 0 {
        assert(width > 0) by (nonlinear_arith)
            requires
                init.len() == width * height,
                init.len() > 0,
        ;
        assert forall|i: int| 0 <= i < init.len() implies #[trigger] compose(init, width as nat, order, g)[i] == target[i] by {
            lemma_compose_at(init, width as nat, order, g, i);
            let x = col_of(i, width as nat);
            let y = row_of(i, width as nat);
            lemma_fundamental_div_mod(i, width as int);
            assert(y < height) by (nonlinear_arith)
                requires
                    0 <= i < width * height,
                    i == width * y + x,
                    0 <= x,
                    width > 0,
            ;
            lemma_tiles_partition(width, height, tile_width, tile_height, x as usize, y as usize);
            let k = (x / (tile_width as int)) * crate::tiles::tile_count_spec(height as nat, tile_height as nat) + y / (tile_height as int);
            assert(tile_contains(grid[k], x, y));
            assert(order.contains(grid[k]));
            let j = choose|j: int| 0 <= j < order.len() && order[j] == grid[k];
            assert(tile_contains(order[j], x, y));
        }
        lemma_compose_at(init, width as nat, order, g, 0);
        assert(compose(init, width as nat, order, g) =~= target);
    } else {
        lemma_compose_len(init, width as nat, order, g);
        assert(compose(init, width as nat, order, g) =~= target);
    }
}

proof fn lemma_compose_len<P>(init: Seq<P>, width: nat, tiles: Seq<Tile>, g: spec_fn(int, int) -> P)
    ensures
        compose(init, width, tiles, g).len() == init.len(),
    decreases tiles.len(),
{
    if tiles.len() > 0 {
        lemma_compose_len(init, width, tiles.drop_last(), g);
    }
}

/// The rendered film does not depend on the tiling: with per-pixel values fixed by `g`, one
/// tile size (say, one tile covering the whole canvas) and another give the same film.
pub proof fn lemma_tiling_independent<P>(
    init: Seq<P>,
    width: usize,
    height: usize,
    tile_width_a: usize,
    tile_height_a: usize,
    order_a: Seq<Tile>,
    tile_width_b: usize,
    tile_height_b: usize,
    order_b: Seq<Tile>,
    g: spec_fn(int, int) -> P,
)
    requires
        tile_width_a > 0,
        tile_height_a > 0,
        tile_width_b > 0,
        tile_height_b > 0,
        init.len() == width * height,
        forall|j: int|
            0 <= j < tiles_spec(width as nat, height as nat, tile_width_a as nat, tile_height_a as nat).len()
                ==> order_a.contains(
                #[trigger] tiles_spec(width as nat, height as nat, tile_width_a as nat, tile_height_a as nat)[j],
            ),
        forall|j: int|
            0 <= j < tiles_spec(width as nat, height as nat, tile_width_b as nat, tile_height_b as nat).len()
                ==> order_b.contains(
                #[trigger] tiles_spec(width as nat, height as nat, tile_width_b as nat, tile_height_b as nat)[j],
            ),
    ensures
        compose(init, width as nat, order_a, g) == compose(init, width as nat, order_b, g),
{
    lemma_tiles_compose_pointwise(init, width, height, tile_width_a, tile_height_a, order_a, g);
    lemma_tiles_compose_pointwise(init, width, height, tile_width_b, tile_height_b, order_b, g);
}

} // verus!
