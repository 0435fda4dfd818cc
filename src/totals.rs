//! Sample totals: what the tiles report, added up, is what the canvas's pixels drew.
use vstd::prelude::*;
use vstd::arithmetic::div_mod::{lemma_fundamental_div_mod, lemma_fundamental_div_mod_converse};
use crate::scheduler::{sum, tile_film};
use crate::tiles::{Tile, tile_at, tile_count_spec, tiles_spec, min_int, lemma_below_count};

verus! {

/// The values of `g` over the `w` x `h` rectangle at `(x, y)`, row by row.
pub open spec fn grid(g: spec_fn(int, int) -> nat, x: int, y: int, w: nat, h: nat) -> Seq<nat> {
    Seq::new(w * h, |k: int| g(x + k % (w as int), y + k / (w as int)))
}

/// The sum of `g` over columns `x..x + w` of row `y`.
pub open spec fn row_sum(g: spec_fn(int, int) -> nat, x: int, y: int, w: nat) -> nat
    decreases w,
{
    if w == 0 {
        0
    } else {
        row_sum(g, x, y, (w - 1) as nat) + g(x + w - 1, y)
    }
}

/// The sum of `g` over the `w` x `h` rectangle at `(x, y)`.
pub open spec fn rect_sum(g: spec_fn(int, int) -> nat, x: int, y: int, w: nat, h: nat) -> nat
    decreases h,
{
    if h == 0 {
        0
    } else {
        rect_sum(g, x, y, w, (h - 1) as nat) + row_sum(g, x, y + h - 1, w)
    }
}

/// The totals of the tiles' per-pixel counts, added up.
pub open spec fn tiles_total(tiles: Seq<Tile>, g: spec_fn(int, int) -> nat) -> nat
    decreases tiles.len(),
{
    if tiles.len() == 0 {
        0
    } else {
        tiles_total(tiles.drop_last(), g) + sum(tile_film(g, tiles.last()))
    }
}

proof fn lemma_sum_concat(a: Seq<nat>, b: Seq<nat>)
    ensures
        sum(a + b) == sum(a) + sum(b),
    decreases b.len(),
{
    if b.len() > 0 {
        assert((a + b).drop_last() =~= a + b.drop_last());
        lemma_sum_concat(a, b.drop_last());
    }
}

proof fn lemma_row(g: spec_fn(int, int) -> nat, x: int, y: int, w: nat)
    ensures
        sum(Seq::new(w, |j: int| g(x + j, y))) == row_sum(g, x, y, w),
    decreases w,
{
    if w > 0 {
        assert(Seq::new(w, |j: int| g(x + j, y)).drop_last() =~= Seq::new((w - 1) as nat, |j: int| g(x + j, y)));
        lemma_row(g, x, y, (w - 1) as nat);
    }
}

proof fn lemma_rect_empty_width(g: spec_fn(int, int) -> nat, x: int, y: int, h: nat)
    ensures
        rect_sum(g, x, y, 0, h) == 0,
    decreases h,
{
    if h > 0 {
        lemma_rect_empty_width(g, x, y, (h - 1) as nat);
    }
}

/// The sum of a grid is the sum over its rectangle.
proof fn lemma_grid(g: spec_fn(int, int) -> nat, x: int, y: int, w: nat, h: nat)
    ensures
        sum(grid(g, x, y, w, h)) == rect_sum(g, x, y, w, h),
    decreases h,
{
    if w == 0 {
        lemma_rect_empty_width(g, x, y, h);
        assert(w * h == 0) by (nonlinear_arith)
            requires
                w == 0,
        ;
        assert(grid(g, x, y, w, h) =~= Seq::<nat>::empty());
    } else if h == 0 {
        assert(w * h == 0) by (nonlinear_arith)
            requires
                h == 0,
        ;
        assert(grid(g, x, y, w, h) =~= Seq::<nat>::empty());
    } else {
        let hm = (h - 1) as nat;
        let row = Seq::new(w, |j: int| g(x + j, y + hm));
        assert(w * h == w * hm + w) by (nonlinear_arith)
            requires
                hm == h - 1,
        ;
        assert(grid(g, x, y, w, h) =~= grid(g, x, y, w, hm) + row) by {
            assert forall|k: int| w * hm <= k < w * h implies #[trigger] grid(g, x, y, w, h)[k] == row[k - w * hm] by {
                lemma_fundamental_div_mod_converse(k, w as int, hm as int, k - w * hm);
                assert(hm * w == w * hm) by (nonlinear_arith);
            }
        }
        lemma_sum_concat(grid(g, x, y, w, hm), row);
        lemma_grid(g, x, y, w, hm);
        lemma_row(g, x, y + hm, w);
    }
}

proof fn lemma_rect_split_rows(g: spec_fn(int, int) -> nat, x: int, y: int, w: nat, h1: nat, h2: nat)
    ensures
        rect_sum(g, x, y, w, h1 + h2) == rect_sum(g, x, y, w, h1) + rect_sum(g, x, y + h1, w, h2),
    decreases h2,
{
    if h2 > 0 {
        lemma_rect_split_rows(g, x, y, w, h1, (h2 - 1) as nat);
        assert((h1 + h2 - 1) as nat == h1 + (h2 - 1) as nat);
    }
}

proof fn lemma_row_split(g: spec_fn(int, int) -> nat, x: int, y: int, w1: nat, w2: nat)
    ensures
        row_sum(g, x, y, w1 + w2) == row_sum(g, x, y, w1) + row_sum(g, x + w1, y, w2),
    decreases w2,
{
    if w2 > 0 {
        lemma_row_split(g, x, y, w1, (w2 - 1) as nat);
        assert((w1 + w2 - 1) as nat == w1 + (w2 - 1) as nat);
    }
}

proof fn lemma_rect_split_cols(g: spec_fn(int, int) -> nat, x: int, y: int, w1: nat, w2: nat, h: nat)
    ensures
        rect_sum(g, x, y, w1 + w2, h) == rect_sum(g, x, y, w1, h) + rect_sum(g, x + w1, y, w2, h),
    decreases h,
{
    if h > 0 {
        lemma_rect_split_cols(g, x, y, w1, w2, (h - 1) as nat);
        lemma_row_split(g, x, y + h - 1, w1, w2);
    }
}

/// The first `k` tiles of the canvas, added up: the full columns before column `k / rows`,
/// then the first `k % rows` tiles of that column.
spec fn covered_sum(g: spec_fn(int, int) -> nat, w: int, h: int, tw: int, th: int, rows: int, k: int) -> nat {
    let c = k / rows;
    let r = k % rows;
    rect_sum(g, 0, 0, min_int(c * tw, w) as nat, h as nat) + rect_sum(
        g,
        c * tw,
        0,
        min_int(tw, w - c * tw) as nat,
        min_int(r * th, h) as nat,
    )
}

proof fn lemma_count_covers(len: int, tile: int)
    requires
        len >= 0,
        tile > 0,
    ensures
        tile_count_spec(len as nat, tile as nat) * tile >= len,
{
    lemma_fundamental_div_mod(len, tile);
    assert(tile_count_spec(len as nat, tile as nat) * tile >= len) by (nonlinear_arith)
        requires
            len == tile * (len / tile) + len % tile,
            0 <= len % tile < tile,
            tile_count_spec(len as nat, tile as nat) == (if len % tile == 0 { len / tile } else { len / tile + 1 }),
    ;
}

proof fn lemma_prefix(width: usize, height: usize, tile_width: usize, tile_height: usize, g: spec_fn(int, int) -> nat, k: int)
    requires
        tile_width > 0,
        tile_height > 0,
        height > 0,
        0 <= k <= tile_count_spec(width as nat, tile_width as nat) * tile_count_spec(height as nat, tile_height as nat),
    ensures
        tiles_total(tiles_spec(width as nat, height as nat, tile_width as nat, tile_height as nat).take(k), g)
            == covered_sum(g, width as int, height as int, tile_width as int, tile_height as int,
                tile_count_spec(height as nat, tile_height as nat) as int, k),
    decreases k,
{
    let w = width as int;
    let h = height as int;
    let tw = tile_width as int;
    let th = tile_height as int;
    let cols = tile_count_spec(width as nat, tile_width as nat) as int;
    let rows = tile_count_spec(height as nat, tile_height as nat) as int;
    let ts = tiles_spec(width as nat, height as nat, tile_width as nat, tile_height as nat);
    lemma_count_covers(h, th);
    assert(rows > 0) by (nonlinear_arith)
        requires
            rows * th >= h,
            h > 0,
            th > 0,
    ;
    if k == 0 {
        assert(ts.take(0) =~= Seq::<Tile>::empty());
        lemma_fundamental_div_mod_converse(0, rows, 0, 0);
        lemma_rect_empty_width(g, 0, 0, h as nat);
        assert(0int / rows == 0 && 0int % rows == 0);
        assert((0int / rows) * tw == 0) by (nonlinear_arith)
            requires
                0int / rows == 0,
        ;
        assert((0int % rows) * th == 0) by (nonlinear_arith)
            requires
                0int % rows == 0,
        ;
        assert(covered_sum(g, w, h, tw, th, rows, 0) == 0);
    } else {
        let kp = k - 1;
        lemma_prefix(width, height, tile_width, tile_height, g, kp);
        let c = kp / rows;
        let r = kp % rows;
        lemma_fundamental_div_mod(kp, rows);
        assert(c < cols) by (nonlinear_arith)
            requires
                0 <= kp < cols * rows,
                kp == rows * c + r,
                0 <= r < rows,
        ;
        lemma_below_count(c, w, tw);
        lemma_below_count(r, h, th);
        assert(ts.take(k).drop_last() =~= ts.take(kp));
        let t = ts[kp];
        assert(ts.take(k).last() == t);
        assert(tiles_total(ts.take(k), g) == tiles_total(ts.take(kp), g) + sum(tile_film(g, t)));
        assert(t == tile_at(c, r, w, h, tw, th));
        let wc = min_int(tw, w - c * tw);
        let hr = min_int(th, h - r * th);
        assert(tile_film(g, t) =~= grid(g, c * tw, r * th, wc as nat, hr as nat));
        lemma_grid(g, c * tw, r * th, wc as nat, hr as nat);
        assert((r + 1) * th == r * th + th) by (nonlinear_arith);
        assert((c + 1) * tw == c * tw + tw) by (nonlinear_arith);
        assert(c * rows == rows * c) by (nonlinear_arith);
        assert((c + 1) * rows == rows * c + rows) by (nonlinear_arith);
        let before = covered_sum(g, w, h, tw, th, rows, kp);
        assert(before == rect_sum(g, 0, 0, min_int(c * tw, w) as nat, h as nat) + rect_sum(g, c * tw, 0, wc as nat, min_int(r * th, h) as nat));
        assert(min_int(r * th, h) == r * th);
        assert(min_int(c * tw, w) == c * tw);
        if r + 1 < rows {
            lemma_fundamental_div_mod_converse(k, rows, c, r + 1);
            lemma_rect_split_rows(g, c * tw, 0, wc as nat, (r * th) as nat, hr as nat);
            assert(min_int((r + 1) * th, h) == r * th + hr);
            assert(k / rows == c && k % rows == r + 1);
            assert(covered_sum(g, w, h, tw, th, rows, k) == rect_sum(g, 0, 0, (c * tw) as nat, h as nat)
                + rect_sum(g, c * tw, 0, wc as nat, (r * th + hr) as nat));
        } else {
            lemma_fundamental_div_mod_converse(k, rows, c + 1, 0);
            assert(rows * th == (r + 1) * th) by (nonlinear_arith)
                requires
                    rows == r + 1,
            ;
            assert(hr == h - r * th);
            lemma_rect_split_rows(g, c * tw, 0, wc as nat, (r * th) as nat, hr as nat);
            lemma_rect_split_cols(g, 0, 0, (c * tw) as nat, wc as nat, h as nat);
            assert(min_int((c + 1) * tw, w) == c * tw + wc);
            assert(0 * th == 0);
            assert(k / rows == c + 1 && k % rows == 0);
            assert(covered_sum(g, w, h, tw, th, rows, k) == rect_sum(g, 0, 0, (c * tw + wc) as nat, h as nat)
                + rect_sum(g, (c + 1) * tw, 0, min_int(tw, w - (c + 1) * tw) as nat, 0));
        }
    }
}

/// The sample total a render reports, added up tile by tile, equals the sum of the
/// per-pixel draw counts over the canvas. When every tile's per-pixel counts are those of
/// the canvas pixels they stand for (`g`; a finished `TileSampler` reports the sum of its
/// counts), the tiles' totals add up to the sum of `g` over every canvas pixel, row by row.
pub proof fn lemma_tile_totals(
    width: usize,
    height: usize,
    tile_width: usize,
    tile_height: usize,
    g: spec_fn(int, int) -> nat,
)
    requires
        tile_width > 0,
        tile_height > 0,
    ensures
        tiles_total(tiles_spec(width as nat, height as nat, tile_width as nat, tile_height as nat), g)
            == sum(grid(g, 0, 0, width as nat, height as nat)),
{
    let ts = tiles_spec(width as nat, height as nat, tile_width as nat, tile_height as nat);
    let cols = tile_count_spec(width as nat, tile_width as nat) as int;
    let rows = tile_count_spec(height as nat, tile_height as nat) as int;
    lemma_grid(g, 0, 0, width as nat, height as nat);
    if height == 0 {
        assert(cols * rows == 0) by (nonlinear_arith)
            requires
                rows == 0,
        ;
        assert(ts.len() == 0);
    } else {
        lemma_prefix(width, height, tile_width, tile_height, g, cols * rows);
        assert(ts.take(cols * rows) =~= ts);
        lemma_count_covers(height as int, tile_height as int);
        lemma_count_covers(width as int, tile_width as int);
        assert(rows > 0) by (nonlinear_arith)
            requires
                rows * tile_height >= height,
                height > 0,
        ;
        lemma_fundamental_div_mod_converse(cols * rows, rows, cols, 0);
        assert(cols * tile_width >= width);
        assert(0 * (tile_height as int) == 0);
    }
}

} // verus!
