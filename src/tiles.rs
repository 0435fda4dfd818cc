//! Partition of the canvas into rectangular tiles, and the column-major walk over tile
//! coordinates that orders the tile jobs.
use vstd::prelude::*;
use core::ops::Range;
use vstd::arithmetic::div_mod::{lemma_fundamental_div_mod, lemma_fundamental_div_mod_converse};

verus! {

/// The pairs `(x, y)` with `y` running over `y..y_end` in row `x`.
pub open spec fn coordinate_row(x: usize, y: int, y_end: int) -> Seq<(usize, usize)> {
    Seq::new(
        if y < y_end {
            (y_end - y) as nat
        } else {
            0
        },
        |i: int| (x, (y + i) as usize),
    )
}

/// All pairs `(x, y)` with `x` in `x..x_end` and `y` in `y_start..y_end`, `x` outermost.
pub open spec fn coordinates(x: int, x_end: int, y_start: int, y_end: int) -> Seq<(usize, usize)>
    decreases x_end - x,
{
    if x >= x_end {
        Seq::empty()
    } else {
        coordinate_row(x as usize, y_start, y_end) + coordinates(x + 1, x_end, y_start, y_end)
    }
}

/// A rectangle of pairs: `self.0` gives the outer coordinate, `self.1` the inner one.
pub struct CoordinateRange(pub Range<usize>, pub Range<usize>);

/// Walks the pairs of a `CoordinateRange`.
pub struct CoordinateRangeIterator {
    x: usize,
    x_end: usize,
    y: usize,
    y_start: usize,
    y_end: usize,
}

impl CoordinateRange {
    /// A walk over all pairs of the rectangle, the outer coordinate changing slowest.
    pub fn iter(&self) -> (r: CoordinateRangeIterator)
        ensures
            r.wf(),
            r.remaining() == coordinates(
                self.0.start as int,
                self.0.end as int,
                self.1.start as int,
                self.1.end as int,
            ),
    {
        CoordinateRangeIterator {
            x: self.0.start,
            x_end: self.0.end,
            y: self.1.start,
            y_start: self.1.start,
            y_end: self.1.end,
        }
    }
}

proof fn lemma_coordinates_empty_rows(x: int, x_end: int, y_start: int, y_end: int)
    requires
        y_start >= y_end,
    ensures
        coordinates(x, x_end, y_start, y_end).len() == 0,
    decreases x_end - x,
{
    if x < x_end {
        lemma_coordinates_empty_rows(x + 1, x_end, y_start, y_end);
    }
}

impl CoordinateRangeIterator {
    pub closed spec fn wf(&self) -> bool {
        &&& self.x < self.x_end ==> self.y >= self.y_start
        &&& self.x < self.x_end ==> (self.y_start < self.y_end ==> self.y <= self.y_end)
    }

    /// The pairs that the walk has yet to yield, in order.
    pub closed spec fn remaining(&self) -> Seq<(usize, usize)> {
        if self.x >= self.x_end {
            Seq::empty()
        } else {
            coordinate_row(self.x, self.y as int, self.y_end as int) + coordinates(
                self.x + 1,
                self.x_end as int,
                self.y_start as int,
                self.y_end as int,
            )
        }
    }

    /// The next pair of the walk, or `None` once every pair has been yielded.
    pub fn next(&mut self) -> (r: Option<(usize, usize)>)
        requires
            old(self).wf(),
        ensures
            final(self).wf(),
            old(self).remaining().len() == 0 ==> r is None && final(self).remaining().len() == 0,
            old(self).remaining().len() > 0 ==> r == Some(old(self).remaining()[0])
                && final(self).remaining() == old(self).remaining().drop_first(),
    {
        let ghost before = self.remaining();
        if self.x < self.x_end && self.y >= self.y_end {
            proof {
                assert(coordinate_row(self.x, self.y as int, self.y_end as int).len() == 0);
                assert(before =~= coordinates(
                    self.x + 1,
                    self.x_end as int,
                    self.y_start as int,
                    self.y_end as int,
                ));
            }
            self.x = self.x + 1;
            self.y = self.y_start;
            proof {
                if self.x < self.x_end {
                    assert(before =~= self.remaining());
                } else {
                    assert(before =~= self.remaining());
                }
            }
        }
        if self.x < self.x_end && self.y < self.y_end {
            let r = (self.x, self.y);
            let ghost row = coordinate_row(self.x, self.y as int, self.y_end as int);
            let ghost rest = coordinates(
                self.x + 1,
                self.x_end as int,
                self.y_start as int,
                self.y_end as int,
            );
            self.y = self.y + 1;
            proof {
                assert(before[0] == r);
                assert(coordinate_row(self.x, self.y as int, self.y_end as int) =~= row.drop_first());
                assert(self.remaining() =~= before.drop_first());
            }
            Some(r)
        } else {
            proof {
                if self.x < self.x_end {
                    lemma_coordinates_empty_rows(
                        self.x + 1,
                        self.x_end as int,
                        self.y_start as int,
                        self.y_end as int,
                    );
                }
            }
            None
        }
    }
}

proof fn lemma_coordinates_len(x: int, x_end: int, rows: int)
    requires
        0 <= x <= x_end,
        rows >= 0,
    ensures
        coordinates(x, x_end, 0, rows).len() == (x_end - x) * rows,
    decreases x_end - x,
{
    if x < x_end {
        lemma_coordinates_len(x + 1, x_end, rows);
        assert((x_end - x) * rows == rows + (x_end - (x + 1)) * rows) by (nonlinear_arith);
        assert(coordinate_row(x as usize, 0, rows).len() == rows);
    } else {
        assert((x_end - x) * rows == 0) by (nonlinear_arith)
            requires
                x == x_end,
        ;
    }
}

proof fn lemma_coordinates_index(x: int, x_end: int, rows: int, i: int)
    requires
        0 <= x <= x_end,
        rows > 0,
        0 <= i < (x_end - x) * rows,
    ensures
        coordinates(x, x_end, 0, rows)[i] == ((x + i / rows) as usize, (i % rows) as usize),
    decreases x_end - x,
{
    lemma_coordinates_len(x, x_end, rows);
    assert(x < x_end) by (nonlinear_arith)
        requires
            0 <= i < (x_end - x) * rows,
            rows > 0,
    ;
    let row = coordinate_row(x as usize, 0, rows);
    let rest = coordinates(x + 1, x_end, 0, rows);
    assert(coordinates(x, x_end, 0, rows) == row + rest);
    assert(row.len() == rows);
    if i < rows {
        lemma_fundamental_div_mod_converse(i, rows, 0, i);
        assert(row[i] == (x as usize, i as usize));
    } else {
        assert(x + 1 < x_end) by (nonlinear_arith)
            requires
                i < (x_end - x) * rows,
                i >= rows,
                rows > 0,
        ;
        lemma_coordinates_len(x + 1, x_end, rows);
        assert(i - rows < (x_end - (x + 1)) * rows) by (nonlinear_arith)
            requires
                i < (x_end - x) * rows,
        ;
        lemma_coordinates_index(x + 1, x_end, rows, i - rows);
        let q = (i - rows) / rows;
        let r = (i - rows) % rows;
        lemma_fundamental_div_mod(i - rows, rows);
        assert(i == (q + 1) * rows + r) by (nonlinear_arith)
            requires
                i - rows == rows * q + r,
        ;
        lemma_fundamental_div_mod_converse(i, rows, q + 1, r);
    }
}

/// How many tiles of length `tile` it takes to cover `len`: `len / tile`, rounded up.
pub open spec fn tile_count_spec(len: nat, tile: nat) -> nat
    recommends
        tile > 0,
{
    if len % tile == 0 {
        len / tile
    } else {
        len / tile + 1
    }
}

/// How many tiles of length `tile` it takes to cover `len`: `len / tile`, rounded up.
pub fn tile_count(len: usize, tile: usize) -> (r: usize)
    requires
        tile > 0,
    ensures
        r == tile_count_spec(len as nat, tile as nat),
{
    if len % tile == 0 {
        len / tile
    } else {
        assert(len / tile < len) by (nonlinear_arith)
            requires
                tile > 0,
                len % tile != 0,
        ;
        len / tile + 1
    }
}

/// A rectangle of the canvas: its top-left pixel and its size.
#[derive(Clone, Copy, PartialEq, Eq, Structural, Debug)]
pub struct Tile {
    pub x: usize,
    pub y: usize,
    pub width: usize,
    pub height: usize,
}

/// Whether pixel `(px, py)` lies in the tile.
pub open spec fn tile_contains(t: Tile, px: int, py: int) -> bool {
    t.x <= px < t.x + t.width && t.y <= py < t.y + t.height
}

pub open spec fn min_int(a: int, b: int) -> int {
    if a <= b {
        a
    } else {
        b
    }
}

/// The tile in column `col` and row `row` of a `width` x `height` canvas cut into tiles of
/// `tile_width` x `tile_height`; tiles on the right and bottom edges are cut short.
pub open spec fn tile_at(
    col: int,
    row: int,
    width: int,
    height: int,
    tile_width: int,
    tile_height: int,
) -> Tile {
    Tile {
        x: (col * tile_width) as usize,
        y: (row * tile_height) as usize,
        width: min_int(tile_width, width - col * tile_width) as usize,
        height: min_int(tile_height, height - row * tile_height) as usize,
    }
}

/// The tiles of the canvas, column by column, each column from top to bottom.
pub open spec fn tiles_spec(width: nat, height: nat, tile_width: nat, tile_height: nat) -> Seq<Tile> {
    let rows = tile_count_spec(height, tile_height) as int;
    Seq::new(
        (tile_count_spec(width, tile_width) * rows) as nat,
        |i: int| tile_at(i / rows, i % rows, width as int, height as int, tile_width as int, tile_height as int),
    )
}

pub(crate) proof fn lemma_below_count(c: int, len: int, tile: int)
    requires
        tile > 0,
        len >= 0,
        0 <= c < tile_count_spec(len as nat, tile as nat),
    ensures
        c * tile < len,
{
    lemma_fundamental_div_mod(len, tile);
    if len % tile == 0 {
        assert(c * tile < len) by (nonlinear_arith)
            requires
                c < len / tile,
                len == tile * (len / tile),
                tile > 0,
        ;
    } else {
        assert(c * tile < len) by (nonlinear_arith)
            requires
                c <= len / tile,
                len == tile * (len / tile) + len % tile,
                len % tile > 0,
                tile > 0,
        ;
    }
}

/// Cuts a `width` x `height` canvas into tiles of at most `tile_width` x `tile_height`,
/// listed column by column.
pub fn tiles(width: usize, height: usize, tile_width: usize, tile_height: usize) -> (r: Vec<Tile>)
    requires
        tile_width > 0,
        tile_height > 0,
    ensures
        r@ == tiles_spec(width as nat, height as nat, tile_width as nat, tile_height as nat),
{
    let cols = tile_count(width, tile_width);
    let rows = tile_count(height, tile_height);
    let range = CoordinateRange(0..cols, 0..rows);
    let mut it = range.iter();
    let ghost all = it.remaining();
    let ghost spec_tiles = tiles_spec(width as nat, height as nat, tile_width as nat, tile_height as nat);
    proof {
        lemma_coordinates_len(0, cols as int, rows as int);
    }
    let mut out: Vec<Tile> = Vec::new();
    loop
        invariant
            it.wf(),
            all == coordinates(0, cols as int, 0, rows as int),
            all.len() == cols * rows,
            cols == tile_count_spec(width as nat, tile_width as nat),
            rows == tile_count_spec(height as nat, tile_height as nat),
            spec_tiles == tiles_spec(width as nat, height as nat, tile_width as nat, tile_height as nat),
            tile_width > 0,
            tile_height > 0,
            out@.len() + it.remaining().len() == all.len(),
            it.remaining() == all.skip(out@.len() as int),
            out@ == spec_tiles.take(out@.len() as int),
        ensures
            out@ == spec_tiles,
        decreases it.remaining().len(),
    {
        let ghost k = out@.len() as int;
        match it.next() {
            None => {
                assert(out@ =~= spec_tiles);
                break;
            },
            Some(pair) => {
                let (c, row) = pair;
                proof {
                    assert(pair == all[k]);
                    assert(rows > 0 && k / (rows as int) < cols) by (nonlinear_arith)
                        requires
                            0 <= k < cols * rows,
                    ;
                    lemma_coordinates_index(0, cols as int, rows as int, k);
                    lemma_below_count(c as int, width as int, tile_width as int);
                    lemma_below_count(row as int, height as int, tile_height as int);
                }
                let x = c * tile_width;
                let y = row * tile_height;
                let w = if tile_width <= width - x { tile_width } else { width - x };
                let h = if tile_height <= height - y { tile_height } else { height - y };
                out.push(Tile { x, y, width: w, height: h });
                proof {
                    assert(it.remaining() =~= all.skip(out@.len() as int));
                    assert(out@ =~= spec_tiles.take(out@.len() as int));
                }
            },
        }
    }
    out
}

/// Every pixel of the canvas lies in exactly one tile: the one in column `px / tile_width`
/// and row `py / tile_height`.
pub proof fn lemma_tiles_partition(
    width: usize,
    height: usize,
    tile_width: usize,
    tile_height: usize,
    px: usize,
    py: usize,
)
    requires
        tile_width > 0,
        tile_height > 0,
        px < width,
        py < height,
    ensures
        ({
            let ts = tiles_spec(width as nat, height as nat, tile_width as nat, tile_height as nat);
            let i = (px / tile_width) * tile_count_spec(height as nat, tile_height as nat) + py / tile_height;
            &&& 0 <= i < ts.len()
            &&& forall|j: int| 0 <= j < ts.len() ==> (tile_contains(#[trigger] ts[j], px as int, py as int) <==> j == i)
        }),
{
    let ts = tiles_spec(width as nat, height as nat, tile_width as nat, tile_height as nat);
    let rows = tile_count_spec(height as nat, tile_height as nat) as int;
    let cols = tile_count_spec(width as nat, tile_width as nat) as int;
    let tw = tile_width as int;
    let pxi = px as int;
    let pyi = py as int;
    let w = width as int;
    let h = height as int;
    let th = tile_height as int;
    let c = pxi / tw;
    let r = pyi / th;
    let i = c * rows + r;
    lemma_fundamental_div_mod(pxi, tw);
    lemma_fundamental_div_mod(pyi, th);
    lemma_fundamental_div_mod(w, tw);
    lemma_fundamental_div_mod(h, th);
    assert(c < cols) by (nonlinear_arith)
        requires
            pxi < w,
            pxi == tw * c + pxi % tw,
            0 <= pxi % tw < tw,
            w == tw * (w / tw) + w % tw,
            0 <= w % tw,
            cols == (if w % tw == 0 { w / tw } else { w / tw + 1 }),
            tw > 0,
    ;
    assert(r < rows) by (nonlinear_arith)
        requires
            pyi < h,
            pyi == th * r + pyi % th,
            0 <= pyi % th < th,
            h == th * (h / th) + h % th,
            0 <= h % th,
            rows == (if h % th == 0 { h / th } else { h / th + 1 }),
            th > 0,
    ;
    assert(0 <= i < cols * rows) by (nonlinear_arith)
        requires
            0 <= c < cols,
            0 <= r < rows,
            i == c * rows + r,
    ;
    assert forall|j: int| 0 <= j < ts.len() implies (tile_contains(#[trigger] ts[j], pxi, pyi) <==> j == i) by {
        let cj = j / rows;
        let rj = j % rows;
        lemma_fundamental_div_mod(j, rows);
        lemma_fundamental_div_mod_converse(i, rows, c, r);
        assert(0 <= cj < cols) by (nonlinear_arith)
            requires
                0 <= j < cols * rows,
                j == rows * cj + rj,
                0 <= rj < rows,
        ;
        lemma_below_count(cj, w, tw);
        lemma_below_count(rj, h, th);
        let t = ts[j];
        assert(t == tile_at(cj, rj, w, h, tw, th));
        assert(t.x == cj * tw);
        assert(t.y == rj * th);
        assert(t.width == min_int(tw, w - cj * tw));
        assert(t.height == min_int(th, h - rj * th));
        if tile_contains(t, pxi, pyi) {
            assert(cj == c) by (nonlinear_arith)
                requires
                    cj * tw <= pxi < cj * tw + tw,
                    pxi == tw * c + pxi % tw,
                    0 <= pxi % tw < tw,
                    tw > 0,
            ;
            assert(rj == r) by (nonlinear_arith)
                requires
                    rj * th <= pyi < rj * th + th,
                    pyi == th * r + pyi % th,
                    0 <= pyi % th < th,
                    th > 0,
            ;
            assert(j == i) by (nonlinear_arith)
                requires
                    j == rows * cj + rj,
                    i == c * rows + r,
                    cj == c,
                    rj == r,
            ;
        }
        if j == i {
            assert(cj == c && rj == r);
            assert(c * tw <= pxi < c * tw + tw) by (nonlinear_arith)
                requires
                    pxi == tw * c + pxi % tw,
                    0 <= pxi % tw < tw,
            ;
            assert(r * th <= pyi < r * th + th) by (nonlinear_arith)
                requires
                    pyi == th * r + pyi % th,
                    0 <= pyi % th < th,
            ;
        }
    }
}

} // verus!
