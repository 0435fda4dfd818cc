//! The film: a row-major grid of per-pixel accumulators, and the copy ("blit") of a
//! tile-local film into the canvas.
use vstd::prelude::*;
use vstd::arithmetic::div_mod::lemma_fundamental_div_mod_converse;

verus! {

/// Column of the row-major index `i` on a grid `width` pixels wide.
pub open spec fn col_of(i: int, width: nat) -> int {
    i % (width as int)
}

/// Row of the row-major index `i` on a grid `width` pixels wide.
pub open spec fn row_of(i: int, width: nat) -> int {
    i / (width as int)
}

/// Whether canvas pixel `(x, y)` is covered when a `src_width` x `src_height` film is copied
/// with its top-left pixel at `(left, top)`.
pub open spec fn in_blit(x: int, y: int, left: int, top: int, src_width: nat, src_height: nat) -> bool {
    left <= x < left + src_width && top <= y < top + src_height
}

/// The pixels of a `width`-wide film `dst` after the film `src` (`src_width` x `src_height`)
/// has been copied onto it at `(left, top)`; what falls outside `dst` is dropped.
pub open spec fn blit<P>(
    dst: Seq<P>,
    width: nat,
    left: int,
    top: int,
    src: Seq<P>,
    src_width: nat,
    src_height: nat,
) -> Seq<P> {
    Seq::new(
        dst.len(),
        |i: int|
            {
                let x = col_of(i, width);
                let y = row_of(i, width);
                if in_blit(x, y, left, top, src_width, src_height) {
                    src[(x - left) + (y - top) * src_width]
                } else {
                    dst[i]
                }
            },
    )
}

proof fn lemma_index_split(x: int, y: int, width: int)
    requires
        0 <= x < width,
        0 <= y,
    ensures
        (x + y * width) % width == x,
        (x + y * width) / width == y,
{
    lemma_fundamental_div_mod_converse(x + y * width, width, y, x);
}

/// A `width` x `height` grid of pixels of type `P`, stored row by row.
pub struct SamplingFilm<P> {
    width: usize,
    height: usize,
    pix: Vec<P>,
}

impl<P: Copy> SamplingFilm<P> {
    pub closed spec fn spec_width(&self) -> nat {
        self.width as nat
    }

    pub closed spec fn spec_height(&self) -> nat {
        self.height as nat
    }

    /// The pixels, row by row: pixel `(x, y)` is at `x + y * width`.
    pub closed spec fn pixels(&self) -> Seq<P> {
        self.pix@
    }

    pub open spec fn wf(&self) -> bool {
        &&& self.pixels().len() == self.spec_width() * self.spec_height()
        &&& self.pixels().len() <= usize::MAX
    }

    /// A `width` x `height` film with every pixel set to `fill`.
    pub fn new(width: usize, height: usize, fill: P) -> (r: Self)
        requires
            width * height <= usize::MAX,
        ensures
            r.wf(),
            r.spec_width() == width,
            r.spec_height() == height,
            r.pixels() == Seq::new((width * height) as nat, |i: int| fill),
    {
        let n: usize = width * height;
        let mut pix: Vec<P> = Vec::new();
        let mut i: usize = 0;
        while i < n
            invariant
                i <= n,
                pix@ == Seq::new(i as nat, |k: int| fill),
            decreases n - i,
        {
            pix.push(fill);
            i = i + 1;
            assert(pix@ =~= Seq::new(i as nat, |k: int| fill));
        }
        SamplingFilm { width, height, pix }
    }

    pub fn width(&self) -> (r: usize)
        ensures
            r == self.spec_width(),
    {
        self.width
    }

    pub fn height(&self) -> (r: usize)
        ensures
            r == self.spec_height(),
    {
        self.height
    }

    /// The accumulator of pixel `(x, y)`.
    pub fn sample_collector(&self, x: usize, y: usize) -> (r: &P)
        requires
            self.wf(),
            x < self.spec_width(),
            y < self.spec_height(),
        ensures
            *r == self.pixels()[x + y * self.spec_width()],
    {
        assert(x + y * self.width < self.width * self.height) by (nonlinear_arith)
            requires
                x < self.width,
                y < self.height,
        ;
        assert(y * self.width <= x + y * self.width);
        &self.pix[x + y * self.width]
    }

    /// Replaces the accumulator of pixel `(x, y)`.
    pub fn set(&mut self, x: usize, y: usize, value: P)
        requires
            old(self).wf(),
            x < old(self).spec_width(),
            y < old(self).spec_height(),
        ensures
            final(self).wf(),
            final(self).spec_width() == old(self).spec_width(),
            final(self).spec_height() == old(self).spec_height(),
            final(self).pixels() == old(self).pixels().update(
                x + y * old(self).spec_width(),
                value,
            ),
    {
        assert(x + y * self.width < self.width * self.height) by (nonlinear_arith)
            requires
                x < self.width,
                y < self.height,
        ;
        assert(y * self.width <= x + y * self.width);
        let i = x + y * self.width;
        self.pix.set(i, value);
    }

    /// Copies `other` onto this film with its top-left pixel at `(top_left_x, top_left_y)`;
    /// the part of `other` that falls outside this film is dropped.
    pub fn overwrite_with(&mut self, top_left_x: usize, top_left_y: usize, other: &Self)
        requires
            old(self).wf(),
            other.wf(),
        ensures
            final(self).wf(),
            final(self).spec_width() == old(self).spec_width(),
            final(self).spec_height() == old(self).spec_height(),
            final(self).pixels() == blit(
                old(self).pixels(),
                old(self).spec_width(),
                top_left_x as int,
                top_left_y as int,
                other.pixels(),
                other.spec_width(),
                other.spec_height(),
            ),
    {
        let ghost old_pix = self.pix@;
        let ghost w = self.width as nat;
        let ghost h = self.height as nat;
        let ghost left = top_left_x as int;
        let ghost top = top_left_y as int;
        let ghost sw = other.width as nat;
        let ghost sh = other.height as nat;
        let ghost target = blit(old_pix, w, left, top, other.pix@, sw, sh);
        let x_end: usize = if top_left_x >= self.width {
            top_left_x
        } else if other.width <= self.width - top_left_x {
            top_left_x + other.width
        } else {
            self.width
        };
        let y_end: usize = if top_left_y >= self.height {
            top_left_y
        } else if other.height <= self.height - top_left_y {
            top_left_y + other.height
        } else {
            self.height
        };
        // outside columns `top_left_x..x_end` and rows `top_left_y..y_end` nothing changes
        proof {
            assert forall|j: int|
                0 <= j < old_pix.len() && !(left <= col_of(j, w) < x_end && top <= row_of(
                    j,
                    w,
                ) < y_end) implies #[trigger] target[j] == old_pix[j] by {
                vstd::arithmetic::div_mod::lemma_fundamental_div_mod(j, w as int);
                assert(w > 0) by (nonlinear_arith)
                    requires
                        0 <= j < w * h,
                ;
                assert(row_of(j, w) < h) by (nonlinear_arith)
                    requires
                        0 <= j < w * h,
                        j == w * row_of(j, w) + col_of(j, w),
                        0 <= col_of(j, w),
                        w > 0,
                ;
            }
        }
        let mut x: usize = top_left_x;
        while x < x_end
            invariant
                self.wf(),
                other.wf(),
                self.width == w,
                self.height == h,
                old_pix.len() == w * h,
                target == blit(old_pix, w, left, top, other.pix@, sw, sh),
                other.pix@.len() == sw * sh,
                left == top_left_x,
                top == top_left_y,
                sw == other.width,
                sh == other.height,
                top_left_x <= x,
                x_end <= w || x_end == top_left_x,
                x_end <= top_left_x + other.width,
                y_end <= h || y_end == top_left_y,
                y_end <= top_left_y + other.height,
                forall|j: int|
                    0 <= j < old_pix.len() && !(left <= col_of(j, w) < x_end && top <= row_of(
                        j,
                        w,
                    ) < y_end) ==> #[trigger] target[j] == old_pix[j],
                self.pix@.len() == old_pix.len(),
                forall|i: int|
                    0 <= i < old_pix.len() ==> #[trigger] self.pix@[i] == if col_of(i, w) < x {
                        target[i]
                    } else {
                        old_pix[i]
                    },
            decreases x_end - x,
        {
            let mut y: usize = top_left_y;
            while y < y_end
                invariant
                    self.wf(),
                    other.wf(),
                    self.width == w,
                    self.height == h,
                    old_pix.len() == w * h,
                    target == blit(old_pix, w, left, top, other.pix@, sw, sh),
                    other.pix@.len() == sw * sh,
                    left == top_left_x,
                    top == top_left_y,
                    sw == other.width,
                    sh == other.height,
                    top_left_x <= x < x_end,
                    x_end <= w,
                    x_end <= top_left_x + other.width,
                    top_left_y <= y,
                    y_end <= h || y_end == top_left_y,
                    y_end <= top_left_y + other.height,
                    forall|j: int|
                        0 <= j < old_pix.len() && !(left <= col_of(j, w) < x_end && top <= row_of(
                            j,
                            w,
                        ) < y_end) ==> #[trigger] target[j] == old_pix[j],
                    self.pix@.len() == old_pix.len(),
                    forall|i: int|
                        0 <= i < old_pix.len() ==> #[trigger] self.pix@[i] == if col_of(i, w) < x
                            || (col_of(i, w) == x && top <= row_of(i, w) < y) {
                            target[i]
                        } else {
                            old_pix[i]
                        },
                decreases y_end - y,
            {
                let sx = x - top_left_x;
                let sy = y - top_left_y;
                assert(sx + sy * other.width < other.width * other.height) by (nonlinear_arith)
                    requires
                        sx < other.width,
                        sy < other.height,
                ;
                assert(sy * other.width <= sx + sy * other.width);
                assert(x + y * self.width < self.width * self.height) by (nonlinear_arith)
                    requires
                        x < self.width,
                        y < self.height,
                ;
                assert(y * self.width <= x + y * self.width);
                let v = other.pix[sx + sy * other.width];
                let i = x + y * self.width;
                let ghost before = self.pix@;
                self.pix.set(i, v);
                proof {
                    lemma_index_split(x as int, y as int, w as int);
                    assert(target[i as int] == v);
                    assert forall|j: int| 0 <= j < old_pix.len() implies #[trigger] self.pix@[j]
                        == if col_of(j, w) < x || (col_of(j, w) == x && top <= row_of(j, w) < y
                        + 1) {
                        target[j]
                    } else {
                        old_pix[j]
                    } by {
                        if j != i {
                            assert(self.pix@[j] == before[j]);
                            if col_of(j, w) == x && row_of(j, w) == y {
                                vstd::arithmetic::div_mod::lemma_fundamental_div_mod(j, w as int);
                                assert(j == x + y * w) by (nonlinear_arith)
                                    requires
                                        j == w * row_of(j, w) + col_of(j, w),
                                        col_of(j, w) == x,
                                        row_of(j, w) == y,
                                ;
                            }
                        }
                    }
                }
                y = y + 1;
            }
            proof {
                assert forall|j: int| 0 <= j < old_pix.len() implies #[trigger] self.pix@[j]
                    == if col_of(j, w) < x + 1 {
                    target[j]
                } else {
                    old_pix[j]
                } by {
                    if col_of(j, w) == x && !(top <= row_of(j, w) < y) {
                        assert(target[j] == old_pix[j]);
                    }
                }
            }
            x = x + 1;
        }
        proof {
            assert forall|j: int| 0 <= j < old_pix.len() implies #[trigger] self.pix@[j]
                == target[j] by {
                if col_of(j, w) >= x {
                    assert(target[j] == old_pix[j]);
                }
            }
            assert(self.pix@ =~= target);
        }
    }

    /// Three bytes per pixel, row by row: `extract` turns each accumulator into its bytes.
    pub fn to_rgb8<F: Fn(&P) -> (u8, u8, u8)>(&self, extract: F) -> (r: Vec<u8>)
        requires
            self.wf(),
            self.pixels().len() * 3 <= usize::MAX,
            forall|i: int| 0 <= i < self.pixels().len() ==> extract.requires((&self.pixels()[i],)),
        ensures
            r@.len() == 3 * self.pixels().len(),
            forall|i: int|
                0 <= i < self.pixels().len() ==> extract.ensures(
                    (&self.pixels()[i],),
                    (#[trigger] r@[3 * i], r@[3 * i + 1], r@[3 * i + 2]),
                ),
    {
        let mut v: Vec<u8> = Vec::new();
        let n = self.pix.len();
        let mut i: usize = 0;
        while i < n
            invariant
                n == self.pix@.len(),
                n * 3 <= usize::MAX,
                i <= n,
                v@.len() == 3 * i,
                forall|k: int| 0 <= k < n ==> extract.requires((&self.pix@[k],)),
                forall|k: int|
                    0 <= k < i ==> extract.ensures(
                        (&self.pix@[k],),
                        (#[trigger] v@[3 * k], v@[3 * k + 1], v@[3 * k + 2]),
                    ),
            decreases n - i,
        {
            let (r, g, b) = extract(&self.pix[i]);
            let ghost prev = v@;
            v.push(r);
            v.push(g);
            v.push(b);
            proof {
                assert forall|k: int| 0 <= k < i + 1 implies extract.ensures(
                    (&self.pix@[k],),
                    (#[trigger] v@[3 * k], v@[3 * k + 1], v@[3 * k + 2]),
                ) by {
                    if k < i {
                        assert(v@[3 * k] == prev[3 * k]);
                        assert(v@[3 * k + 1] == prev[3 * k + 1]);
                        assert(v@[3 * k + 2] == prev[3 * k + 2]);
                    }
                }
            }
            i = i + 1;
        }
        v
    }
}

} // verus!
