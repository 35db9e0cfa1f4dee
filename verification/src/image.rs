//! The pixel buffer: a width x height grid of color values stored in
//! row-major order, with bounds-checked access by coordinate.

use vstd::prelude::*;
use vstd::pervasive::VecAdditionalExecFns;

use crate::color::{black, color_pixel, Color, Pixel};
use crate::line::{
    lemma_line_from_box, lemma_minor_offset_bounds, lemma_minor_offset_max, line_points,
    line_points_from, minor_offset,
};

verus! {

/// A coordinate pair: x indexes columns, y indexes rows, both zero-based.
pub type Point = (usize, usize);

/// The context a bounds violation carries: the offending coordinate and
/// the dimensions of the buffer it was checked against.
#[derive(Clone, Copy, PartialEq, Eq, Structural, Debug)]
pub struct OutOfBounds {
    pub x: usize,
    pub y: usize,
    pub width: usize,
    pub height: usize,
}

/// A drawing error. There is exactly one kind: a coordinate fell outside
/// the buffer.
#[derive(PartialEq, Eq, Structural, Debug)]
pub enum ImageError<E> {
    EditError(E),
}

/// The pixel buffer. `data` holds exactly `w * h` color values in
/// row-major order: the pixel at (x, y) sits at index `x + y * w`.
/// `depth` is the per-channel maximum value, kept as header metadata only.
pub struct Image {
    pub(crate) w: usize,
    pub(crate) h: usize,
    pub(crate) depth: usize,
    pub(crate) data: Vec<Pixel>,
}

/// The cell of coordinate (x, y) in a row-major grid of the given width.
pub open spec fn row_major_index(w: int, x: int, y: int) -> int {
    x + y * w
}

/// A row-major cell index stays inside the grid.
pub proof fn lemma_index_bounds(w: int, h: int, x: int, y: int)
    requires
        0 <= x < w,
        0 <= y < h,
    ensures
        0 <= row_major_index(w, x, y) < w * h,
{
    assert(0 <= x + y * w < w * h) by (nonlinear_arith)
        requires
            0 <= x < w,
            0 <= y < h,
    ;
}

/// Distinct coordinates map to distinct row-major cells (the cell map is
/// injective on the grid).
pub proof fn lemma_index_injective(w: int, x1: int, y1: int, x2: int, y2: int)
    requires
        0 <= x1 < w,
        0 <= x2 < w,
        0 <= y1,
        0 <= y2,
        x1 != x2 || y1 != y2,
    ensures
        row_major_index(w, x1, y1) != row_major_index(w, x2, y2),
{
    assert(x1 + y1 * w != x2 + y2 * w) by (nonlinear_arith)
        requires
            0 <= x1 < w,
            0 <= x2 < w,
            0 <= y1,
            0 <= y2,
            x1 != x2 || y1 != y2,
    ;
}

/// The in-bounds coordinates cover the whole backing sequence: every cell
/// index below `w * h` belongs to some coordinate of the grid.
pub proof fn lemma_coords_cover(w: int, h: int, idx: int)
    requires
        w >= 1,
        h >= 1,
        0 <= idx < w * h,
    ensures
        exists|x: int, y: int|
            0 <= x < w && 0 <= y < h && idx == row_major_index(w, x, y),
{
    let x = idx % w;
    let y = idx / w;
    assert(0 <= x < w && 0 <= y < h && idx == x + y * w) by (nonlinear_arith)
        requires
            w >= 1,
            h >= 1,
            0 <= idx < w * h,
            x == idx % w,
            y == idx / w,
    ;
    assert(0 <= x < w && 0 <= y < h && idx == row_major_index(w, x, y));
}

impl Image {
    /// The buffer's width in pixels.
    pub closed spec fn spec_width(&self) -> usize {
        self.w
    }

    /// The buffer's height in pixels.
    pub closed spec fn spec_height(&self) -> usize {
        self.h
    }

    /// The per-channel maximum value kept for the file header.
    pub closed spec fn spec_depth(&self) -> usize {
        self.depth
    }

    /// The stored color values, row-major.
    pub closed spec fn pixels(&self) -> Seq<Pixel> {
        self.data@
    }

    /// Well-formedness: positive dimensions and a backing sequence of
    /// exactly `width * height` color values.
    pub open spec fn wf(&self) -> bool {
        &&& self.width() >= 1
        &&& self.height() >= 1
        &&& self.pixels().len() == self.width() * self.height()
    }

    /// Whether (x, y) is a valid coordinate: strictly inside both
    /// dimensions (a coordinate equal to the dimension is invalid).
    pub open spec fn in_bounds(&self, x: int, y: int) -> bool {
        0 <= x < self.width() && 0 <= y < self.height()
    }

    /// The backing-sequence cell of coordinate (x, y).
    pub open spec fn pixel_index(&self, x: int, y: int) -> int {
        row_major_index(self.width() as int, x, y)
    }

    /// The color stored at coordinate (x, y).
    pub open spec fn pixel_at(&self, x: int, y: int) -> Pixel {
        self.pixels()[self.pixel_index(x, y)]
    }

    /// Two buffers of the same width, height and depth.
    pub open spec fn same_dims(&self, other: &Image) -> bool {
        &&& self.width() == other.width()
        &&& self.height() == other.height()
        &&& self.depth() == other.depth()
    }

    #[verifier::when_used_as_spec(spec_width)]
    pub fn width(&self) -> (w: usize)
        ensures
            w == self.spec_width(),
    {
        self.w
    }

    #[verifier::when_used_as_spec(spec_height)]
    pub fn height(&self) -> (h: usize)
        ensures
            h == self.spec_height(),
    {
        self.h
    }

    #[verifier::when_used_as_spec(spec_depth)]
    pub fn depth(&self) -> (d: usize)
        ensures
            d == self.spec_depth(),
    {
        self.depth
    }

    /// Assemble a buffer from already-validated parts.
    pub(crate) fn from_parts(w: usize, h: usize, depth: usize, data: Vec<Pixel>) -> (img:
        Image)
        requires
            w >= 1,
            h >= 1,
            data@.len() == w as int * h as int,
        ensures
            img.wf(),
            img.width() == w,
            img.height() == h,
            img.depth() == depth,
            img.pixels() == data@,
    {
        Image { w, h, depth, data }
    }

    /// The number of stored pixels.
    pub fn pixel_count(&self) -> (n: usize)
        ensures
            n == self.pixels().len(),
    {
        self.data.len()
    }

    /// The stored pixel at a backing-sequence index, row-major.
    pub fn pixel_at_index(&self, i: usize) -> (p: Pixel)
        requires
            i < self.pixels().len(),
        ensures
            p == self.pixels()[i as int],
    {
        self.data[i]
    }

    /// Make a buffer of the given dimensions with every pixel black.
    /// Zero-sized buffers are a caller error and are ruled out up front.
    pub fn new(w: usize, h: usize, depth: usize) -> (img: Image)
        requires
            w >= 1,
            h >= 1,
            w * h <= usize::MAX,
        ensures
            img.wf(),
            img.width() == w,
            img.height() == h,
            img.depth() == depth,
            forall|x: int, y: int|
                img.in_bounds(x, y) ==> #[trigger] img.pixel_at(x, y) == black(),
    {
        let n: usize = w * h;
        let data: Vec<Pixel> = vec![Pixel { r: 0, g: 0, b: 0 }; n];
        let img = Image { w, h, depth, data };
        proof {
            assert forall|x: int, y: int|
                img.in_bounds(x, y) implies #[trigger] img.pixel_at(x, y) == black() by {
                lemma_index_bounds(w as int, h as int, x, y);
            }
        }
        img
    }

    /// Overwrite every pixel with the given preset color.
    pub fn fill(&mut self, color: Color)
        requires
            old(self).wf(),
        ensures
            final(self).wf(),
            final(self).same_dims(old(self)),
            forall|x: int, y: int|
                final(self).in_bounds(x, y)
                    ==> #[trigger] final(self).pixel_at(x, y) == color_pixel(color),
    {
        let px = color.as_pixel();
        let n: usize = self.data.len();
        let mut i: usize = 0;
        while i < n
            invariant
                i <= n,
                n == self.data.len(),
                px == color_pixel(color),
                self.w == old(self).w,
                self.h == old(self).h,
                self.depth == old(self).depth,
                forall|j: int| 0 <= j < i ==> self.data@[j] == color_pixel(color),
            decreases n - i,
        {
            self.data.set(i, px);
            i = i + 1;
        }
        proof {
            assert forall|x: int, y: int|
                self.in_bounds(x, y) implies #[trigger] self.pixel_at(x, y) == color_pixel(
                color,
            ) by {
                lemma_index_bounds(self.w as int, self.h as int, x, y);
            }
        }
    }

    /// Read the pixel at (x, y); out-of-bounds coordinates fail and
    /// carry the coordinate and the buffer's dimensions.
    pub fn get(&self, x: usize, y: usize) -> (r: Result<Pixel, ImageError<OutOfBounds>>)
        requires
            self.wf(),
        ensures
            match r {
                Ok(p) => self.in_bounds(x as int, y as int) && p == self.pixel_at(
                    x as int,
                    y as int,
                ),
                Err(ImageError::EditError(e)) => {
                    &&& !self.in_bounds(x as int, y as int)
                    &&& e.x == x
                    &&& e.y == y
                    &&& e.width == self.width()
                    &&& e.height == self.height()
                },
            },
    {
        if x >= self.w || y >= self.h {
            return Err(ImageError::EditError(OutOfBounds {
                x,
                y,
                width: self.w,
                height: self.h,
            }));
        }
        // Reading the length brings the fact that it fits a usize into
        // scope, which bounds the cell index below.
        let _n: usize = self.data.len();
        proof {
            lemma_index_bounds(self.w as int, self.h as int, x as int, y as int);
        }
        Ok(self.data[x + y * self.w])
    }

    /// Write one pixel at the given coordinate. On success exactly that
    /// cell changes; an out-of-bounds coordinate fails and leaves the
    /// buffer untouched.
    pub fn draw_dot(&mut self, point: Point, pixel: Pixel) -> (r: Result<
        (),
        ImageError<OutOfBounds>,
    >)
        requires
            old(self).wf(),
        ensures
            final(self).wf(),
            final(self).same_dims(old(self)),
            match r {
                Ok(()) => {
                    &&& old(self).in_bounds(point.0 as int, point.1 as int)
                    &&& final(self).pixels() == old(self).pixels().update(
                        old(self).pixel_index(point.0 as int, point.1 as int),
                        pixel,
                    )
                    &&& final(self).pixel_at(point.0 as int, point.1 as int) == pixel
                    &&& forall|x: int, y: int|
                        old(self).in_bounds(x, y) && (x != point.0 || y != point.1)
                            ==> #[trigger] final(self).pixel_at(x, y) == old(self).pixel_at(x, y)
                },
                Err(ImageError::EditError(e)) => {
                    &&& !old(self).in_bounds(point.0 as int, point.1 as int)
                    &&& *final(self) == *old(self)
                    &&& e.x == point.0
                    &&& e.y == point.1
                    &&& e.width == old(self).width()
                    &&& e.height == old(self).height()
                },
            },
    {
        let (x, y) = point;
        if x >= self.w || y >= self.h {
            return Err(ImageError::EditError(OutOfBounds {
                x,
                y,
                width: self.w,
                height: self.h,
            }));
        }
        // Reading the length brings the fact that it fits a usize into
        // scope, which bounds the cell index below.
        let _n: usize = self.data.len();
        proof {
            lemma_index_bounds(self.w as int, self.h as int, x as int, y as int);
        }
        let idx: usize = x + y * self.w;
        self.data.set(idx, pixel);
        proof {
            assert forall|i: int, j: int|
                old(self).in_bounds(i, j) && (i != x || j != y)
                    implies #[trigger] self.pixel_at(i, j) == old(self).pixel_at(i, j) by {
                lemma_index_bounds(self.w as int, self.h as int, i, j);
                lemma_index_injective(self.w as int, i, j, x as int, y as int);
            }
        }
        Ok(())
    }

    /// Write one pixel in a preset color; delegates to `draw_dot`.
    pub fn draw_dot_color(&mut self, point: Point, color: Color) -> (r: Result<
        (),
        ImageError<OutOfBounds>,
    >)
        requires
            old(self).wf(),
        ensures
            final(self).wf(),
            final(self).same_dims(old(self)),
            match r {
                Ok(()) => {
                    &&& old(self).in_bounds(point.0 as int, point.1 as int)
                    &&& final(self).pixels() == old(self).pixels().update(
                        old(self).pixel_index(point.0 as int, point.1 as int),
                        color_pixel(color),
                    )
                    &&& final(self).pixel_at(point.0 as int, point.1 as int) == color_pixel(color)
                    &&& forall|x: int, y: int|
                        old(self).in_bounds(x, y) && (x != point.0 || y != point.1)
                            ==> #[trigger] final(self).pixel_at(x, y) == old(self).pixel_at(x, y)
                },
                Err(ImageError::EditError(e)) => {
                    &&& !old(self).in_bounds(point.0 as int, point.1 as int)
                    &&& *final(self) == *old(self)
                    &&& e.x == point.0
                    &&& e.y == point.1
                    &&& e.width == old(self).width()
                    &&& e.height == old(self).height()
                },
            },
    {
        let px = color.as_pixel();
        self.draw_dot(point, px)
    }
}

/// The backing sequence after the first `k` pixels of a walk have been
/// painted with `p`, in a row-major grid of width `w`.
pub open spec fn painted(
    s: Seq<Pixel>,
    w: int,
    pts: Seq<(int, int)>,
    k: nat,
    p: Pixel,
) -> Seq<Pixel>
    decreases k,
{
    if k == 0 {
        s
    } else {
        painted(s, w, pts, (k - 1) as nat, p).update(
            row_major_index(w, pts[k - 1].0, pts[k - 1].1),
            p,
        )
    }
}

/// What `painted` holds at each grid cell: the paint color on the pixels
/// walked so far, the original value everywhere else.
pub proof fn lemma_painted_at(
    s: Seq<Pixel>,
    w: int,
    h: int,
    pts: Seq<(int, int)>,
    k: nat,
    p: Pixel,
)
    requires
        w >= 1,
        h >= 1,
        s.len() == w * h,
        forall|j: int|
            0 <= j < pts.len() ==> 0 <= (#[trigger] pts[j]).0 < w && 0 <= pts[j].1 < h,
        k <= pts.len(),
    ensures
        painted(s, w, pts, k, p).len() == s.len(),
        forall|x: int, y: int|
            0 <= x < w && 0 <= y < h ==> #[trigger] painted(s, w, pts, k, p)[row_major_index(
                w,
                x,
                y,
            )] == (if exists|j: int| 0 <= j < k && pts[j] == (x, y) {
                p
            } else {
                s[row_major_index(w, x, y)]
            }),
    decreases k,
{
    if k == 0 {
    } else {
        let kp = (k - 1) as nat;
        lemma_painted_at(s, w, h, pts, kp, p);
        let prev = painted(s, w, pts, kp, p);
        let cur = painted(s, w, pts, k, p);
        let qx = pts[k - 1].0;
        let qy = pts[k - 1].1;
        lemma_index_bounds(w, h, qx, qy);
        assert forall|x: int, y: int|
            0 <= x < w && 0 <= y < h implies #[trigger] cur[row_major_index(w, x, y)] == (
        if exists|j: int| 0 <= j < k && pts[j] == (x, y) {
            p
        } else {
            s[row_major_index(w, x, y)]
        }) by {
            lemma_index_bounds(w, h, x, y);
            if x == qx && y == qy {
                assert(pts[k - 1] == (x, y));
                assert(exists|j: int| 0 <= j < k && pts[j] == (x, y));
            } else {
                lemma_index_injective(w, x, y, qx, qy);
                assert(cur[row_major_index(w, x, y)] == prev[row_major_index(w, x, y)]);
                if exists|j: int| 0 <= j < k && pts[j] == (x, y) {
                    let j = choose|j: int| 0 <= j < k && pts[j] == (x, y);
                    assert(0 <= j < kp && pts[j] == (x, y));
                    assert(exists|j2: int| 0 <= j2 < kp && pts[j2] == (x, y));
                }
                if exists|j: int| 0 <= j < kp && pts[j] == (x, y) {
                    let j = choose|j: int| 0 <= j < kp && pts[j] == (x, y);
                    assert(exists|j2: int| 0 <= j2 < k && pts[j2] == (x, y));
                }
            }
        }
    }
}

impl Image {
    /// Fill every pixel on the discrete segment between the two
    /// endpoints, inclusive of both, with the given pixel value. Both
    /// endpoints are validated first: if either is out of bounds the
    /// call fails, nothing is written, and the error carries the first
    /// offending endpoint.
    #[verifier::rlimit(100)]
    pub fn draw_line(&mut self, from: Point, to: Point, pixel: Pixel) -> (r: Result<
        (),
        ImageError<OutOfBounds>,
    >)
        requires
            old(self).wf(),
        ensures
            final(self).wf(),
            final(self).same_dims(old(self)),
            match r {
                Ok(()) => {
                    &&& old(self).in_bounds(from.0 as int, from.1 as int)
                    &&& old(self).in_bounds(to.0 as int, to.1 as int)
                    &&& forall|x: int, y: int|
                        old(self).in_bounds(x, y) ==> #[trigger] final(self).pixel_at(x, y) == (
                        if line_points(from.0 as int, from.1 as int, to.0 as int, to.1 as int)
                            .contains((x, y)) {
                            pixel
                        } else {
                            old(self).pixel_at(x, y)
                        })
                },
                Err(ImageError::EditError(e)) => {
                    &&& !(old(self).in_bounds(from.0 as int, from.1 as int) && old(self).in_bounds(
                        to.0 as int,
                        to.1 as int,
                    ))
                    &&& *final(self) == *old(self)
                    &&& e.width == old(self).width()
                    &&& e.height == old(self).height()
                    &&& if !old(self).in_bounds(from.0 as int, from.1 as int) {
                        e.x == from.0 && e.y == from.1
                    } else {
                        e.x == to.0 && e.y == to.1
                    }
                },
            },
    {
        let (fx, fy) = from;
        let (tx, ty) = to;
        if fx >= self.w || fy >= self.h {
            return Err(ImageError::EditError(OutOfBounds {
                x: fx,
                y: fy,
                width: self.w,
                height: self.h,
            }));
        }
        if tx >= self.w || ty >= self.h {
            return Err(ImageError::EditError(OutOfBounds {
                x: tx,
                y: ty,
                width: self.w,
                height: self.h,
            }));
        }
        // Canonical order: walk from the lexicographically smaller endpoint.
        let (xs, ys, xe, ye) = if fx < tx || (fx == tx && fy <= ty) {
            (fx, fy, tx, ty)
        } else {
            (tx, ty, fx, fy)
        };
        let ghost pts = line_points(fx as int, fy as int, tx as int, ty as int);
        proof {
            assert(pts == line_points_from(xs as int, ys as int, xe as int, ye as int));
        }
        let dx: usize = xe - xs;
        let dy: usize = if ye >= ys {
            ye - ys
        } else {
            ys - ye
        };
        let down = ye < ys;
        let steep = dy > dx;
        let (dmaj, dmin) = if steep {
            (dy, dx)
        } else {
            (dx, dy)
        };
        let n: usize = self.data.len();
        let w: usize = self.w;
        proof {
            assert(pts.len() == dmaj + 1);
            lemma_line_from_box(xs as int, ys as int, xe as int, ye as int);
            assert forall|j: int|
                0 <= j < pts.len() implies 0 <= (#[trigger] pts[j]).0 < w as int
                && 0 <= pts[j].1 < self.h as int by {}
        }
        let mut k: usize = 0;
        let mut m: usize = 0;
        let mut acc: i128 = 0;
        while k <= dmaj
            invariant
                old(self).wf(),
                self.w == old(self).w,
                self.h == old(self).h,
                self.depth == old(self).depth,
                self.data.len() == old(self).data.len(),
                w == self.w,
                n == self.data.len(),
                xs < w,
                xe < w,
                ys < self.h,
                ye < self.h,
                xs <= xe,
                xs == xe ==> ys <= ye,
                dx == xe - xs,
                dy == (if ye >= ys { ye - ys } else { ys - ye }),
                down == (ye < ys),
                steep == (dy > dx),
                dmaj == (if steep { dy } else { dx }),
                dmin == (if steep { dx } else { dy }),
                pts == line_points_from(xs as int, ys as int, xe as int, ye as int),
                pts.len() == dmaj + 1,
                forall|j: int|
                    0 <= j < pts.len() ==> 0 <= (#[trigger] pts[j]).0 < w as int
                        && 0 <= pts[j].1 < self.h as int,
                k <= dmaj + 1,
                k <= dmaj ==> m == minor_offset(dmaj as int, dmin as int, k as nat),
                k <= dmaj ==> acc as int == k as int * dmin as int - m as int * dmaj as int,
                dmaj >= 1 && k <= dmaj ==> -(dmaj as int) <= 2 * (acc as int) < dmaj as int,
                self.data@ == painted(old(self).data@, w as int, pts, k as nat, pixel),
            decreases dmaj + 1 - k,
        {
            proof {
                if dmaj >= 1 {
                    lemma_minor_offset_max(dmaj as int, dmin as int, k as nat);
                }
            }
            let px: usize = if steep {
                xs + m
            } else {
                xs + k
            };
            let py: usize = if steep {
                if down {
                    ys - k
                } else {
                    ys + k
                }
            } else {
                if down {
                    ys - m
                } else {
                    ys + m
                }
            };
            proof {
                assert(pts[k as int] == (px as int, py as int));
                assert(self.in_bounds(px as int, py as int));
                lemma_index_bounds(w as int, self.h as int, px as int, py as int);
            }
            let idx: usize = px + py * w;
            self.data.set(idx, pixel);
            proof {
                assert(self.data@ == painted(
                    old(self).data@,
                    w as int,
                    pts,
                    (k + 1) as nat,
                    pixel,
                ));
            }
            k = k + 1;
            if k <= dmaj {
                acc = acc + dmin as i128;
                if 2 * acc >= dmaj as i128 {
                    m = m + 1;
                    acc = acc - dmaj as i128;
                }
                proof {
                    let ki = k as int;
                    let mi = minor_offset(dmaj as int, dmin as int, (k - 1) as nat);
                    assert(ki * dmin as int == (ki - 1) * dmin as int + dmin as int)
                        by (nonlinear_arith);
                    assert((mi + 1) * dmaj as int == mi * dmaj as int + dmaj as int)
                        by (nonlinear_arith);
                    lemma_minor_offset_bounds(dmaj as int, dmin as int, k as nat);
                }
            }
        }
        proof {
            assert(k == pts.len());
            lemma_painted_at(
                old(self).data@,
                w as int,
                self.h as int,
                pts,
                pts.len(),
                pixel,
            );
            assert forall|x: int, y: int|
                old(self).in_bounds(x, y) implies #[trigger] self.pixel_at(x, y) == (
            if pts.contains((x, y)) {
                pixel
            } else {
                old(self).pixel_at(x, y)
            }) by {
                if pts.contains((x, y)) {
                    let j = choose|j: int| 0 <= j < pts.len() && pts[j] == (x, y);
                    assert(exists|j2: int| 0 <= j2 < pts.len() && pts[j2] == (x, y));
                } else {
                    assert(!(exists|j: int| 0 <= j < pts.len() && pts[j] == (x, y)));
                }
            }
        }
        Ok(())
    }

    /// Fill every pixel on the segment with a preset color; delegates to
    /// `draw_line`.
    pub fn draw_line_color(&mut self, from: Point, to: Point, color: Color) -> (r: Result<
        (),
        ImageError<OutOfBounds>,
    >)
        requires
            old(self).wf(),
        ensures
            final(self).wf(),
            final(self).same_dims(old(self)),
            match r {
                Ok(()) => {
                    &&& old(self).in_bounds(from.0 as int, from.1 as int)
                    &&& old(self).in_bounds(to.0 as int, to.1 as int)
                    &&& forall|x: int, y: int|
                        old(self).in_bounds(x, y) ==> #[trigger] final(self).pixel_at(x, y) == (
                        if line_points(from.0 as int, from.1 as int, to.0 as int, to.1 as int)
                            .contains((x, y)) {
                            color_pixel(color)
                        } else {
                            old(self).pixel_at(x, y)
                        })
                },
                Err(ImageError::EditError(e)) => {
                    &&& !(old(self).in_bounds(from.0 as int, from.1 as int) && old(self).in_bounds(
                        to.0 as int,
                        to.1 as int,
                    ))
                    &&& *final(self) == *old(self)
                    &&& e.width == old(self).width()
                    &&& e.height == old(self).height()
                    &&& if !old(self).in_bounds(from.0 as int, from.1 as int) {
                        e.x == from.0 && e.y == from.1
                    } else {
                        e.x == to.0 && e.y == to.1
                    }
                },
            },
    {
        let px = color.as_pixel();
        self.draw_line(from, to, px)
    }
}

/// Law: writing a pixel and then reading the same coordinate yields the
/// written color, and no other coordinate reads differently. `after`
/// stands in the relation to `before` that a successful `draw_dot`
/// guarantees.
pub proof fn lemma_set_then_get(before: Image, after: Image, x: int, y: int, p: Pixel)
    requires
        before.wf(),
        before.in_bounds(x, y),
        after.width() == before.width(),
        after.height() == before.height(),
        after.pixels() == before.pixels().update(before.pixel_index(x, y), p),
    ensures
        after.pixel_at(x, y) == p,
        forall|i: int, j: int|
            before.in_bounds(i, j) && (i != x || j != y)
                ==> #[trigger] after.pixel_at(i, j) == before.pixel_at(i, j),
{
    lemma_index_bounds(before.width() as int, before.height() as int, x, y);
    assert forall|i: int, j: int|
        before.in_bounds(i, j) && (i != x || j != y)
            implies #[trigger] after.pixel_at(i, j) == before.pixel_at(i, j) by {
        lemma_index_bounds(before.width() as int, before.height() as int, i, j);
        lemma_index_injective(before.width() as int, i, j, x, y);
    }
}

} // verus!
