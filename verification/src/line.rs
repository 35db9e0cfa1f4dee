//! Line rasterization: one integer digital-line algorithm for every
//! orientation.
//!
//! The segment's two endpoints are first put in a canonical order (the
//! lexicographically smaller endpoint starts), so drawing from A to B and
//! from B to A marks the same pixels. The walk then advances one unit per
//! step along the axis with the larger delta, accumulating an error term
//! proportional to the other delta; the minor axis steps by one, and the
//! error resets by the major delta, whenever twice the accumulated error
//! reaches the major delta. The tie-break is therefore fixed: on an exact
//! half-step tie the minor axis steps.

use vstd::prelude::*;

verus! {

/// Lexicographic order on coordinates: the canonical start of a segment
/// is its lexicographically smaller endpoint.
pub open spec fn lex_le(x1: int, y1: int, x2: int, y2: int) -> bool {
    x1 < x2 || (x1 == x2 && y1 <= y2)
}

/// How far the minor axis has stepped after `k` major-axis steps, for a
/// major delta `dmaj` and a minor delta `dmin`. Each major step adds
/// `dmin` to an error accumulator; the minor axis steps, and the
/// accumulator drops by `dmaj`, whenever twice the accumulated error
/// reaches `dmaj` (ties step).
pub open spec fn minor_offset(dmaj: int, dmin: int, k: nat) -> int
    decreases k,
{
    if k == 0 {
        0
    } else {
        let m = minor_offset(dmaj, dmin, (k - 1) as nat);
        if 2 * (k * dmin - m * dmaj) >= dmaj {
            m + 1
        } else {
            m
        }
    }
}

/// The pixels of the digital line walked from `(xs, ys)` to `(xe, ye)`,
/// in walk order; meant for endpoints already in canonical order
/// (`lex_le(xs, ys, xe, ye)`), so the x delta is nonnegative.
pub open spec fn line_points_from(xs: int, ys: int, xe: int, ye: int) -> Seq<(int, int)> {
    let dx = xe - xs;
    let dy = if ye >= ys {
        ye - ys
    } else {
        ys - ye
    };
    let sy: int = if ye >= ys {
        1
    } else {
        -1
    };
    if dx >= dy {
        Seq::new(
            (dx + 1) as nat,
            |k: int| (xs + k, ys + sy * minor_offset(dx, dy, k as nat)),
        )
    } else {
        Seq::new(
            (dy + 1) as nat,
            |k: int| (xs + minor_offset(dy, dx, k as nat), ys + sy * k),
        )
    }
}

/// The pixels of the digital line segment between two endpoints,
/// inclusive of both. The endpoints are unordered: the walk always
/// starts at the lexicographically smaller one.
pub open spec fn line_points(x1: int, y1: int, x2: int, y2: int) -> Seq<(int, int)> {
    if lex_le(x1, y1, x2, y2) {
        line_points_from(x1, y1, x2, y2)
    } else {
        line_points_from(x2, y2, x1, y1)
    }
}

/// The error accumulator `k * dmin - minor_offset(k) * dmaj` stays within
/// half a major delta of zero, and the minor offset never outruns the
/// step count.
pub proof fn lemma_minor_offset_bounds(dmaj: int, dmin: int, k: nat)
    requires
        0 <= dmin <= dmaj,
        1 <= dmaj,
    ensures
        0 <= minor_offset(dmaj, dmin, k) <= k,
        -dmaj <= 2 * (k * dmin - minor_offset(dmaj, dmin, k) * dmaj) < dmaj,
    decreases k,
{
    if k == 0 {
    } else {
        let kp = (k - 1) as nat;
        lemma_minor_offset_bounds(dmaj, dmin, kp);
        let m1 = minor_offset(dmaj, dmin, kp);
        assert(k * dmin - m1 * dmaj == kp * dmin - m1 * dmaj + dmin) by (nonlinear_arith)
            requires
                kp == k - 1,
        ;
        if 2 * (k * dmin - m1 * dmaj) >= dmaj {
            assert(k * dmin - (m1 + 1) * dmaj == k * dmin - m1 * dmaj - dmaj) by (nonlinear_arith);
        }
    }
}

/// The minor offset never exceeds the minor delta, and after the full
/// `dmaj` steps it reaches the minor delta exactly: the walk ends on the
/// far endpoint.
pub proof fn lemma_minor_offset_max(dmaj: int, dmin: int, k: nat)
    requires
        0 <= dmin <= dmaj,
        1 <= dmaj,
        k <= dmaj,
    ensures
        minor_offset(dmaj, dmin, k) <= dmin,
        k == dmaj ==> minor_offset(dmaj, dmin, k) == dmin,
{
    lemma_minor_offset_bounds(dmaj, dmin, k);
    let m = minor_offset(dmaj, dmin, k);
    assert(k * dmin <= dmaj * dmin) by (nonlinear_arith)
        requires
            0 <= k <= dmaj,
            0 <= dmin,
    ;
    assert(m <= dmin) by (nonlinear_arith)
        requires
            2 * (k * dmin - m * dmaj) >= -dmaj,
            k * dmin <= dmaj * dmin,
            1 <= dmaj,
    ;
    if k == dmaj {
        assert(m >= dmin) by (nonlinear_arith)
            requires
                2 * (k * dmin - m * dmaj) < dmaj,
                k == dmaj,
                1 <= dmaj,
        ;
    }
}

/// Every pixel of a canonically ordered segment stays inside the
/// bounding box of its two endpoints.
pub proof fn lemma_line_from_box(xs: int, ys: int, xe: int, ye: int)
    requires
        lex_le(xs, ys, xe, ye),
    ensures
        forall|j: int|
            0 <= j < line_points_from(xs, ys, xe, ye).len() ==> {
                let p = #[trigger] line_points_from(xs, ys, xe, ye)[j];
                &&& xs <= p.0 <= xe
                &&& (if ye >= ys { ys <= p.1 <= ye } else { ye <= p.1 <= ys })
            },
{
    let dx = xe - xs;
    let dy = if ye >= ys { ye - ys } else { ys - ye };
    let pts = line_points_from(xs, ys, xe, ye);
    assert forall|j: int| 0 <= j < pts.len() implies {
        let p = #[trigger] pts[j];
        &&& xs <= p.0 <= xe
        &&& (if ye >= ys { ys <= p.1 <= ye } else { ye <= p.1 <= ys })
    } by {
        if dx >= dy {
            if dx >= 1 {
                lemma_minor_offset_bounds(dx, dy, j as nat);
                lemma_minor_offset_max(dx, dy, j as nat);
            }
        } else {
            lemma_minor_offset_bounds(dy, dx, j as nat);
            lemma_minor_offset_max(dy, dx, j as nat);
        }
    }
}

/// Law: a digital line is symmetric in its endpoints — the segment from
/// A to B consists of exactly the same pixels, in the same walk order,
/// as the segment from B to A.
pub proof fn lemma_line_symmetric(x1: int, y1: int, x2: int, y2: int)
    ensures
        line_points(x1, y1, x2, y2) == line_points(x2, y2, x1, y1),
{
    if lex_le(x1, y1, x2, y2) && lex_le(x2, y2, x1, y1) {
        assert(x1 == x2 && y1 == y2);
    }
}

/// The endpoint facts for a canonically ordered segment: the walk
/// starts on one endpoint and ends on the other.
proof fn lemma_line_from_endpoints(xs: int, ys: int, xe: int, ye: int)
    requires
        lex_le(xs, ys, xe, ye),
    ensures
        line_points_from(xs, ys, xe, ye).len() >= 1,
        line_points_from(xs, ys, xe, ye).first() == (xs, ys),
        line_points_from(xs, ys, xe, ye).last() == (xe, ye),
{
    let dx = xe - xs;
    let dy = if ye >= ys { ye - ys } else { ys - ye };
    if dx >= dy {
        if dx >= 1 {
            lemma_minor_offset_max(dx, dy, dx as nat);
        }
    } else {
        lemma_minor_offset_max(dy, dx, dy as nat);
    }
}

/// Law: a segment is inclusive — it contains both of its endpoints.
pub proof fn lemma_line_endpoints(x1: int, y1: int, x2: int, y2: int)
    ensures
        line_points(x1, y1, x2, y2).len() >= 1,
        line_points(x1, y1, x2, y2).contains((x1, y1)),
        line_points(x1, y1, x2, y2).contains((x2, y2)),
{
    let pts = line_points(x1, y1, x2, y2);
    if lex_le(x1, y1, x2, y2) {
        lemma_line_from_endpoints(x1, y1, x2, y2);
    } else {
        lemma_line_from_endpoints(x2, y2, x1, y1);
    }
    assert(pts[0] == pts.first());
    assert(pts[pts.len() - 1] == pts.last());
}

/// With a zero minor delta the minor axis never steps.
proof fn lemma_minor_offset_zero(dmaj: int, k: nat)
    requires
        dmaj >= 1,
    ensures
        minor_offset(dmaj, 0, k) == 0,
    decreases k,
{
    if k > 0 {
        lemma_minor_offset_zero(dmaj, (k - 1) as nat);
    }
}

/// With equal deltas the minor axis steps on every major step.
proof fn lemma_minor_offset_full(d: int, k: nat)
    requires
        d >= 1,
    ensures
        minor_offset(d, d, k) == k,
    decreases k,
{
    if k > 0 {
        lemma_minor_offset_full(d, (k - 1) as nat);
        assert(k * d - (k - 1) * d == d) by (nonlinear_arith);
    }
}

/// Law: a horizontal segment paints exactly the span of columns between
/// its endpoints, inclusive, at their common row.
pub proof fn lemma_line_horizontal(x1: int, y: int, x2: int)
    ensures
        forall|p: (int, int)|
            #[trigger] line_points(x1, y, x2, y).contains(p) <==> (p.1 == y && (if x1 <= x2 {
                x1 <= p.0 <= x2
            } else {
                x2 <= p.0 <= x1
            })),
{
    if x1 <= x2 {
        lemma_line_horizontal_from(x1, y, x2);
    } else {
        lemma_line_symmetric(x1, y, x2, y);
        lemma_line_horizontal_from(x2, y, x1);
    }
}

/// The horizontal span law for a canonically ordered segment.
proof fn lemma_line_horizontal_from(xs: int, y: int, xe: int)
    requires
        xs <= xe,
    ensures
        forall|p: (int, int)|
            #[trigger] line_points(xs, y, xe, y).contains(p) <==> (p.1 == y && xs <= p.0
                <= xe),
{
    let pts = line_points(xs, y, xe, y);
    let dx = xe - xs;
    assert forall|p: (int, int)|
        #[trigger] pts.contains(p) <==> (p.1 == y && xs <= p.0 <= xe) by {
        if pts.contains(p) {
            let k = choose|k: int| 0 <= k < pts.len() && pts[k] == p;
            if dx >= 1 {
                lemma_minor_offset_zero(dx, k as nat);
            }
        }
        if p.1 == y && xs <= p.0 <= xe {
            if dx >= 1 {
                lemma_minor_offset_zero(dx, (p.0 - xs) as nat);
            }
            assert(pts[p.0 - xs] == p);
            assert(pts.contains(p));
        }
    }
}

/// Law: a vertical segment paints exactly the span of rows between its
/// endpoints, inclusive, at their common column.
pub proof fn lemma_line_vertical(x: int, y1: int, y2: int)
    ensures
        forall|p: (int, int)|
            #[trigger] line_points(x, y1, x, y2).contains(p) <==> (p.0 == x && (if y1 <= y2 {
                y1 <= p.1 <= y2
            } else {
                y2 <= p.1 <= y1
            })),
{
    if y1 <= y2 {
        lemma_line_vertical_from(x, y1, y2);
    } else {
        lemma_line_symmetric(x, y1, x, y2);
        lemma_line_vertical_from(x, y2, y1);
    }
}

/// The vertical span law for a canonically ordered segment.
proof fn lemma_line_vertical_from(x: int, ys: int, ye: int)
    requires
        ys <= ye,
    ensures
        forall|p: (int, int)|
            #[trigger] line_points(x, ys, x, ye).contains(p) <==> (p.0 == x && ys <= p.1
                <= ye),
{
    let pts = line_points(x, ys, x, ye);
    let dy = ye - ys;
    assert forall|p: (int, int)|
        #[trigger] pts.contains(p) <==> (p.0 == x && ys <= p.1 <= ye) by {
        if pts.contains(p) {
            let k = choose|k: int| 0 <= k < pts.len() && pts[k] == p;
            if dy >= 1 {
                lemma_minor_offset_zero(dy, k as nat);
            }
        }
        if p.0 == x && ys <= p.1 <= ye {
            if dy >= 1 {
                lemma_minor_offset_zero(dy, (p.1 - ys) as nat);
            }
            assert(pts[p.1 - ys] == p);
            assert(pts.contains(p));
        }
    }
}

/// Law: when the two deltas have equal magnitude the segment is the
/// perfect diagonal — one pixel per column, stepping one row per column
/// toward the far endpoint.
pub proof fn lemma_line_diagonal(xs: int, ys: int, xe: int, ye: int)
    requires
        xe - xs >= 1,
        ye == ys + (xe - xs) || ye == ys - (xe - xs),
    ensures
        forall|p: (int, int)|
            #[trigger] line_points(xs, ys, xe, ye).contains(p) <==> (xs <= p.0 <= xe && p.1
                == (if ye >= ys {
                ys + (p.0 - xs)
            } else {
                ys - (p.0 - xs)
            })),
{
    let d = xe - xs;
    let down = ye < ys;
    let pts = line_points(xs, ys, xe, ye);
    assert forall|p: (int, int)|
        #[trigger] pts.contains(p) <==> (xs <= p.0 <= xs + d && p.1 == (if down {
        ys - (p.0 - xs)
    } else {
        ys + (p.0 - xs)
    })) by {
        if pts.contains(p) {
            let k = choose|k: int| 0 <= k < pts.len() && pts[k] == p;
            lemma_minor_offset_full(d, k as nat);
        }
        if xs <= p.0 <= xs + d && p.1 == (if down {
            ys - (p.0 - xs)
        } else {
            ys + (p.0 - xs)
        }) {
            lemma_minor_offset_full(d, (p.0 - xs) as nat);
            assert(pts[p.0 - xs] == p);
            assert(pts.contains(p));
        }
    }
}

} // verus!
