//! The walk along the contours of an outline: on-curve points become
//! lines, off-curve points the control points of quadratic curves, and two
//! off-curve points in a row imply an on-curve point half-way between them.

use vstd::prelude::*;
use crate::codec::LocationIndex;
use crate::outline::{outline, outline_of, shape_wf, ExtractError, OutlineProgram, Point, Shape};
use crate::pen::{rendered_from, Command, Pen, RenderedPath};

verus! {

/// Half of the sum of two coordinates, rounded down.
pub open spec fn mid(a: i64, b: i64) -> i64 {
    ((a + b) / 2) as i64
}

/// The commands so far and the control point that waits for its end point.
pub struct Walk {
    pub cmds: Seq<Command>,
    pub pending: Option<Point>,
}

/// The curve to `(x, y)` with the control point `c`.
pub open spec fn quad(c: Point, x: i64, y: i64) -> Command {
    Command::QuadTo { cx: c.x, cy: c.y, x, y }
}

/// The walk after the point `q`.
pub open spec fn step(w: Walk, q: Point) -> Walk {
    match w.pending {
        Some(c) => if q.on_curve {
            Walk { cmds: w.cmds.push(quad(c, q.x, q.y)), pending: None }
        } else {
            Walk { cmds: w.cmds.push(quad(c, mid(c.x, q.x), mid(c.y, q.y))), pending: Some(q) }
        },
        None => if q.on_curve {
            Walk { cmds: w.cmds.push(Command::LineTo { x: q.x, y: q.y }), pending: None }
        } else {
            Walk { cmds: w.cmds, pending: Some(q) }
        },
    }
}

/// The walk `w` after the points from `a` up to `b`.
pub open spec fn walked(pts: Seq<Point>, a: int, b: int, w: Walk) -> Walk
    decreases b - a,
{
    if b <= a {
        w
    } else {
        step(walked(pts, a, b - 1, w), pts[b - 1])
    }
}

/// Where the contour from `lo` up to `hi` starts: at its first point if that
/// is on the curve, else at its last if that is, else half-way between them.
pub open spec fn start_point(pts: Seq<Point>, lo: int, hi: int) -> Point {
    if pts[lo].on_curve {
        pts[lo]
    } else if pts[hi - 1].on_curve {
        pts[hi - 1]
    } else {
        Point { x: mid(pts[hi - 1].x, pts[lo].x), y: mid(pts[hi - 1].y, pts[lo].y), on_curve: true }
    }
}

/// The commands `before` followed by those of the contour from `lo` up to
/// `hi`: a move to the start, the walk along the other points, a curve back
/// to the start where a control point is left, and the close. A contour
/// without points adds nothing.
pub open spec fn contour_commands(before: Seq<Command>, pts: Seq<Point>, lo: int, hi: int) -> Seq<Command> {
    if hi <= lo {
        before
    } else {
        let s = start_point(pts, lo, hi);
        let a = if pts[lo].on_curve { lo + 1 } else { lo };
        let b = if !pts[lo].on_curve && pts[hi - 1].on_curve { hi - 1 } else { hi };
        let w = walked(pts, a, b, Walk { cmds: before.push(Command::MoveTo { x: s.x, y: s.y }), pending: None });
        match w.pending {
            Some(c) => w.cmds.push(quad(c, s.x, s.y)).push(Command::Close),
            None => w.cmds.push(Command::Close),
        }
    }
}

/// Index of the first point of contour `k`.
pub open spec fn contour_first(sh: Shape, k: int) -> int {
    if k == 0 {
        0
    } else {
        sh.ends[k - 1]
    }
}

/// The commands `before` followed by those of the first `n` contours.
pub open spec fn drawn(before: Seq<Command>, sh: Shape, n: nat) -> Seq<Command>
    decreases n,
{
    if n == 0 {
        before
    } else {
        contour_commands(drawn(before, sh, (n - 1) as nat), sh.points, contour_first(sh, n - 1), sh.ends[n - 1])
    }
}

fn midpoint(a: i64, b: i64) -> (r: i64)
    ensures
        r == mid(a, b),
{
    let sum: i128 = a as i128 + b as i128;
    let lifted: u128 = (sum + 0x1_0000_0000_0000_0000) as u128;
    ((lifted / 2) as i128 - 0x8000_0000_0000_0000) as i64
}

/// Draws the contour that the points from `lo` up to `hi` form.
pub fn draw_contour(pts: &Vec<Point>, lo: usize, hi: usize, pen: &mut Pen)
    requires
        lo <= hi <= pts@.len(),
        old(pen).wf(),
    ensures
        final(pen).wf(),
        final(pen)@ == contour_commands(old(pen)@, pts@, lo as int, hi as int),
{
    if hi <= lo {
        return ;
    }
    let first = pts[lo];
    let last = pts[hi - 1];
    let s: Point = if first.on_curve {
        first
    } else if last.on_curve {
        last
    } else {
        Point { x: midpoint(last.x, first.x), y: midpoint(last.y, first.y), on_curve: true }
    };
    let a: usize = if first.on_curve {
        lo + 1
    } else {
        lo
    };
    let b: usize = if !first.on_curve && last.on_curve {
        hi - 1
    } else {
        hi
    };
    pen.move_to(s.x, s.y);
    let ghost w0 = Walk { cmds: pen@, pending: None };
    let mut pending: Option<Point> = None;
    let mut k: usize = a;
    while k < b
        invariant
            a <= b <= pts@.len(),
            a <= k <= b,
            pen.wf(),
            walked(pts@, a as int, k as int, w0) == (Walk { cmds: pen@, pending }),
        decreases b - k,
    {
        let q = pts[k];
        match pending {
            Some(c) => {
                if q.on_curve {
                    pen.quad_to(c.x, c.y, q.x, q.y);
                    pending = None;
                } else {
                    pen.quad_to(c.x, c.y, midpoint(c.x, q.x), midpoint(c.y, q.y));
                    pending = Some(q);
                }
            },
            None => {
                if q.on_curve {
                    pen.line_to(q.x, q.y);
                } else {
                    pending = Some(q);
                }
            },
        }
        k += 1;
    }
    match pending {
        Some(c) => {
            pen.quad_to(c.x, c.y, s.x, s.y);
        },
        None => {},
    }
    pen.close();
}

/// Draws every contour of `program` with `pen`, in order.
pub fn draw(program: &OutlineProgram, pen: &mut Pen)
    requires
        program.wf(),
        old(pen).wf(),
    ensures
        final(pen).wf(),
        final(pen)@ == drawn(old(pen)@, program@, program@.ends.len()),
{
    let mut k: usize = 0;
    let mut lo: usize = 0;
    while k < program.ends.len()
        invariant
            k <= program.ends@.len(),
            shape_wf(program@),
            pen.wf(),
            lo as int == contour_first(program@, k as int),
            lo <= program.points@.len(),
            pen@ == drawn(old(pen)@, program@, k as nat),
        decreases program.ends@.len() - k,
    {
        let hi: usize = program.ends[k];
        assert(program@.ends[k as int] == hi);
        if k > 0 {
            assert(program@.ends[k as int - 1] <= program@.ends[k as int]);
        }
        draw_contour(&program.points, lo, hi, pen);
        lo = hi;
        k += 1;
    }
}

/// An outline without contours draws nothing.
pub proof fn lemma_no_contours_no_commands(before: Seq<Command>, sh: Shape)
    requires
        sh.ends.len() == 0,
    ensures
        drawn(before, sh, sh.ends.len()) == before,
{
}

/// Extracts the outline of a glyph and draws it: the finished path holds
/// the commands of its contours and the box around them. A glyph without
/// contours gives a path without commands and the empty box at the origin.
pub fn render_glyph(glyph_id: u32, index: &LocationIndex, glyf: &[u8], max_depth: u32) -> (r: Result<
    RenderedPath,
    ExtractError,
>)
    ensures
        match outline_of(glyph_id as int, index.offsets@, glyf@, max_depth as nat) {
            Ok(sh) => r.is_ok() && rendered_from(r.unwrap(), drawn(Seq::empty(), sh, sh.ends.len())),
            Err(e) => r == Err::<RenderedPath, ExtractError>(e),
        },
{
    let program = match outline(glyph_id, index, glyf, max_depth) {
        Ok(p) => p,
        Err(e) => {
            return Err(e);
        },
    };
    let mut pen = Pen::new();
    draw(&program, &mut pen);
    Ok(pen.finish())
}

} // verus!
