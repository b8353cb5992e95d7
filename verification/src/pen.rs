//! The pen: it records drawing commands and keeps the box around every
//! coordinate it was given, control points included.
//!
//! Coordinates are integers that count thousandths of a font unit.

use vstd::prelude::*;

verus! {

/// One drawing command.
#[derive(Clone, Copy, Debug, PartialEq, Eq, Structural)]
pub enum Command {
    MoveTo { x: i64, y: i64 },
    LineTo { x: i64, y: i64 },
    QuadTo { cx: i64, cy: i64, x: i64, y: i64 },
    CubicTo { cx0: i64, cy0: i64, cx1: i64, cy1: i64, x: i64, y: i64 },
    Close,
}

/// The least and greatest coordinates seen.
#[derive(Clone, Copy, Debug, PartialEq, Eq, Structural)]
pub struct Bounds {
    pub min_x: i64,
    pub min_y: i64,
    pub max_x: i64,
    pub max_y: i64,
}

/// The bounds `b` widened to hold the point `(x, y)`.
pub open spec fn extend(b: Option<Bounds>, x: i64, y: i64) -> Option<Bounds> {
    match b {
        None => Some(Bounds { min_x: x, min_y: y, max_x: x, max_y: y }),
        Some(b) => Some(
            Bounds {
                min_x: if x < b.min_x { x } else { b.min_x },
                min_y: if y < b.min_y { y } else { b.min_y },
                max_x: if x > b.max_x { x } else { b.max_x },
                max_y: if y > b.max_y { y } else { b.max_y },
            },
        ),
    }
}

/// The bounds `b` widened to hold every coordinate of `c`.
pub open spec fn extend_by(b: Option<Bounds>, c: Command) -> Option<Bounds> {
    match c {
        Command::MoveTo { x, y } => extend(b, x, y),
        Command::LineTo { x, y } => extend(b, x, y),
        Command::QuadTo { cx, cy, x, y } => extend(extend(b, cx, cy), x, y),
        Command::CubicTo { cx0, cy0, cx1, cy1, x, y } => extend(
            extend(extend(b, cx0, cy0), cx1, cy1),
            x,
            y,
        ),
        Command::Close => b,
    }
}

/// The bounds of all coordinates of `cmds`; none where there is no coordinate.
pub open spec fn bounds_of(cmds: Seq<Command>) -> Option<Bounds>
    decreases cmds.len(),
{
    if cmds.len() == 0 {
        None
    } else {
        extend_by(bounds_of(cmds.drop_last()), cmds.last())
    }
}

/// A finished path: its commands, its box, and the shift of the transform
/// that flips it about its own vertical middle (`y` becomes `shift - y`).
#[derive(Clone, Debug)]
pub struct RenderedPath {
    pub min_x: i64,
    pub min_y: i64,
    pub width: i128,
    pub height: i128,
    pub shift: i128,
    pub commands: Vec<Command>,
}

/// Whether `r` is the finished form of the commands `cmds`.
pub open spec fn rendered_from(r: RenderedPath, cmds: Seq<Command>) -> bool {
    &&& r.commands@ == cmds
    &&& match bounds_of(cmds) {
        None => r.min_x == 0 && r.min_y == 0 && r.width == 0 && r.height == 0 && r.shift == 0,
        Some(b) => {
            &&& r.min_x == b.min_x
            &&& r.min_y == b.min_y
            &&& r.width == b.max_x - b.min_x
            &&& r.height == b.max_y - b.min_y
            &&& r.shift == b.min_y + b.max_y
        },
    }
}

/// The bounds of a path never turn inside out.
pub proof fn lemma_bounds_ordered(cmds: Seq<Command>)
    ensures
        match bounds_of(cmds) {
            None => true,
            Some(b) => b.min_x <= b.max_x && b.min_y <= b.max_y,
        },
    decreases cmds.len(),
{
    if cmds.len() > 0 {
        lemma_bounds_ordered(cmds.drop_last());
    }
}

fn widen(b: Option<Bounds>, x: i64, y: i64) -> (r: Option<Bounds>)
    ensures
        r == extend(b, x, y),
{
    match b {
        None => Some(Bounds { min_x: x, min_y: y, max_x: x, max_y: y }),
        Some(b) => Some(
            Bounds {
                min_x: if x < b.min_x { x } else { b.min_x },
                min_y: if y < b.min_y { y } else { b.min_y },
                max_x: if x > b.max_x { x } else { b.max_x },
                max_y: if y > b.max_y { y } else { b.max_y },
            },
        ),
    }
}

/// Collects the commands of one path.
pub struct Pen {
    commands: Vec<Command>,
    bounds: Option<Bounds>,
}

impl View for Pen {
    type V = Seq<Command>;

    closed spec fn view(&self) -> Seq<Command> {
        self.commands@
    }
}

impl Pen {
    /// Whether the bounds that the pen keeps are those of its commands.
    pub closed spec fn wf(&self) -> bool {
        self.bounds == bounds_of(self.commands@)
    }

    /// A pen without commands.
    pub fn new() -> (p: Pen)
        ensures
            p.wf(),
            p@ == Seq::<Command>::empty(),
    {
        Pen { commands: Vec::new(), bounds: None }
    }

    fn record(&mut self, c: Command, b: Option<Bounds>)
        requires
            old(self).wf(),
            b == extend_by(old(self).bounds, c),
        ensures
            final(self).wf(),
            final(self)@ == old(self)@.push(c),
    {
        self.commands.push(c);
        self.bounds = b;
        assert(self.commands@.drop_last() =~= old(self).commands@);
    }

    /// Starts a contour at `(x, y)`.
    pub fn move_to(&mut self, x: i64, y: i64)
        requires
            old(self).wf(),
        ensures
            final(self).wf(),
            final(self)@ == old(self)@.push(Command::MoveTo { x, y }),
    {
        let b = widen(self.bounds, x, y);
        self.record(Command::MoveTo { x, y }, b);
    }

    /// Draws a line to `(x, y)`.
    pub fn line_to(&mut self, x: i64, y: i64)
        requires
            old(self).wf(),
        ensures
            final(self).wf(),
            final(self)@ == old(self)@.push(Command::LineTo { x, y }),
    {
        let b = widen(self.bounds, x, y);
        self.record(Command::LineTo { x, y }, b);
    }

    /// Draws a quadratic curve to `(x, y)` with the control point `(cx, cy)`.
    pub fn quad_to(&mut self, cx: i64, cy: i64, x: i64, y: i64)
        requires
            old(self).wf(),
        ensures
            final(self).wf(),
            final(self)@ == old(self)@.push(Command::QuadTo { cx, cy, x, y }),
    {
        let b = widen(widen(self.bounds, cx, cy), x, y);
        self.record(Command::QuadTo { cx, cy, x, y }, b);
    }

    /// Draws a cubic curve to `(x, y)` with two control points.
    pub fn cubic_to(&mut self, cx0: i64, cy0: i64, cx1: i64, cy1: i64, x: i64, y: i64)
        requires
            old(self).wf(),
        ensures
            final(self).wf(),
            final(self)@ == old(self)@.push(Command::CubicTo { cx0, cy0, cx1, cy1, x, y }),
    {
        let b = widen(widen(widen(self.bounds, cx0, cy0), cx1, cy1), x, y);
        self.record(Command::CubicTo { cx0, cy0, cx1, cy1, x, y }, b);
    }

    /// Closes the contour.
    pub fn close(&mut self)
        requires
            old(self).wf(),
        ensures
            final(self).wf(),
            final(self)@ == old(self)@.push(Command::Close),
    {
        let b = self.bounds;
        self.record(Command::Close, b);
    }

    /// The bounds of what was drawn so far.
    pub fn bounds(&self) -> (r: Option<Bounds>)
        requires
            self.wf(),
        ensures
            r == bounds_of(self@),
    {
        self.bounds
    }

    /// Ends the path: the commands with their box and the vertical shift. A
    /// path without coordinates has the empty box at the origin. Width and
    /// height are never negative.
    pub fn finish(self) -> (r: RenderedPath)
        requires
            self.wf(),
        ensures
            rendered_from(r, self@),
            r.width >= 0,
            r.height >= 0,
    {
        proof {
            lemma_bounds_ordered(self.commands@);
        }
        match self.bounds {
            None => RenderedPath {
                min_x: 0,
                min_y: 0,
                width: 0,
                height: 0,
                shift: 0,
                commands: self.commands,
            },
            Some(b) => RenderedPath {
                min_x: b.min_x,
                min_y: b.min_y,
                width: b.max_x as i128 - b.min_x as i128,
                height: b.max_y as i128 - b.min_y as i128,
                shift: b.min_y as i128 + b.max_y as i128,
                commands: self.commands,
            },
        }
    }
}

} // verus!
