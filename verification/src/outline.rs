//! Glyph outlines: from the location index and the outline data to the
//! points of a glyph, components placed and merged, and from there to the
//! commands of a path.
//!
//! The packed points and the component records of one glyph are decoded by
//! `read_fonts`; what is done with them is decided here.

use vstd::prelude::*;
use skrifa::raw::tables::glyf::{Anchor, Glyph};
use skrifa::raw::{FontData, FontRead};
use crate::bytes::{be_u16, copy_range, read_u16};
use crate::codec::{signed16, to_signed16, LocationIndex};

verus! {

/// Why no outline could be had.
#[derive(Clone, Copy, Debug, PartialEq, Eq, Structural)]
pub enum ExtractError {
    /// The glyph id is not below the glyph count.
    OutOfRange,
    /// Components nest deeper than the limit allows.
    CycleOrDepthExceeded,
    /// The outline data of a glyph, or the index into it, cannot be right.
    Malformed,
}

/// A point as the outline data holds it, in font units.
#[derive(Clone, Copy, Debug, PartialEq, Eq, Structural)]
pub struct RawPoint {
    pub x: i16,
    pub y: i16,
    pub on_curve: bool,
}

/// A point of an outline, in thousandths of a font unit.
#[derive(Clone, Copy, Debug, PartialEq, Eq, Structural)]
pub struct Point {
    pub x: i64,
    pub y: i64,
    pub on_curve: bool,
}

/// Where a component is put: by an offset, or by matching two points.
#[derive(Clone, Copy, Debug, PartialEq, Eq, Structural)]
pub enum Placement {
    Offset { x: i16, y: i16 },
    Points { base: u16, component: u16 },
}

/// A reference to another glyph with its placement. The four factors are
/// fixed-point numbers with fourteen fractional bits.
#[derive(Clone, Copy, Debug, PartialEq, Eq, Structural)]
pub struct Component {
    pub glyph: u32,
    pub placement: Placement,
    pub xx: i16,
    pub yx: i16,
    pub xy: i16,
    pub yy: i16,
}

/// The points of an outline and, for each contour, the index one past its
/// last point.
pub struct Shape {
    pub points: Seq<Point>,
    pub ends: Seq<int>,
}

/// The outline of one glyph: contours of points, components already placed
/// and merged.
#[derive(Clone, Debug)]
pub struct OutlineProgram {
    pub points: Vec<Point>,
    pub ends: Vec<usize>,
}

impl View for OutlineProgram {
    type V = Shape;

    open spec fn view(&self) -> Shape {
        Shape { points: self.points@, ends: Seq::new(self.ends@.len(), |i: int| self.ends@[i] as int) }
    }
}

/// Whether the contour ends never decrease and stay within the points.
pub open spec fn shape_wf(sh: Shape) -> bool {
    &&& forall|i: int| 0 <= i < sh.ends.len() ==> 0 <= #[trigger] sh.ends[i] <= sh.points.len()
    &&& forall|i: int| 0 < i < sh.ends.len() ==> sh.ends[i - 1] <= #[trigger] sh.ends[i]
}

impl OutlineProgram {
    /// Whether the contour ends never decrease and stay within the points.
    pub open spec fn wf(&self) -> bool {
        shape_wf(self@)
    }

    /// Number of contours.
    pub fn contour_count(&self) -> (r: usize)
        ensures
            r == self@.ends.len(),
    {
        self.ends.len()
    }
}

/// Thousandths in a font unit.
pub const UNIT: i64 = 1000;

/// The greatest magnitude of a coordinate that a component may transform.
pub const REACH: i64 = 0x100_0000_0000;

/// The greatest magnitude of a shift that a placement can ask for.
pub const SHIFT_REACH: i64 = 0x1000_0000_0000;

/// The outline without points.
pub open spec fn empty_shape() -> Shape {
    Shape { points: Seq::empty(), ends: Seq::empty() }
}

/// The point `p` in thousandths.
pub open spec fn scaled(p: RawPoint) -> Point {
    Point { x: (p.x as int * 1000) as i64, y: (p.y as int * 1000) as i64, on_curve: p.on_curve }
}

/// Whether the contour end indices rise strictly and the last of them is
/// the last of `count` points.
pub open spec fn ends_ok(ends: Seq<u16>, count: int) -> bool {
    &&& forall|a: int, b: int| 0 <= a < b < ends.len() ==> #[trigger] ends[a] < #[trigger] ends[b]
    &&& if ends.len() == 0 {
        count == 0
    } else {
        ends.last() + 1 == count
    }
}

/// The outline of a simple glyph with these points and contour ends.
pub open spec fn simple_shape_of(points: Seq<RawPoint>, ends: Seq<u16>) -> Result<Shape, ExtractError> {
    if ends_ok(ends, points.len() as int) {
        Ok(
            Shape {
                points: Seq::new(points.len(), |i: int| scaled(points[i])),
                ends: Seq::new(ends.len(), |i: int| ends[i] as int + 1),
            },
        )
    } else {
        Err(ExtractError::Malformed)
    }
}

/// Whether both coordinates of `p` are within `REACH`.
pub open spec fn within(p: Point) -> bool {
    -REACH <= p.x <= REACH && -REACH <= p.y <= REACH
}

/// Whether every point of `sh` is within `REACH`.
pub open spec fn in_reach(sh: Shape) -> bool {
    forall|i: int| 0 <= i < sh.points.len() ==> within(#[trigger] sh.points[i])
}

/// The point `p` under the factors of `c`, moved by `(dx, dy)` thousandths
/// of a font unit. Products are divided by 2^14 and rounded down.
pub open spec fn moved(c: Component, dx: int, dy: int, p: Point) -> Point {
    Point {
        x: ((c.xx * p.x + c.xy * p.y) / 16384 + dx) as i64,
        y: ((c.yx * p.x + c.yy * p.y) / 16384 + dy) as i64,
        on_curve: p.on_curve,
    }
}

/// By how much the component `c` moves the shape `sh`, in thousandths: by
/// its offset, or by what brings the point `component` of `sh`, under the
/// factors of `c`, onto the point `base` of `acc`, the outline composed so
/// far. None where one of the two points does not exist or lies beyond
/// `REACH`.
pub open spec fn shift_of(c: Component, acc: Shape, sh: Shape) -> Option<(int, int)> {
    match c.placement {
        Placement::Offset { x, y } => Some((x as int * 1000, y as int * 1000)),
        Placement::Points { base, component } => if base < acc.points.len() && component < sh.points.len()
            && within(acc.points[base as int]) && within(sh.points[component as int]) {
            let t = moved(c, 0, 0, sh.points[component as int]);
            Some((acc.points[base as int].x - t.x, acc.points[base as int].y - t.y))
        } else {
            None
        },
    }
}

/// The shape `sh` as the component `c` places it beside `acc`. A placement
/// without a shift, or a coordinate beyond `REACH`, is malformed.
pub open spec fn place_of(c: Component, acc: Shape, sh: Shape) -> Result<Shape, ExtractError> {
    match shift_of(c, acc, sh) {
        None => Err(ExtractError::Malformed),
        Some(d) => if in_reach(sh) {
            Ok(Shape { points: Seq::new(sh.points.len(), |i: int| moved(c, d.0, d.1, sh.points[i])), ends: sh.ends })
        } else {
            Err(ExtractError::Malformed)
        },
    }
}

/// The contours of `a` followed by those of `b`.
pub open spec fn merged(a: Shape, b: Shape) -> Shape {
    Shape {
        points: a.points + b.points,
        ends: a.ends + Seq::new(b.ends.len(), |i: int| b.ends[i] + a.points.len()),
    }
}

/// The points that `read_fonts` decodes from the bytes of a simple glyph;
/// none where the bytes are not a simple glyph.
pub uninterp spec fn points_of(data: Seq<u8>) -> Option<Seq<RawPoint>>;

/// The index of the last point of each contour of a simple glyph: the
/// count is the signed number in the first two bytes, and that many 16-bit
/// values follow the ten bytes of the header. None where the count is
/// negative or the values do not fit the bytes.
pub open spec fn contour_ends_of(data: Seq<u8>) -> Option<Seq<u16>> {
    if data.len() < 10 {
        None
    } else {
        let n = signed16(be_u16(data, 0));
        if n < 0 || data.len() < 10 + 2 * n {
            None
        } else {
            Some(Seq::new(n as nat, |i: int| be_u16(data, 10 + 2 * i) as u16))
        }
    }
}

/// The components that `read_fonts` decodes from the bytes of a composite
/// glyph; none where the bytes are not a composite glyph.
pub uninterp spec fn components_of(data: Seq<u8>) -> Option<Seq<Component>>;

/// The view of decoded points, where there are any.
pub open spec fn points_view(r: Option<Vec<RawPoint>>) -> Option<Seq<RawPoint>> {
    match r {
        Some(v) => Some(v@),
        None => None,
    }
}

/// The view of decoded contour ends, where there are any.
pub open spec fn ends_view(r: Option<Vec<u16>>) -> Option<Seq<u16>> {
    match r {
        Some(v) => Some(v@),
        None => None,
    }
}

/// The view of decoded components, where there are any.
pub open spec fn components_view(r: Option<Vec<Component>>) -> Option<Seq<Component>> {
    match r {
        Some(v) => Some(v@),
        None => None,
    }
}

/// `Glyph::read` and `SimpleGlyph::points`: the points of a simple glyph,
/// each with its absolute coordinates and its on-curve flag. The result
/// depends on the bytes alone.
#[verifier::external_body]
fn read_points(data: &[u8]) -> (r: Option<Vec<RawPoint>>)
    ensures
        points_view(r) == points_of(data@),
{
    match Glyph::read(FontData::new(data)) {
        Ok(Glyph::Simple(g)) => Some(
            g.points().map(|p| RawPoint { x: p.x, y: p.y, on_curve: p.on_curve }).collect(),
        ),
        _ => None,
    }
}

/// Reads the contour end indices of a simple glyph.
pub fn contour_ends(data: &[u8]) -> (r: Option<Vec<u16>>)
    ensures
        ends_view(r) == contour_ends_of(data@),
{
    if data.len() < 10 {
        return None;
    }
    let count: i16 = to_signed16(read_u16(data, 0));
    if count < 0 || (data.len() - 10) / 2 < count as usize {
        return None;
    }
    let n: usize = count as usize;
    let mut ends: Vec<u16> = Vec::new();
    let mut i: usize = 0;
    while i < n
        invariant
            i <= n,
            n <= 32767,
            10 + 2 * n <= data@.len(),
            ends@.len() == i,
            forall|k: int| 0 <= k < i ==> ends@[k] as int == be_u16(data@, 10 + 2 * k),
        decreases n - i,
    {
        ends.push(read_u16(data, 10 + 2 * i));
        i += 1;
    }
    assert(ends@ =~= contour_ends_of(data@).unwrap());
    Some(ends)
}

/// `Glyph::read` and `CompositeGlyph::components`: the component records
/// of a composite glyph. The result depends on the bytes alone.
#[verifier::external_body]
fn read_components(data: &[u8]) -> (r: Option<Vec<Component>>)
    ensures
        components_view(r) == components_of(data@),
{
    let g = match Glyph::read(FontData::new(data)) {
        Ok(Glyph::Composite(g)) => g,
        _ => return None,
    };
    Some(g.components().map(|c| Component {
        glyph: c.glyph.to_u32(),
        placement: match c.anchor {
            Anchor::Offset { x, y } => Placement::Offset { x, y },
            Anchor::Point { base, component } => Placement::Points { base, component },
        },
        xx: c.transform.xx.to_bits(),
        yx: c.transform.yx.to_bits(),
        xy: c.transform.xy.to_bits(),
        yy: c.transform.yy.to_bits(),
    }).collect())
}

/// The outline of glyph `g` with `depth` levels of components allowed.
///
/// A glyph id that is not below the glyph count is out of range. Equal
/// offsets give the empty outline, wherever they point. Other offsets that
/// decrease or leave the outline data are malformed. A composite glyph with no level left exceeds the
/// depth; otherwise its components are placed and merged in order, a
/// component out of range counting as malformed.
pub open spec fn outline_of(g: int, offsets: Seq<u32>, glyf: Seq<u8>, depth: nat) -> Result<
    Shape,
    ExtractError,
>
    decreases depth, 0nat, 0nat,
{
    if g < 0 || g + 1 >= offsets.len() {
        Err(ExtractError::OutOfRange)
    } else if offsets[g] == offsets[g + 1] {
        Ok(empty_shape())
    } else if offsets[g] > offsets[g + 1] || offsets[g + 1] > glyf.len() {
        Err(ExtractError::Malformed)
    } else {
        let data = glyf.subrange(offsets[g] as int, offsets[g + 1] as int);
        match components_of(data) {
            Some(cs) => if depth == 0 {
                Err(ExtractError::CycleOrDepthExceeded)
            } else {
                compose_of(cs, cs.len(), offsets, glyf, (depth - 1) as nat)
            },
            None => match (points_of(data), contour_ends_of(data)) {
                (Some(p), Some(e)) => simple_shape_of(p, e),
                _ => Err(ExtractError::Malformed),
            },
        }
    }
}

/// The first `n` components of `cs`, placed and merged.
pub open spec fn compose_of(
    cs: Seq<Component>,
    n: nat,
    offsets: Seq<u32>,
    glyf: Seq<u8>,
    depth: nat,
) -> Result<Shape, ExtractError>
    decreases depth, 1nat, n,
{
    if n == 0 {
        Ok(empty_shape())
    } else {
        match compose_of(cs, (n - 1) as nat, offsets, glyf, depth) {
            Err(e) => Err(e),
            Ok(acc) => match outline_of(cs[n - 1].glyph as int, offsets, glyf, depth) {
                Err(ExtractError::OutOfRange) => Err(ExtractError::Malformed),
                Err(e) => Err(e),
                Ok(sh) => match place_of(cs[n - 1], acc, sh) {
                    Err(e) => Err(e),
                    Ok(placed) => Ok(merged(acc, placed)),
                },
            },
        }
    }
}

/// Whether an executable result is the outcome `o`.
pub open spec fn outcome_is(r: Result<OutlineProgram, ExtractError>, o: Result<Shape, ExtractError>) -> bool {
    match r {
        Ok(p) => o == Ok::<Shape, ExtractError>(p@) && p.wf(),
        Err(e) => o == Err::<Shape, ExtractError>(e),
    }
}

/// The outline of a simple glyph from its decoded points and contour ends.
pub fn simple_shape(points: &Vec<RawPoint>, ends: &Vec<u16>) -> (r: Result<OutlineProgram, ExtractError>)
    ensures
        outcome_is(r, simple_shape_of(points@, ends@)),
{
    let mut out_ends: Vec<usize> = Vec::new();
    let mut i: usize = 0;
    while i < ends.len()
        invariant
            i <= ends@.len(),
            out_ends@.len() == i,
            forall|k: int| 0 <= k < i ==> out_ends@[k] == ends@[k] + 1,
            forall|a: int, b: int| 0 <= a < b < i ==> #[trigger] ends@[a] < #[trigger] ends@[b],
        decreases ends@.len() - i,
    {
        if i > 0 && ends[i - 1] >= ends[i] {
            assert(!(ends@[i - 1] < ends@[i as int]));
            return Err(ExtractError::Malformed);
        }
        assert forall|a: int| 0 <= a < i implies #[trigger] ends@[a] < ends@[i as int] by {
            if a < i - 1 {
                assert(ends@[a] < ends@[i - 1]);
            }
        }
        out_ends.push(ends[i] as usize + 1);
        i += 1;
    }
    if ends.len() == 0 {
        if points.len() != 0 {
            return Err(ExtractError::Malformed);
        }
    } else if ends[ends.len() - 1] as usize + 1 != points.len() {
        return Err(ExtractError::Malformed);
    }
    let mut out_points: Vec<Point> = Vec::new();
    let mut j: usize = 0;
    while j < points.len()
        invariant
            j <= points@.len(),
            out_points@.len() == j,
            forall|k: int| 0 <= k < j ==> out_points@[k] == scaled(points@[k]),
        decreases points@.len() - j,
    {
        let p = points[j];
        out_points.push(Point { x: p.x as i64 * UNIT, y: p.y as i64 * UNIT, on_curve: p.on_curve });
        j += 1;
    }
    let r = OutlineProgram { points: out_points, ends: out_ends };
    assert(r@.points =~= simple_shape_of(points@, ends@).unwrap().points);
    assert(r@.ends =~= simple_shape_of(points@, ends@).unwrap().ends);
    Ok(r)
}

fn floor_shift(n: i64) -> (r: i64)
    requires
        -0x200_0000_0000_0000 <= n <= 0x200_0000_0000_0000,
    ensures
        r as int == n as int / 16384,
        -0x800_0000_0000 <= r <= 0x800_0000_0000,
{
    let lifted: u64 = (n + 0x200_0000_0000_0000) as u64;
    (lifted / 16384) as i64 - 0x800_0000_0000
}

fn product(f: i16, v: i64) -> (r: i64)
    requires
        -REACH <= v <= REACH,
    ensures
        r as int == f as int * v as int,
        -0x80_0000_0000_0000 <= r <= 0x80_0000_0000_0000,
{
    assert(-0x80_0000_0000_0000 <= f as int * v as int <= 0x80_0000_0000_0000) by (nonlinear_arith)
        requires
            -32768 <= f as int <= 32767,
            -0x100_0000_0000 <= v as int <= 0x100_0000_0000,
    ;
    f as i64 * v
}

fn move_point(c: &Component, dx: i64, dy: i64, p: Point) -> (r: Point)
    requires
        within(p),
        -SHIFT_REACH <= dx <= SHIFT_REACH,
        -SHIFT_REACH <= dy <= SHIFT_REACH,
    ensures
        r == moved(*c, dx as int, dy as int, p),
        -0x800_0000_0000 + dx <= r.x <= 0x800_0000_0000 + dx,
        -0x800_0000_0000 + dy <= r.y <= 0x800_0000_0000 + dy,
{
    let x: i64 = floor_shift(product(c.xx, p.x) + product(c.xy, p.y)) + dx;
    let y: i64 = floor_shift(product(c.yx, p.x) + product(c.yy, p.y)) + dy;
    Point { x, y, on_curve: p.on_curve }
}

fn point_within(p: Point) -> (r: bool)
    ensures
        r == within(p),
{
    -REACH <= p.x && p.x <= REACH && -REACH <= p.y && p.y <= REACH
}

/// By how much a component moves a shape.
fn shift(c: &Component, acc: &OutlineProgram, sh: &OutlineProgram) -> (r: Option<(i64, i64)>)
    ensures
        match r {
            Some(d) => shift_of(*c, acc@, sh@) == Some((d.0 as int, d.1 as int)) && -SHIFT_REACH <= d.0
                <= SHIFT_REACH && -SHIFT_REACH <= d.1 <= SHIFT_REACH,
            None => shift_of(*c, acc@, sh@).is_none(),
        },
{
    match c.placement {
        Placement::Offset { x, y } => {
            let dx: i64 = x as i64 * 1000;
            let dy: i64 = y as i64 * 1000;
            assert(shift_of(*c, acc@, sh@) == Some((dx as int, dy as int)));
            Some((dx, dy))
        },
        Placement::Points { base, component } => {
            if (base as usize) < acc.points.len() && (component as usize) < sh.points.len() {
                let a = acc.points[base as usize];
                let p = sh.points[component as usize];
                if point_within(a) && point_within(p) {
                    let t = move_point(c, 0, 0, p);
                    Some((a.x - t.x, a.y - t.y))
                } else {
                    None
                }
            } else {
                None
            }
        },
    }
}

/// Places the outline `sh` of a component beside `acc`, the outline
/// composed so far.
pub fn place(c: &Component, acc: &OutlineProgram, sh: OutlineProgram) -> (r: Result<OutlineProgram, ExtractError>)
    requires
        sh.wf(),
    ensures
        outcome_is(r, place_of(*c, acc@, sh@)),
{
    let d = match shift(c, acc, &sh) {
        Some(d) => d,
        None => {
            return Err(ExtractError::Malformed);
        },
    };
    let mut points: Vec<Point> = Vec::new();
    let mut i: usize = 0;
    while i < sh.points.len()
        invariant
            i <= sh.points@.len(),
            points@.len() == i,
            shift_of(*c, acc@, sh@) == Some((d.0 as int, d.1 as int)),
            -SHIFT_REACH <= d.0 <= SHIFT_REACH,
            -SHIFT_REACH <= d.1 <= SHIFT_REACH,
            forall|k: int| 0 <= k < i ==> within(#[trigger] sh.points@[k]),
            forall|k: int| 0 <= k < i ==> points@[k] == moved(*c, d.0 as int, d.1 as int, sh.points@[k]),
        decreases sh.points@.len() - i,
    {
        let p = sh.points[i];
        if !point_within(p) {
            assert(!within(sh@.points[i as int]));
            return Err(ExtractError::Malformed);
        }
        points.push(move_point(c, d.0, d.1, p));
        i += 1;
    }
    let r = OutlineProgram { points, ends: sh.ends };
    assert(r@.points =~= place_of(*c, acc@, sh@).unwrap().points);
    assert(r@.ends =~= sh@.ends);
    Ok(r)
}

/// Puts the contours of `sh` behind those of `acc`.
pub fn merge(acc: &mut OutlineProgram, sh: OutlineProgram)
    requires
        old(acc).wf(),
        sh.wf(),
    ensures
        final(acc)@ == merged(old(acc)@, sh@),
        final(acc).wf(),
{
    let base: usize = acc.points.len();
    let mut pts = sh.points;
    let ghost added = pts@;
    acc.points.append(&mut pts);
    let total: usize = acc.points.len();
    let mut i: usize = 0;
    while i < sh.ends.len()
        invariant
            i <= sh.ends@.len(),
            total == base + added.len(),
            base == old(acc).points@.len(),
            acc.points@ == old(acc).points@ + added,
            added == sh@.points,
            shape_wf(sh@),
            shape_wf(old(acc)@),
            acc.ends@.len() == old(acc).ends@.len() + i,
            forall|k: int| 0 <= k < old(acc).ends@.len() ==> acc.ends@[k] == old(acc).ends@[k],
            forall|k: int| 0 <= k < i ==> acc.ends@[old(acc).ends@.len() + k] == sh.ends@[k] + base,
        decreases sh.ends@.len() - i,
    {
        assert(sh@.ends[i as int] <= sh@.points.len());
        assert(sh@.ends[i as int] == sh.ends@[i as int]);
        acc.ends.push(sh.ends[i] + base);
        i += 1;
    }
    assert(acc@.ends =~= merged(old(acc)@, sh@).ends);
    assert forall|k: int| 0 < k < acc@.ends.len() implies acc@.ends[k - 1] <= #[trigger] acc@.ends[k] by {
        let n = old(acc).ends@.len() as int;
        if k < n {
            assert(old(acc)@.ends[k - 1] <= old(acc)@.ends[k]);
        } else if k == n {
            assert(old(acc)@.ends[k - 1] <= old(acc)@.points.len());
            assert(0 <= sh@.ends[0]);
        } else {
            assert(sh@.ends[k - n - 1] <= sh@.ends[k - n]);
        }
    }
    assert forall|k: int| 0 <= k < acc@.ends.len() implies 0 <= #[trigger] acc@.ends[k] <= acc@.points.len() by {
        let n = old(acc).ends@.len() as int;
        if k < n {
            assert(old(acc)@.ends[k] <= old(acc)@.points.len());
        } else {
            assert(sh@.ends[k - n] <= sh@.points.len());
        }
    }
}

/// Extracts the outline of glyph `glyph_id` from the outline data `glyf`,
/// following components through at most `max_depth` levels.
pub fn outline(glyph_id: u32, index: &LocationIndex, glyf: &[u8], max_depth: u32) -> (r: Result<
    OutlineProgram,
    ExtractError,
>)
    ensures
        outcome_is(r, outline_of(glyph_id as int, index.offsets@, glyf@, max_depth as nat)),
    decreases max_depth, 0nat,
{
    let g: usize = glyph_id as usize;
    if index.offsets.len() < 2 || g >= index.offsets.len() - 1 {
        return Err(ExtractError::OutOfRange);
    }
    let start: usize = index.offsets[g] as usize;
    let end: usize = index.offsets[g + 1] as usize;
    if start == end {
        let r = OutlineProgram { points: Vec::new(), ends: Vec::new() };
        assert(r@.ends =~= empty_shape().ends);
        return Ok(r);
    }
    if start > end || end > glyf.len() {
        return Err(ExtractError::Malformed);
    }
    let data = copy_range(glyf, start, end);
    match read_components(data.as_slice()) {
        Some(cs) => {
            if max_depth == 0 {
                return Err(ExtractError::CycleOrDepthExceeded);
            }
            compose(&cs, index, glyf, max_depth - 1)
        },
        None => {
            let points = read_points(data.as_slice());
            let ends = contour_ends(data.as_slice());
            match (points, ends) {
                (Some(p), Some(e)) => simple_shape(&p, &e),
                _ => Err(ExtractError::Malformed),
            }
        },
    }
}

/// Places and merges the outlines of the components `cs` in order.
pub fn compose(cs: &Vec<Component>, index: &LocationIndex, glyf: &[u8], depth: u32) -> (r: Result<
    OutlineProgram,
    ExtractError,
>)
    ensures
        outcome_is(r, compose_of(cs@, cs@.len(), index.offsets@, glyf@, depth as nat)),
    decreases depth, 1nat,
{
    let mut acc = OutlineProgram { points: Vec::new(), ends: Vec::new() };
    assert(acc@.ends =~= empty_shape().ends);
    let mut i: usize = 0;
    while i < cs.len()
        invariant
            i <= cs@.len(),
            acc.wf(),
            compose_of(cs@, i as nat, index.offsets@, glyf@, depth as nat) == Ok::<Shape, ExtractError>(acc@),
        decreases cs@.len() - i,
    {
        let c = cs[i];
        proof {
            lemma_compose_fails_on(cs@, (i + 1) as nat, cs@.len(), index.offsets@, glyf@, depth as nat);
        }
        let sh = match outline(c.glyph, index, glyf, depth) {
            Ok(sh) => sh,
            Err(ExtractError::OutOfRange) => {
                return Err(ExtractError::Malformed);
            },
            Err(e) => {
                return Err(e);
            },
        };
        let placed = match place(&c, &acc, sh) {
            Ok(p) => p,
            Err(e) => {
                return Err(e);
            },
        };
        merge(&mut acc, placed);
        i += 1;
    }
    Ok(acc)
}

/// Once the first `n` components fail, so do the first `m >= n`, with the
/// same error.
pub proof fn lemma_compose_fails_on(
    cs: Seq<Component>,
    n: nat,
    m: nat,
    offsets: Seq<u32>,
    glyf: Seq<u8>,
    depth: nat,
)
    requires
        n <= m,
    ensures
        compose_of(cs, n, offsets, glyf, depth).is_err() ==> compose_of(cs, m, offsets, glyf, depth)
            == compose_of(cs, n, offsets, glyf, depth),
    decreases m,
{
    if m > n {
        lemma_compose_fails_on(cs, n, (m - 1) as nat, offsets, glyf, depth);
    }
}

/// Placing and merging components never fails for want of range.
pub proof fn lemma_compose_in_range(cs: Seq<Component>, n: nat, offsets: Seq<u32>, glyf: Seq<u8>, depth: nat)
    ensures
        compose_of(cs, n, offsets, glyf, depth) != Err::<Shape, ExtractError>(ExtractError::OutOfRange),
    decreases n,
{
    if n > 0 {
        lemma_compose_in_range(cs, (n - 1) as nat, offsets, glyf, depth);
    }
}

/// A glyph id equal to the glyph count, or beyond it, is out of range; a
/// glyph id below the glyph count never is.
pub proof fn lemma_range(g: int, offsets: Seq<u32>, glyf: Seq<u8>, depth: nat)
    requires
        0 <= g,
    ensures
        g >= offsets.len() - 1 ==> outline_of(g, offsets, glyf, depth) == Err::<Shape, ExtractError>(
            ExtractError::OutOfRange,
        ),
        g < offsets.len() - 1 ==> outline_of(g, offsets, glyf, depth) != Err::<Shape, ExtractError>(
            ExtractError::OutOfRange,
        ),
{
    if g < offsets.len() - 1 && offsets[g] < offsets[g + 1] && offsets[g + 1] <= glyf.len() {
        let data = glyf.subrange(offsets[g] as int, offsets[g + 1] as int);
        match components_of(data) {
            Some(cs) => {
                if depth > 0 {
                    lemma_compose_in_range(cs, cs.len(), offsets, glyf, (depth - 1) as nat);
                }
            },
            None => {},
        }
    }
}

/// A composite glyph whose first component is the glyph itself exceeds the
/// depth, whatever the depth allowed.
pub proof fn lemma_self_reference(g: int, offsets: Seq<u32>, glyf: Seq<u8>, depth: nat)
    requires
        0 <= g < offsets.len() - 1,
        offsets[g] < offsets[g + 1] <= glyf.len(),
        components_of(glyf.subrange(offsets[g] as int, offsets[g + 1] as int)).is_some(),
        components_of(glyf.subrange(offsets[g] as int, offsets[g + 1] as int)).unwrap().len() > 0,
        components_of(glyf.subrange(offsets[g] as int, offsets[g + 1] as int)).unwrap()[0].glyph == g,
    ensures
        outline_of(g, offsets, glyf, depth) == Err::<Shape, ExtractError>(ExtractError::CycleOrDepthExceeded),
    decreases depth,
{
    if depth > 0 {
        let d = (depth - 1) as nat;
        let cs = components_of(glyf.subrange(offsets[g] as int, offsets[g + 1] as int)).unwrap();
        lemma_self_reference(g, offsets, glyf, d);
        assert(compose_of(cs, 0, offsets, glyf, d) == Ok::<Shape, ExtractError>(empty_shape()));
        assert(compose_of(cs, 1, offsets, glyf, d) == Err::<Shape, ExtractError>(
            ExtractError::CycleOrDepthExceeded,
        ));
        lemma_compose_fails_on(cs, 1, cs.len(), offsets, glyf, d);
    }
}

/// A glyph whose two offsets are equal has the empty outline, whatever the
/// depth allowed and wherever the offsets point.
pub proof fn lemma_empty_glyph(g: int, offsets: Seq<u32>, glyf: Seq<u8>, depth: nat)
    requires
        0 <= g < offsets.len() - 1,
        offsets[g] == offsets[g + 1],
    ensures
        outline_of(g, offsets, glyf, depth) == Ok::<Shape, ExtractError>(empty_shape()),
{
}

/// Where the outline of one component fails, so does the composite.
pub proof fn lemma_compose_needs_each(
    cs: Seq<Component>,
    n: nat,
    k: int,
    offsets: Seq<u32>,
    glyf: Seq<u8>,
    depth: nat,
)
    requires
        0 <= k < n,
        outline_of(cs[k].glyph as int, offsets, glyf, depth).is_err(),
    ensures
        compose_of(cs, n, offsets, glyf, depth).is_err(),
    decreases n,
{
    if k < n - 1 {
        lemma_compose_needs_each(cs, (n - 1) as nat, k, offsets, glyf, depth);
    }
}

/// A composite glyph that has itself among its components has no outline,
/// whatever the depth allowed.
pub proof fn lemma_cycle_fails(g: int, k: int, offsets: Seq<u32>, glyf: Seq<u8>, depth: nat)
    requires
        0 <= g < offsets.len() - 1,
        offsets[g] < offsets[g + 1] <= glyf.len(),
        components_of(glyf.subrange(offsets[g] as int, offsets[g + 1] as int)).is_some(),
        0 <= k < components_of(glyf.subrange(offsets[g] as int, offsets[g + 1] as int)).unwrap().len(),
        components_of(glyf.subrange(offsets[g] as int, offsets[g + 1] as int)).unwrap()[k].glyph == g,
    ensures
        outline_of(g, offsets, glyf, depth).is_err(),
    decreases depth,
{
    if depth > 0 {
        let d = (depth - 1) as nat;
        let cs = components_of(glyf.subrange(offsets[g] as int, offsets[g + 1] as int)).unwrap();
        lemma_cycle_fails(g, k, offsets, glyf, d);
        lemma_compose_needs_each(cs, cs.len(), k, offsets, glyf, d);
    }
}

} // verus!
