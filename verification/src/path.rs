//! Bezier paths: the segments that every shape is drawn with.
use vstd::prelude::*;
use crate::geometry::{BoundingBox, Point2D};

verus! {

/// One step of a vector path.
#[derive(Clone, Copy, Debug, PartialEq, Eq, Structural)]
pub enum PathSegment {
    /// Start a new sub-path at a point.
    MoveTo(Point2D),
    /// Straight line to a point.
    LineTo(Point2D),
    /// Quadratic Bezier curve with one control point.
    QuadTo { ctrl: Point2D, to: Point2D },
    /// Cubic Bezier curve with two control points.
    CubicTo { ctrl1: Point2D, ctrl2: Point2D, to: Point2D },
    /// Close the current sub-path.
    Close,
}

/// A vector path made of segments.
#[derive(Clone, Debug)]
pub struct BezierPath {
    pub segments: Vec<PathSegment>,
    pub closed: bool,
}

/// The points a segment names, in the order it names them.
pub open spec fn segment_points(seg: PathSegment) -> Seq<Point2D> {
    match seg {
        PathSegment::MoveTo(p) => seq![p],
        PathSegment::LineTo(p) => seq![p],
        PathSegment::QuadTo { ctrl, to } => seq![ctrl, to],
        PathSegment::CubicTo { ctrl1, ctrl2, to } => seq![ctrl1, ctrl2, to],
        PathSegment::Close => seq![],
    }
}

/// All points named by a sequence of segments, in order.
pub open spec fn path_points(segs: Seq<PathSegment>) -> Seq<Point2D>
    decreases segs.len(),
{
    if segs.len() == 0 {
        seq![]
    } else {
        path_points(segs.drop_last()) + segment_points(segs.last())
    }
}

pub open spec fn min_i64(a: i64, b: i64) -> i64 {
    if a <= b { a } else { b }
}

pub open spec fn max_i64(a: i64, b: i64) -> i64 {
    if a >= b { a } else { b }
}

/// The box `b` grown so that it also covers `p` (`None` is the empty box).
pub open spec fn extend_box(b: Option<BoundingBox>, p: Point2D) -> BoundingBox {
    match b {
        None => BoundingBox { min: p, max: p },
        Some(bb) => BoundingBox {
            min: Point2D { x: min_i64(bb.min.x, p.x), y: min_i64(bb.min.y, p.y) },
            max: Point2D { x: max_i64(bb.max.x, p.x), y: max_i64(bb.max.y, p.y) },
        },
    }
}

/// The smallest box that covers every point of `pts`; `None` when there are none.
pub open spec fn points_box(pts: Seq<Point2D>) -> Option<BoundingBox>
    decreases pts.len(),
{
    if pts.len() == 0 {
        None
    } else {
        Some(extend_box(points_box(pts.drop_last()), pts.last()))
    }
}

/// Whether `b` covers `p`.
pub open spec fn box_covers(b: BoundingBox, p: Point2D) -> bool {
    b.min.x <= p.x <= b.max.x && b.min.y <= p.y <= b.max.y
}

fn grow_box(b: Option<BoundingBox>, p: Point2D) -> (r: BoundingBox)
    ensures
        r == extend_box(b, p),
{
    match b {
        None => BoundingBox { min: p, max: p },
        Some(bb) => {
            let min_x = if bb.min.x <= p.x { bb.min.x } else { p.x };
            let min_y = if bb.min.y <= p.y { bb.min.y } else { p.y };
            let max_x = if bb.max.x >= p.x { bb.max.x } else { p.x };
            let max_y = if bb.max.y >= p.y { bb.max.y } else { p.y };
            BoundingBox {
                min: Point2D { x: min_x, y: min_y },
                max: Point2D { x: max_x, y: max_y },
            }
        },
    }
}

fn points_of(seg: &PathSegment) -> (v: Vec<Point2D>)
    ensures
        v@ == segment_points(*seg),
{
    match seg {
        PathSegment::MoveTo(p) => vec![*p],
        PathSegment::LineTo(p) => vec![*p],
        PathSegment::QuadTo { ctrl, to } => vec![*ctrl, *to],
        PathSegment::CubicTo { ctrl1, ctrl2, to } => vec![*ctrl1, *ctrl2, *to],
        PathSegment::Close => Vec::new(),
    }
}

/// The segments of the rectangle with corner `(x, y)`, width `w` and height `h`.
pub open spec fn rectangle_segments(x: int, y: int, w: int, h: int) -> Seq<PathSegment> {
    seq![
        PathSegment::MoveTo(Point2D { x: x as i64, y: y as i64 }),
        PathSegment::LineTo(Point2D { x: (x + w) as i64, y: y as i64 }),
        PathSegment::LineTo(Point2D { x: (x + w) as i64, y: (y + h) as i64 }),
        PathSegment::LineTo(Point2D { x: x as i64, y: (y + h) as i64 }),
        PathSegment::LineTo(Point2D { x: x as i64, y: y as i64 }),
        PathSegment::Close,
    ]
}

impl BezierPath {
    pub fn new() -> (p: Self)
        ensures
            p.segments@ == Seq::<PathSegment>::empty(),
            !p.closed,
    {
        BezierPath { segments: Vec::new(), closed: false }
    }

    pub fn move_to(&mut self, p: Point2D)
        ensures
            final(self).segments@ == old(self).segments@.push(PathSegment::MoveTo(p)),
            final(self).closed == old(self).closed,
    {
        self.segments.push(PathSegment::MoveTo(p));
    }

    pub fn line_to(&mut self, p: Point2D)
        ensures
            final(self).segments@ == old(self).segments@.push(PathSegment::LineTo(p)),
            final(self).closed == old(self).closed,
    {
        self.segments.push(PathSegment::LineTo(p));
    }

    pub fn quad_to(&mut self, ctrl: Point2D, to: Point2D)
        ensures
            final(self).segments@ == old(self).segments@.push(PathSegment::QuadTo { ctrl, to }),
            final(self).closed == old(self).closed,
    {
        self.segments.push(PathSegment::QuadTo { ctrl, to });
    }

    pub fn cubic_to(&mut self, ctrl1: Point2D, ctrl2: Point2D, to: Point2D)
        ensures
            final(self).segments@ == old(self).segments@.push(
                PathSegment::CubicTo { ctrl1, ctrl2, to },
            ),
            final(self).closed == old(self).closed,
    {
        self.segments.push(PathSegment::CubicTo { ctrl1, ctrl2, to });
    }

    pub fn close(&mut self)
        ensures
            final(self).segments@ == old(self).segments@.push(PathSegment::Close),
            final(self).closed,
    {
        self.segments.push(PathSegment::Close);
        self.closed = true;
    }

    /// An axis-aligned rectangle with corner `(x, y)`, width `w` and height `h`,
    /// traced through its four corners and back to the start, then closed.
    pub fn rectangle(x: i64, y: i64, w: i64, h: i64) -> (p: Self)
        requires
            i64::MIN <= x + w <= i64::MAX,
            i64::MIN <= y + h <= i64::MAX,
        ensures
            p.segments@ == rectangle_segments(x as int, y as int, w as int, h as int),
            p.closed,
    {
        let mut path = Self::new();
        path.move_to(Point2D::new(x, y));
        path.line_to(Point2D::new(x + w, y));
        path.line_to(Point2D::new(x + w, y + h));
        path.line_to(Point2D::new(x, y + h));
        path.line_to(Point2D::new(x, y));
        path.close();
        path
    }

    /// The smallest box that covers every point the segments name, or `None`
    /// when they name none.
    pub fn bounding_box(&self) -> (r: Option<BoundingBox>)
        ensures
            r == points_box(path_points(self.segments@)),
            r is None <==> forall|i: int|
                0 <= i < self.segments@.len() ==> (#[trigger] segment_points(self.segments@[i])).len()
                    == 0,
            r matches Some(b) ==> forall|i: int, j: int|
                0 <= i < self.segments@.len() && 0 <= j < segment_points(self.segments@[i]).len()
                    ==> box_covers(b, #[trigger] segment_points(self.segments@[i])[j]),
    {
        proof {
            lemma_bounding_box_of_segments(self.segments@);
        }
        let mut acc: Option<BoundingBox> = None;
        let n = self.segments.len();
        let mut i: usize = 0;
        while i < n
            invariant
                n == self.segments@.len(),
                0 <= i <= n,
                acc == points_box(path_points(self.segments@.take(i as int))),
            decreases n - i,
        {
            let ghost before = path_points(self.segments@.take(i as int));
            let pts = points_of(&self.segments[i]);
            let mut k: usize = 0;
            while k < pts.len()
                invariant
                    0 <= k <= pts@.len(),
                    acc == points_box(before + pts@.take(k as int)),
                decreases pts@.len() - k,
            {
                let p = pts[k];
                proof {
                    assert((before + pts@.take(k + 1)).drop_last() =~= before + pts@.take(k as int));
                }
                acc = Some(grow_box(acc, p));
                k = k + 1;
            }
            proof {
                assert(self.segments@.take(i + 1).drop_last() =~= self.segments@.take(i as int));
                assert(pts@.take(pts@.len() as int) =~= pts@);
            }
            i = i + 1;
        }
        proof {
            assert(self.segments@.take(n as int) =~= self.segments@);
        }
        acc
    }
}

impl Default for BezierPath {
    fn default() -> (p: Self)
        ensures
            p.segments@ == Seq::<PathSegment>::empty(),
            !p.closed,
    {
        Self::new()
    }
}

/// The box of a point sequence covers every point of it and touches it on
/// all four sides; it is absent exactly when there are no points.
pub proof fn lemma_points_box_tight(pts: Seq<Point2D>)
    ensures
        points_box(pts) is None <==> pts.len() == 0,
        points_box(pts) matches Some(b) ==> {
            &&& forall|i: int| 0 <= i < pts.len() ==> box_covers(b, #[trigger] pts[i])
            &&& exists|i: int| 0 <= i < pts.len() && #[trigger] pts[i].x == b.min.x
            &&& exists|i: int| 0 <= i < pts.len() && #[trigger] pts[i].y == b.min.y
            &&& exists|i: int| 0 <= i < pts.len() && #[trigger] pts[i].x == b.max.x
            &&& exists|i: int| 0 <= i < pts.len() && #[trigger] pts[i].y == b.max.y
        },
    decreases pts.len(),
{
    if pts.len() > 0 {
        let init = pts.drop_last();
        lemma_points_box_tight(init);
        let last = pts.len() - 1;
        assert(pts[last] == pts.last());
        assert forall|i: int| 0 <= i < init.len() implies #[trigger] pts[i] == init[i] by {}
        match points_box(init) {
            None => {
                assert(pts.len() == 1);
            },
            Some(b0) => {
                let b = points_box(pts).unwrap();
                assert forall|i: int| 0 <= i < pts.len() implies box_covers(b, #[trigger] pts[i]) by {
                    if i < last {
                        assert(box_covers(b0, init[i]));
                    }
                }
                if b.min.x == b0.min.x {
                    let j = choose|j: int| 0 <= j < init.len() && #[trigger] init[j].x == b0.min.x;
                    assert(pts[j] == init[j]);
                } else {
                    assert(pts[last].x == b.min.x);
                }
                if b.min.y == b0.min.y {
                    let j = choose|j: int| 0 <= j < init.len() && #[trigger] init[j].y == b0.min.y;
                    assert(pts[j] == init[j]);
                } else {
                    assert(pts[last].y == b.min.y);
                }
                if b.max.x == b0.max.x {
                    let j = choose|j: int| 0 <= j < init.len() && #[trigger] init[j].x == b0.max.x;
                    assert(pts[j] == init[j]);
                } else {
                    assert(pts[last].x == b.max.x);
                }
                if b.max.y == b0.max.y {
                    let j = choose|j: int| 0 <= j < init.len() && #[trigger] init[j].y == b0.max.y;
                    assert(pts[j] == init[j]);
                } else {
                    assert(pts[last].y == b.max.y);
                }
            },
        }
    }
}

proof fn lemma_path_points_members(segs: Seq<PathSegment>)
    ensures
        forall|i: int, j: int|
            0 <= i < segs.len() && 0 <= j < segment_points(segs[i]).len() ==> path_points(
                segs,
            ).contains(#[trigger] segment_points(segs[i])[j]),
        forall|q: Point2D|
            #[trigger] path_points(segs).contains(q) ==> exists|i: int, j: int|
                0 <= i < segs.len() && 0 <= j < segment_points(segs[i]).len()
                    && #[trigger] segment_points(segs[i])[j] == q,
    decreases segs.len(),
{
    if segs.len() > 0 {
        let init = segs.drop_last();
        let last = segs.len() - 1;
        lemma_path_points_members(init);
        let pp = path_points(segs);
        let pi = path_points(init);
        let ls = segment_points(segs.last());
        assert(pp == pi + ls);
        assert forall|i: int, j: int|
            0 <= i < segs.len() && 0 <= j < segment_points(segs[i]).len() implies pp.contains(
                #[trigger] segment_points(segs[i])[j],
            ) by {
            if i < last {
                assert(segs[i] == init[i]);
                let q = segment_points(init[i])[j];
                assert(pi.contains(q));
                let m = choose|m: int| 0 <= m < pi.len() && pi[m] == q;
                assert(pp[m] == q);
            } else {
                assert(pp[pi.len() + j] == ls[j]);
            }
        }
        assert forall|q: Point2D| #[trigger] pp.contains(q) implies exists|i: int, j: int|
            0 <= i < segs.len() && 0 <= j < segment_points(segs[i]).len()
                && #[trigger] segment_points(segs[i])[j] == q by {
            let m = choose|m: int| 0 <= m < pp.len() && pp[m] == q;
            if m < pi.len() {
                assert(pi[m] == q);
                assert(pi.contains(q));
                let (i, j) = choose|i: int, j: int|
                    0 <= i < init.len() && 0 <= j < segment_points(init[i]).len()
                        && #[trigger] segment_points(init[i])[j] == q;
                assert(segs[i] == init[i]);
                assert(segment_points(segs[i])[j] == q);
            } else {
                assert(ls[m - pi.len()] == q);
                assert(segment_points(segs[last])[m - pi.len()] == q);
            }
        }
    }
}

/// The bounding box of a path is taken over the points of all its segments,
/// across every sub-path: it covers each point that any segment names (a
/// `MoveTo` or `LineTo` point, a curve's control and end points), each of
/// its sides is touched by such a point, and there is no box exactly when
/// no segment names a point.
pub proof fn lemma_bounding_box_of_segments(segs: Seq<PathSegment>)
    ensures
        points_box(path_points(segs)) is None <==> forall|i: int|
            0 <= i < segs.len() ==> (#[trigger] segment_points(segs[i])).len() == 0,
        points_box(path_points(segs)) matches Some(b) ==> {
            &&& forall|i: int, j: int|
                0 <= i < segs.len() && 0 <= j < segment_points(segs[i]).len() ==> box_covers(
                    b,
                    #[trigger] segment_points(segs[i])[j],
                )
            &&& exists|i: int, j: int|
                0 <= i < segs.len() && 0 <= j < segment_points(segs[i]).len()
                    && #[trigger] segment_points(segs[i])[j].x == b.min.x
            &&& exists|i: int, j: int|
                0 <= i < segs.len() && 0 <= j < segment_points(segs[i]).len()
                    && #[trigger] segment_points(segs[i])[j].y == b.min.y
            &&& exists|i: int, j: int|
                0 <= i < segs.len() && 0 <= j < segment_points(segs[i]).len()
                    && #[trigger] segment_points(segs[i])[j].x == b.max.x
            &&& exists|i: int, j: int|
                0 <= i < segs.len() && 0 <= j < segment_points(segs[i]).len()
                    && #[trigger] segment_points(segs[i])[j].y == b.max.y
        },
{
    let pts = path_points(segs);
    lemma_points_box_tight(pts);
    lemma_path_points_members(segs);
    if points_box(pts) is None {
        assert forall|i: int| 0 <= i < segs.len() implies (#[trigger] segment_points(segs[i])).len()
            == 0 by {
            if segment_points(segs[i]).len() > 0 {
                assert(pts.contains(segment_points(segs[i])[0]));
            }
        }
    } else {
        let b = points_box(pts).unwrap();
        assert(pts.contains(pts[0]));
        assert forall|i: int, j: int|
            0 <= i < segs.len() && 0 <= j < segment_points(segs[i]).len() implies box_covers(
                b,
                #[trigger] segment_points(segs[i])[j],
            ) by {
            let q = segment_points(segs[i])[j];
            assert(pts.contains(q));
            let m = choose|m: int| 0 <= m < pts.len() && pts[m] == q;
            assert(box_covers(b, pts[m]));
        }
        let m1 = choose|m: int| 0 <= m < pts.len() && #[trigger] pts[m].x == b.min.x;
        assert(pts.contains(pts[m1]));
        let m2 = choose|m: int| 0 <= m < pts.len() && #[trigger] pts[m].y == b.min.y;
        assert(pts.contains(pts[m2]));
        let m3 = choose|m: int| 0 <= m < pts.len() && #[trigger] pts[m].x == b.max.x;
        assert(pts.contains(pts[m3]));
        let m4 = choose|m: int| 0 <= m < pts.len() && #[trigger] pts[m].y == b.max.y;
        assert(pts.contains(pts[m4]));
        let k = 0int;
        assert(pts.contains(pts[k]));
    }
}

/// A rectangle with non-negative width and height is bounded by its corner
/// `(x, y)` and the opposite corner `(x + w, y + h)`.
pub proof fn lemma_rectangle_bounds(x: i64, y: i64, w: i64, h: i64)
    requires
        0 <= w,
        0 <= h,
        x + w <= i64::MAX,
        y + h <= i64::MAX,
    ensures
        points_box(path_points(rectangle_segments(x as int, y as int, w as int, h as int)))
            == Some(
            BoundingBox {
                min: Point2D { x, y },
                max: Point2D { x: (x + w) as i64, y: (y + h) as i64 },
            },
        ),
{
    let segs = rectangle_segments(x as int, y as int, w as int, h as int);
    reveal_with_fuel(path_points, 7);
    reveal_with_fuel(points_box, 6);
    assert(path_points(segs) =~= seq![
        Point2D { x, y },
        Point2D { x: (x + w) as i64, y },
        Point2D { x: (x + w) as i64, y: (y + h) as i64 },
        Point2D { x, y: (y + h) as i64 },
        Point2D { x, y },
    ]);
}

} // verus!
