//! Mesh gradients: a grid of coloured control points.
use vstd::prelude::*;
use crate::geometry::{Color, Point2D};

verus! {

/// A control point of a mesh gradient, with its tangent handles.
#[derive(Clone, Copy, Debug, PartialEq, Eq, Structural)]
pub struct MeshPoint {
    pub position: Point2D,
    pub color: Color,
    pub handle_top: Point2D,
    pub handle_bottom: Point2D,
    pub handle_left: Point2D,
    pub handle_right: Point2D,
}

/// A free mesh gradient: `rows` by `cols` patches whose corners are
/// `points[row][col]`.
#[derive(Clone, Debug)]
pub struct MeshGradient {
    pub rows: u32,
    pub cols: u32,
    pub points: Vec<Vec<MeshPoint>>,
}

/// The control points of a mesh, row by row.
pub open spec fn grid(points: Seq<Vec<MeshPoint>>) -> Seq<Seq<MeshPoint>> {
    points.map_values(|r: Vec<MeshPoint>| r@)
}

/// The grid with the colour of the point at `row`, `col` replaced, when
/// there is such a point; the grid unchanged otherwise.
pub open spec fn recolor(g: Seq<Seq<MeshPoint>>, row: int, col: int, color: Color) -> Seq<
    Seq<MeshPoint>,
> {
    if 0 <= row < g.len() && 0 <= col < g[row].len() {
        g.update(row, g[row].update(col, MeshPoint { color, ..g[row][col] }))
    } else {
        g
    }
}

impl MeshGradient {
    /// Sets the colour of the control point at `row`, `col`; out-of-range
    /// positions are ignored.
    pub fn set_color(&mut self, row: usize, col: usize, color: Color)
        ensures
            grid(final(self).points@) == recolor(grid(old(self).points@), row as int, col as int, color),
            final(self).rows == old(self).rows,
            final(self).cols == old(self).cols,
    {
        if row < self.points.len() && col < self.points[row].len() {
            let ghost g = grid(self.points@);
            self.points[row][col].color = color;
            proof {
                assert(grid(self.points@) =~= recolor(g, row as int, col as int, color));
            }
        }
    }
}

} // verus!
