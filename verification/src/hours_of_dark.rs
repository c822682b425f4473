//! Clipping a polygon against an axis-aligned rectangle, one side at a time
//! (Sutherland–Hodgman).

use vstd::prelude::*;
use crate::clip_grid::grid_node;
use crate::clip_grid::lemma_contains_is_holds;
use crate::clip_grid::lemma_crosses_is_cut;
use crate::clip_grid::lemma_crossing_is_meeting;
use crate::clip_grid::squared;
use crate::clip_laws::adds_on_border_only;
use crate::clip_laws::all_covered;
use crate::clip_laws::keeps_inner;
use crate::clip_laws::lemma_clip_adds_on_border_only;
use crate::clip_laws::lemma_clip_keeps_inner;
use crate::clip_laws::all_surrounded;
use crate::clip_laws::lemma_clip_covered;
use crate::clip_laws::lemma_clip_empty;
use crate::clip_laws::lemma_clip_fits;
use crate::clip_laws::lemma_clip_identity;
use crate::clip_laws::lemma_clip_parted;
use crate::clip_laws::lemma_clip_separated;
use crate::clip_laws::lemma_meeting_fields;
use crate::clip_laws::lemma_times;
use crate::clip_laws::lemma_nearest_shifted;
use crate::clip_laws::parted;
use crate::clip_laws::separated;
use crate::clip_lines::cut_by;
use crate::interpolate::interpolate;
use crate::interpolate::lerp;
use crate::point::Point;

verus! {

/// An ordered loop of vertices; the last one connects back to the first.
pub type Polygon = Vec<Point>;

/// Two ends of a segment, in the order in which it is walked.
pub type LineSegment = (Point, Point);

/// A clip mask given by its bottom-left and top-right corners.
#[derive(Clone, Copy, Debug, PartialEq, Eq, Structural)]
pub struct Rectangle(pub Point, pub Point);

/// One oriented side of a mask.
///
/// The side starts at `position` and runs to `end`; `interior` is a point on
/// the side's inner half-plane. The direction and the inward vector of the
/// side are the differences `end - position` and `interior - position`, which
/// may be too wide for a grid coordinate and are therefore not stored.
#[derive(Clone, Copy, Debug, PartialEq, Eq, Structural)]
pub struct Edge {
    pub position: Point,
    pub end: Point,
    pub interior: Point,
}

impl Edge {
    /// The vector along the side.
    pub open spec fn direction(self) -> (int, int) {
        (self.end.x - self.position.x, self.end.y - self.position.y)
    }

    /// The vector that points from the side into the mask.
    pub open spec fn inside(self) -> (int, int) {
        (self.interior.x - self.position.x, self.interior.y - self.position.y)
    }

    /// The dot product of `pt - position` with the inward vector.
    pub open spec fn depth(self, pt: Point) -> int {
        (pt.x - self.position.x) * self.inside().0 + (pt.y - self.position.y) * self.inside().1
    }

    /// Whether `pt` lies strictly on the inner side. A point on the side's
    /// own line is not contained.
    pub open spec fn contains_spec(self, pt: Point) -> bool {
        self.depth(pt) > 0
    }

    /// The cross product of the direction with `position - pt`: zero exactly
    /// on the side's line, and of one sign on each side of it.
    pub open spec fn offset(self, pt: Point) -> int {
        self.direction().0 * (self.position.y - pt.y) - self.direction().1 * (self.position.x
            - pt.x)
    }

    /// The determinant of the side's direction and the segment from `q` to
    /// `p`; zero when the two are parallel.
    pub open spec fn determinant(self, p: Point, q: Point) -> int {
        self.direction().0 * (p.y - q.y) - self.direction().1 * (p.x - q.x)
    }

    /// Whether the segment from `p` to `q` meets the side's line: the two are
    /// not parallel and the parameter `offset(q) / determinant` lies in
    /// `[0, 1]`.
    pub open spec fn crosses(self, p: Point, q: Point) -> bool {
        let det = self.determinant(p, q);
        let num = self.offset(q);
        ||| det > 0 && 0 <= num <= det
        ||| det < 0 && det <= num <= 0
    }

    /// The grid point nearest to where the segment from `p` to `q` meets the
    /// side's line, if it does.
    pub open spec fn crossing(self, p: Point, q: Point) -> Option<Point> {
        let det = self.determinant(p, q);
        let num = self.offset(q);
        if !self.crosses(p, q) {
            None
        } else if det > 0 {
            Some(
                Point {
                    x: lerp(num, det, p.x as int, q.x as int) as i32,
                    y: lerp(num, det, p.y as int, q.y as int) as i32,
                },
            )
        } else {
            Some(
                Point {
                    x: lerp(-num, -det, p.x as int, q.x as int) as i32,
                    y: lerp(-num, -det, p.y as int, q.y as int) as i32,
                },
            )
        }
    }

    /// Tests whether `pt` lies strictly on the inner side. For a side that
    /// runs straight up or straight across, a pass holds exactly the grid
    /// points that the side contains.
    pub fn contains(&self, pt: Point) -> (inside: bool)
        ensures
            inside == self.contains_spec(pt),
            squared(*self) ==> inside == self.holds(grid_node(pt, pt)),
    {
        proof {
            if squared(*self) {
                lemma_contains_is_holds(*self, pt, pt);
            }
        }
        let along_x: i128 = (pt.x as i128) - (self.position.x as i128);
        let along_y: i128 = (pt.y as i128) - (self.position.y as i128);
        let inside_x: i128 = (self.interior.x as i128) - (self.position.x as i128);
        let inside_y: i128 = (self.interior.y as i128) - (self.position.y as i128);
        proof {
            lemma_product_bound(along_x as int, inside_x as int);
            lemma_product_bound(along_y as int, inside_y as int);
        }
        along_x * inside_x + along_y * inside_y > 0
    }

    /// Intersects the side's line with a segment between grid points, and
    /// rounds the crossing to the grid. For a side that runs straight up or
    /// straight across, there is a crossing exactly where a pass cuts the
    /// segment, and it is the rounded meeting of the pass.
    pub fn intersect(&self, line_segment: LineSegment) -> (hit: Option<Point>)
        ensures
            hit == self.crossing(line_segment.0, line_segment.1),
            squared(*self) ==> (hit is Some) == cut_by(
                *self,
                grid_node(line_segment.0, line_segment.0),
                grid_node(line_segment.0, line_segment.1),
            ),
            squared(*self) && hit is Some ==> hit == Some(
                self.meeting(
                    grid_node(line_segment.0, line_segment.0),
                    grid_node(line_segment.0, line_segment.1),
                ).rounded(),
            ),
    {
        proof {
            if squared(*self) {
                lemma_crosses_is_cut(*self, line_segment.0, line_segment.1, line_segment.0);
                if self.crosses(line_segment.0, line_segment.1) {
                    lemma_crossing_is_meeting(
                        *self,
                        line_segment.0,
                        line_segment.1,
                        line_segment.0,
                    );
                }
            }
        }
        let ax: i128 = self.position.x as i128;
        let ay: i128 = self.position.y as i128;
        let bx: i128 = (self.end.x as i128) - ax;
        let by: i128 = (self.end.y as i128) - ay;

        let px: i128 = line_segment.0.x as i128;
        let py: i128 = line_segment.0.y as i128;
        let qx: i128 = line_segment.1.x as i128;
        let qy: i128 = line_segment.1.y as i128;

        proof {
            lemma_product_bound(bx as int, py - qy);
            lemma_product_bound(by as int, px - qx);
            lemma_product_bound(bx as int, ay - qy);
            lemma_product_bound(by as int, ax - qx);
        }
        let determinant: i128 = bx * (py - qy) - by * (px - qx);
        if determinant == 0 {
            return None;
        }
        let numerator: i128 = bx * (ay - qy) - by * (ax - qx);
        let (n, d) = if determinant > 0 {
            (numerator, determinant)
        } else {
            (-numerator, -determinant)
        };
        if n < 0 || n > d {
            return None;
        }
        proof {
            let p = line_segment.0;
            let q = line_segment.1;
            crate::interpolate::lemma_lerp_between(n as int, d as int, p.x as int, q.x as int);
            crate::interpolate::lemma_lerp_between(n as int, d as int, p.y as int, q.y as int);
        }
        Some(
            Point {
                x: interpolate(n, d, line_segment.0.x, line_segment.1.x),
                y: interpolate(n, d, line_segment.0.y, line_segment.1.y),
            },
        )
    }
}

/// The product of two differences of grid coordinates stays far inside 128
/// bits.
proof fn lemma_product_bound(a: int, b: int)
    requires
        -0x1_0000_0000 <= a <= 0x1_0000_0000,
        -0x1_0000_0000 <= b <= 0x1_0000_0000,
    ensures
        -0x1_0000_0000_0000_0000 <= a * b <= 0x1_0000_0000_0000_0000,
{
    assert(-0x1_0000_0000_0000_0000 <= a * b <= 0x1_0000_0000_0000_0000) by (nonlinear_arith)
        requires
            -0x1_0000_0000 <= a <= 0x1_0000_0000,
            -0x1_0000_0000 <= b <= 0x1_0000_0000,
    ;
}

impl Rectangle {
    /// Whether the bottom-left corner is strictly below and left of the
    /// top-right one.
    pub open spec fn is_proper(self) -> bool {
        self.0.x < self.1.x && self.0.y < self.1.y
    }

    /// Whether `pt` lies in the open interior.
    pub open spec fn surrounds(self, pt: Point) -> bool {
        self.0.x < pt.x < self.1.x && self.0.y < pt.y < self.1.y
    }

    /// Whether `pt` lies in the closed rectangle.
    pub open spec fn covers(self, pt: Point) -> bool {
        self.0.x <= pt.x <= self.1.x && self.0.y <= pt.y <= self.1.y
    }

    /// The four sides in the order in which a polygon is clipped against
    /// them: the side that starts at the bottom-left corner, then at the
    /// top-left, the top-right and the bottom-right one. Each runs to the next
    /// corner in that order and has the previous one on its inner side.
    pub open spec fn side(self, k: int) -> Edge {
        let bottom_left = self.0;
        let top_left = Point { x: self.0.x, y: self.1.y };
        let top_right = self.1;
        let bottom_right = Point { x: self.1.x, y: self.0.y };
        if k == 0 {
            Edge { position: bottom_left, end: top_left, interior: bottom_right }
        } else if k == 1 {
            Edge { position: top_left, end: top_right, interior: bottom_left }
        } else if k == 2 {
            Edge { position: top_right, end: bottom_right, interior: top_left }
        } else {
            Edge { position: bottom_right, end: bottom_left, interior: top_right }
        }
    }

    /// The four sides, in clipping order.
    pub fn edges(&self) -> (sides: [Edge; 4])
        ensures
            forall|k: int| 0 <= k < 4 ==> sides[k] == #[trigger] self.side(k),
    {
        [
            Edge {
                position: self.bottom_left(),
                end: self.top_left(),
                interior: self.bottom_right(),
            },
            Edge {
                position: self.top_left(),
                end: self.top_right(),
                interior: self.bottom_left(),
            },
            Edge {
                position: self.top_right(),
                end: self.bottom_right(),
                interior: self.top_left(),
            },
            Edge {
                position: self.bottom_right(),
                end: self.bottom_left(),
                interior: self.top_right(),
            },
        ]
    }

    pub fn bottom_left(&self) -> (corner: Point)
        ensures
            corner == self.0,
    {
        self.0
    }

    pub fn top_left(&self) -> (corner: Point)
        ensures
            corner == (Point { x: self.0.x, y: self.1.y }),
    {
        Point { x: self.0.x, y: self.1.y }
    }

    pub fn top_right(&self) -> (corner: Point)
        ensures
            corner == self.1,
    {
        self.1
    }

    pub fn bottom_right(&self) -> (corner: Point)
        ensures
            corner == (Point { x: self.1.x, y: self.0.y }),
    {
        Point { x: self.1.x, y: self.0.y }
    }
}

/// The vertex before position `i` of a closed loop.
pub open spec fn predecessor(poly: Seq<Point>, i: int) -> Point {
    if i == 0 {
        poly.last()
    } else {
        poly[i - 1]
    }
}

/// The coordinate of `pt` across an upright line, or across a level one.
pub open spec fn across_of(pt: Point, upright: bool) -> int {
    if upright {
        pt.x as int
    } else {
        pt.y as int
    }
}

/// The coordinate of `pt` along an upright line, or along a level one.
pub open spec fn along_of(pt: Point, upright: bool) -> int {
    if upright {
        pt.y as int
    } else {
        pt.x as int
    }
}

/// A vertex of a polygon while it is clipped.
///
/// Its position is the exact point `(x / w, y / w)`, which need not lie on
/// the grid; `from` and `to` are two grid points of the line that carries the
/// segment leading to the vertex from its predecessor.
#[derive(Clone, Copy, Debug, PartialEq, Eq, Structural)]
pub struct Node {
    pub x: i128,
    pub y: i128,
    pub w: i128,
    pub from: Point,
    pub to: Point,
}

impl Node {
    /// The numerator of the coordinate across an upright or level line.
    pub open spec fn across(self, upright: bool) -> int {
        if upright {
            self.x as int
        } else {
            self.y as int
        }
    }

    /// Whether the position lies on the line through `from` and `to`.
    pub open spec fn rides(self, from: Point, to: Point) -> bool {
        (to.x - from.x) * (self.y - from.y * self.w) == (to.y - from.y) * (self.x - from.x
            * self.w)
    }

    /// Whether the three numbers are small enough to compute with: a
    /// positive denominator of at most 33 bits, numerators of at most 65.
    pub open spec fn sized(self) -> bool {
        &&& 1 <= self.w <= 0x2_0000_0000
        &&& -0x2_0000_0000_0000_0000 <= self.x <= 0x2_0000_0000_0000_0000
        &&& -0x2_0000_0000_0000_0000 <= self.y <= 0x2_0000_0000_0000_0000
    }

    /// Whether the position lies within the grid.
    pub open spec fn fits(self) -> bool {
        &&& i32::MIN * self.w <= self.x <= i32::MAX * self.w
        &&& i32::MIN * self.w <= self.y <= i32::MAX * self.w
    }

    /// The grid point nearest to the position, halves rounded up.
    pub open spec fn rounded(self) -> Point {
        Point {
            x: nearest(self.x as int, self.w as int) as i32,
            y: nearest(self.y as int, self.w as int) as i32,
        }
    }

    /// Hands the position out as a grid point.
    pub fn round(&self) -> (pt: Point)
        requires
            self.sized(),
            self.fits(),
        ensures
            pt == self.rounded(),
    {
        Point { x: round_to_grid(self.x, self.w), y: round_to_grid(self.y, self.w) }
    }
}

/// The integer nearest to `n / w`, halves rounded up.
pub open spec fn nearest(n: int, w: int) -> int {
    (2 * n + w) / (2 * w)
}

/// Computes `nearest(n, w)` for a quotient within the grid.
fn round_to_grid(n: i128, w: i128) -> (r: i32)
    requires
        1 <= w <= 0x2_0000_0000,
        i32::MIN * w <= n <= i32::MAX * w,
    ensures
        r == nearest(n as int, w as int),
{
    proof {
        lemma_nearest_shifted(n as int, w as int);
    }
    let lift: i128 = 0x8000_0000 * w;
    let shifted: i128 = (2 * (n + lift) + w) / (2 * w);
    (shifted - 0x8000_0000) as i32
}

/// The vertex that stands for the grid point at position `i` of `poly`: the
/// segment that leads to it comes from its predecessor.
pub open spec fn given_node(poly: Seq<Point>, i: int) -> Node {
    Node {
        x: poly[i].x as i128,
        y: poly[i].y as i128,
        w: 1,
        from: predecessor(poly, i),
        to: poly[i],
    }
}

/// The vertices of a polygon as it is before clipping.
pub open spec fn given(poly: Seq<Point>) -> Seq<Node> {
    Seq::new(poly.len(), |i: int| given_node(poly, i))
}

impl Edge {
    /// Whether the side runs up or down rather than left or right.
    pub open spec fn upright(self) -> bool {
        self.end.x == self.position.x && self.interior.y == self.position.y
    }

    /// The coordinate that all points of the side's line share.
    pub open spec fn line(self) -> int {
        across_of(self.position, self.upright())
    }

    /// Whether the side has a direction, so that something can cross it.
    pub open spec fn live(self) -> bool {
        along_of(self.end, self.upright()) != along_of(self.position, self.upright())
    }

    /// How far the interior point lies from the side's line; its sign tells
    /// on which side of the line the inner half-plane lies.
    pub open spec fn inward(self) -> int {
        across_of(self.interior, self.upright()) - self.line()
    }

    /// The distance of the vertex from the side's line, scaled by the
    /// vertex's denominator.
    pub open spec fn reach(self, node: Node) -> int {
        node.across(self.upright()) - self.line() * node.w
    }

    /// Whether the vertex lies strictly on the inner side.
    pub open spec fn holds(self, node: Node) -> bool {
        (self.inward() > 0 && self.reach(node) > 0) || (self.inward() < 0 && self.reach(node)
            < 0)
    }

    /// Whether the segment from `previous` to `current` is cut by the side's
    /// line: the two ends do not lie strictly on the same side of it, nor
    /// both on it, and the line recorded for the segment carries both ends
    /// and is not parallel to the side. Against the sides of a proper mask
    /// the recorded line always does (`lemma_clip_stays_linked`); asking for
    /// it keeps a pass against any other edge from dividing by zero.
    pub open spec fn meets(self, previous: Node, current: Node) -> bool {
        let before = self.reach(previous);
        let after = self.reach(current);
        &&& self.live()
        &&& (before <= 0 <= after || after <= 0 <= before)
        &&& !(before == 0 && after == 0)
        &&& previous.rides(current.from, current.to)
        &&& current.rides(current.from, current.to)
        &&& across_of(current.from, self.upright()) != across_of(current.to, self.upright())
    }

    /// The exact point in which the line recorded for the segment that leads
    /// to `current` meets the side's line. The segment that leads to it is
    /// carried by the same line where `previous` is held, and by the side's
    /// own line where it is not.
    pub open spec fn meeting(self, previous: Node, current: Node) -> Node {
        let up = self.upright();
        let c = self.line();
        let start = across_of(current.from, up);
        let run = across_of(current.to, up) - start;
        let rise = along_of(current.to, up) - along_of(current.from, up);
        let scaled = run * along_of(current.from, up) + (c - start) * rise;
        let w = if run > 0 {
            run
        } else {
            -run
        };
        let along = if run > 0 {
            scaled
        } else {
            -scaled
        };
        let from = if self.holds(previous) {
            current.from
        } else {
            self.position
        };
        let to = if self.holds(previous) {
            current.to
        } else {
            self.end
        };
        if up {
            Node { x: (c * w) as i128, y: along as i128, w: w as i128, from, to }
        } else {
            Node { x: along as i128, y: (c * w) as i128, w: w as i128, from, to }
        }
    }

    /// What one step of a clipping pass appends for the vertex `current`
    /// whose predecessor is `previous`: the meeting, if the segment is cut,
    /// and then the vertex itself, if it is held.
    pub open spec fn emitted(self, previous: Node, current: Node) -> Seq<Node> {
        let met = if self.meets(previous, current) {
            seq![self.meeting(previous, current)]
        } else {
            Seq::empty()
        };
        if self.holds(current) {
            met.push(current)
        } else {
            met
        }
    }
}

/// The vertex before position `i` of a closed loop of vertices.
pub open spec fn before(nodes: Seq<Node>, i: int) -> Node {
    if i == 0 {
        nodes.last()
    } else {
        nodes[i - 1]
    }
}

/// What a pass against `edge` has produced once the first `k` vertices have
/// been visited.
pub open spec fn clip_prefix(nodes: Seq<Node>, edge: Edge, k: nat) -> Seq<Node>
    decreases k,
{
    if k == 0 {
        Seq::empty()
    } else {
        clip_prefix(nodes, edge, (k - 1) as nat) + edge.emitted(before(nodes, k - 1), nodes[k - 1])
    }
}

/// The polygon that one pass against `edge` makes of `nodes`.
pub open spec fn clip_edge(nodes: Seq<Node>, edge: Edge) -> Seq<Node> {
    clip_prefix(nodes, edge, nodes.len())
}

/// The polygon that the passes against the first `k` sides of `mask` make of
/// `nodes`.
pub open spec fn clip_sides(nodes: Seq<Node>, mask: Rectangle, k: nat) -> Seq<Node>
    decreases k,
{
    if k == 0 {
        nodes
    } else {
        clip_edge(clip_sides(nodes, mask, (k - 1) as nat), mask.side(k - 1))
    }
}

/// The grid points nearest to the vertices.
pub open spec fn rounded_all(nodes: Seq<Node>) -> Seq<Point> {
    Seq::new(nodes.len(), |i: int| nodes[i].rounded())
}

/// The polygon `poly` clipped against all four sides of `mask`: the passes
/// work on exact positions, and only their result is rounded to the grid.
pub open spec fn clipped(poly: Seq<Point>, mask: Rectangle) -> Seq<Point> {
    rounded_all(clip_sides(given(poly), mask, 4))
}

/// Whether every vertex is small enough to compute with.
pub open spec fn all_sized(nodes: Seq<Node>) -> bool {
    forall|i: int| 0 <= i < nodes.len() ==> (#[trigger] nodes[i]).sized()
}

/// Turns a polygon on the grid into the vertices that the passes work on.
pub fn start(poly: &Polygon) -> (nodes: Vec<Node>)
    ensures
        nodes@ == given(poly@),
        all_sized(nodes@),
{
    let mut nodes: Vec<Node> = Vec::new();
    let count: usize = poly.len();
    if count == 0 {
        return nodes;
    }
    let mut previous: Point = poly[count - 1];
    let mut i: usize = 0;
    while i < count
        invariant
            count == poly@.len(),
            0 <= i <= count,
            i < count ==> previous == predecessor(poly@, i as int),
            nodes@ == given(poly@).take(i as int),
            all_sized(nodes@),
        decreases count - i,
    {
        let vertex: Point = poly[i];
        nodes.push(Node { x: vertex.x as i128, y: vertex.y as i128, w: 1, from: previous, to: vertex });
        proof {
            assert(nodes@ == given(poly@).take(i + 1));
        }
        previous = vertex;
        i = i + 1;
    }
    proof {
        assert(given(poly@).take(count as int) == given(poly@));
    }
    nodes
}

/// Runs one clipping pass: walks the vertices as a closed loop and collects,
/// for each, the exact point where the segment that leads to it is cut, and
/// the vertex itself where it is held. It is meant for the sides of a mask.
pub fn clip_against(nodes: &Vec<Node>, edge: &Edge) -> (out: Vec<Node>)
    requires
        all_sized(nodes@),
    ensures
        out@ == clip_edge(nodes@, *edge),
        all_sized(out@),
{
    let mut out: Vec<Node> = Vec::new();
    let count: usize = nodes.len();
    if count == 0 {
        return out;
    }
    let upright: bool = edge.end.x == edge.position.x && edge.interior.y == edge.position.y;
    let line: i128 = if upright {
        edge.position.x as i128
    } else {
        edge.position.y as i128
    };
    let live: bool = if upright {
        edge.end.y != edge.position.y
    } else {
        edge.end.x != edge.position.x
    };
    let inward: i128 = if upright {
        (edge.interior.x as i128) - line
    } else {
        (edge.interior.y as i128) - line
    };
    let mut previous: Node = nodes[count - 1];
    let mut i: usize = 0;
    while i < count
        invariant
            count == nodes@.len(),
            0 <= i <= count,
            all_sized(nodes@),
            all_sized(out@),
            previous.sized(),
            upright == edge.upright(),
            line == edge.line(),
            live == edge.live(),
            inward == edge.inward(),
            i < count ==> previous == before(nodes@, i as int),
            out@ == clip_prefix(nodes@, *edge, i as nat),
        decreases count - i,
    {
        let current: Node = nodes[i];
        assert(current.sized());
        proof {
            lemma_times(line as int, previous.w as int, 0x8000_0000, 0x2_0000_0000);
            lemma_times(line as int, current.w as int, 0x8000_0000, 0x2_0000_0000);
        }
        let reach_before: i128 = if upright {
            previous.x - line * previous.w
        } else {
            previous.y - line * previous.w
        };
        let reach_after: i128 = if upright {
            current.x - line * current.w
        } else {
            current.y - line * current.w
        };
        let held_before: bool = (inward > 0 && reach_before > 0) || (inward < 0 && reach_before < 0);
        let held_after: bool = (inward > 0 && reach_after > 0) || (inward < 0 && reach_after < 0);
        let straddles: bool = ((reach_before <= 0 && 0 <= reach_after) || (reach_after <= 0 && 0
            <= reach_before)) && !(reach_before == 0 && reach_after == 0);
        if live && straddles {
            let from: Point = current.from;
            let to: Point = current.to;
            let run_x: i128 = (to.x as i128) - (from.x as i128);
            let run_y: i128 = (to.y as i128) - (from.y as i128);
            proof {
                lemma_times(from.y as int, previous.w as int, 0x8000_0000, 0x2_0000_0000);
                lemma_times(from.x as int, previous.w as int, 0x8000_0000, 0x2_0000_0000);
                lemma_times(from.y as int, current.w as int, 0x8000_0000, 0x2_0000_0000);
                lemma_times(from.x as int, current.w as int, 0x8000_0000, 0x2_0000_0000);
                lemma_times(
                    run_x as int,
                    previous.y - from.y * previous.w,
                    0x1_0000_0000,
                    0x4_0000_0000_0000_0000,
                );
                lemma_times(
                    run_y as int,
                    previous.x - from.x * previous.w,
                    0x1_0000_0000,
                    0x4_0000_0000_0000_0000,
                );
                lemma_times(
                    run_x as int,
                    current.y - from.y * current.w,
                    0x1_0000_0000,
                    0x4_0000_0000_0000_0000,
                );
                lemma_times(
                    run_y as int,
                    current.x - from.x * current.w,
                    0x1_0000_0000,
                    0x4_0000_0000_0000_0000,
                );
            }
            let rides_before: bool = run_x * (previous.y - (from.y as i128) * previous.w) == run_y
                * (previous.x - (from.x as i128) * previous.w);
            let rides_after: bool = run_x * (current.y - (from.y as i128) * current.w) == run_y * (
            current.x - (from.x as i128) * current.w);
            let run: i128 = if upright {
                run_x
            } else {
                run_y
            };
            if rides_before && rides_after && run != 0 {
                let rise: i128 = if upright {
                    run_y
                } else {
                    run_x
                };
                let start_across: i128 = if upright {
                    from.x as i128
                } else {
                    from.y as i128
                };
                let start_along: i128 = if upright {
                    from.y as i128
                } else {
                    from.x as i128
                };
                proof {
                    lemma_meeting_fields(*edge, previous, current);
                    lemma_times(run as int, start_along as int, 0x1_0000_0000, 0x1_0000_0000);
                    lemma_times(
                        line - start_across,
                        rise as int,
                        0x1_0000_0000,
                        0x1_0000_0000,
                    );
                    lemma_times(line as int, if run > 0 {
                        run as int
                    } else {
                        -run
                    }, 0x1_0000_0000, 0x1_0000_0000);
                }
                let scaled: i128 = run * start_along + (line - start_across) * rise;
                let w: i128 = if run > 0 {
                    run
                } else {
                    -run
                };
                let along: i128 = if run > 0 {
                    scaled
                } else {
                    -scaled
                };
                let carrier_from: Point = if held_before {
                    from
                } else {
                    edge.position
                };
                let carrier_to: Point = if held_before {
                    to
                } else {
                    edge.end
                };
                let met: Node = if upright {
                    Node { x: line * w, y: along, w, from: carrier_from, to: carrier_to }
                } else {
                    Node { x: along, y: line * w, w, from: carrier_from, to: carrier_to }
                };
                assert(met == edge.meeting(previous, current));
                out.push(met);
            }
        }
        if held_after {
            out.push(current);
        }
        previous = current;
        i = i + 1;
    }
    out
}

/// Clips `poly` against `mask`, one side after the other.
///
/// The four passes work on exact positions, and only what the last one
/// leaves is rounded to the grid. An empty polygon stays empty. Against a
/// proper mask, a polygon in the open interior comes back unchanged; one
/// that some line parts from the mask, with every vertex strictly on one
/// side and the four corners strictly on the other, comes back empty; every
/// vertex that comes back lies in the closed mask; the vertices that come
/// back in the open interior are those of the polygon that lie there, and
/// every other one lies on the border.
pub fn clip(poly: Polygon, mask: &Rectangle) -> (out: Polygon)
    ensures
        out@ == clipped(poly@, *mask),
        poly@.len() == 0 ==> out@.len() == 0,
        mask.is_proper() && all_surrounded(poly@, *mask) ==> out@ == poly@,
        mask.is_proper() && (exists|a: int, b: int, s: int| parted(poly@, *mask, a, b, s))
            ==> out@.len() == 0,
        mask.is_proper() && separated(poly@, *mask) ==> out@.len() == 0,
        mask.is_proper() ==> all_covered(out@, *mask),
        mask.is_proper() ==> adds_on_border_only(poly@, out@, *mask),
        mask.is_proper() ==> keeps_inner(poly@, out@, *mask),
{
    proof {
        lemma_clip_fits(poly@, *mask);
        if mask.is_proper() {
            lemma_clip_covered(poly@, *mask);
            lemma_clip_adds_on_border_only(poly@, *mask);
            lemma_clip_keeps_inner(poly@, *mask);
            if all_surrounded(poly@, *mask) {
                lemma_clip_identity(poly@, *mask);
            }
            if exists|a: int, b: int, s: int| parted(poly@, *mask, a, b, s) {
                let (a, b, s) = choose|a: int, b: int, s: int| parted(poly@, *mask, a, b, s);
                lemma_clip_parted(poly@, *mask, a, b, s);
            }
            if separated(poly@, *mask) {
                lemma_clip_separated(poly@, *mask);
            }
        }
    }
    if poly.len() == 0 {
        proof {
            assert(poly@ == Seq::<Point>::empty());
            lemma_clip_empty(*mask);
        }
        return poly;
    }
    let sides = mask.edges();
    let mut current: Vec<Node> = start(&poly);
    let mut k: usize = 0;
    while k < 4
        invariant
            0 <= k <= 4,
            forall|j: int| 0 <= j < 4 ==> sides[j] == #[trigger] mask.side(j),
            current@ == clip_sides(given(poly@), *mask, k as nat),
            all_sized(current@),
        decreases 4 - k,
    {
        let next = clip_against(&current, &sides[k]);
        current = next;
        k = k + 1;
    }
    let mut out: Polygon = Vec::new();
    let mut i: usize = 0;
    while i < current.len()
        invariant
            0 <= i <= current@.len(),
            all_sized(current@),
            forall|j: int| 0 <= j < current@.len() ==> (#[trigger] current@[j]).fits(),
            out@ == rounded_all(current@).take(i as int),
        decreases current@.len() - i,
    {
        let pt = current[i].round();
        out.push(pt);
        proof {
            assert(out@ == rounded_all(current@).take(i + 1));
        }
        i = i + 1;
    }
    proof {
        assert(rounded_all(current@).take(current@.len() as int) == rounded_all(current@));
    }
    out
}

} // verus!
