//! Why a pass never finds a segment off the line recorded for it: between
//! two vertices that follow each other, the polygon runs along an edge that
//! it was given or along a side of the mask.

use vstd::prelude::*;
use crate::clip_laws::lemma_meeting_fields;
use crate::hours_of_dark::across_of;
use crate::hours_of_dark::along_of;
use crate::hours_of_dark::before;
use crate::hours_of_dark::clip_edge;
use crate::hours_of_dark::clip_prefix;
use crate::hours_of_dark::clip_sides;
use crate::hours_of_dark::given;
use crate::hours_of_dark::Edge;
use crate::hours_of_dark::Node;
use crate::hours_of_dark::Rectangle;
use crate::point::Point;

verus! {

/// Whether the position of `node` is the grid point `pt`.
pub open spec fn stands_at(node: Node, pt: Point) -> bool {
    node.x == pt.x * node.w && node.y == pt.y * node.w
}

/// Whether `node` lies on the line recorded by `carrier`; where the two
/// recorded points coincide, at that very point.
pub open spec fn follows(node: Node, carrier: Node) -> bool {
    &&& node.w > 0
    &&& node.rides(carrier.from, carrier.to)
    &&& carrier.from == carrier.to ==> stands_at(node, carrier.from)
}

/// Whether every vertex and its predecessor lie on the line recorded for the
/// segment between them.
pub open spec fn linked(nodes: Seq<Node>) -> bool {
    forall|i: int|
        0 <= i < nodes.len() ==> follows(#[trigger] nodes[i], nodes[i]) && follows(
            before(nodes, i),
            nodes[i],
        )
}

/// Whether the side's line cuts the segment between two vertices: the side
/// has a direction, and the two ends lie neither strictly on the same side
/// of the line nor both on it.
pub open spec fn cut_by(edge: Edge, previous: Node, current: Node) -> bool {
    let a = edge.reach(previous);
    let b = edge.reach(current);
    &&& edge.live()
    &&& (a <= 0 <= b || b <= 0 <= a)
    &&& !(a == 0 && b == 0)
}

/// A segment on a line that runs along the side's line, or on no line at
/// all, is not cut by it.
pub proof fn lemma_parallel_not_cut(edge: Edge, previous: Node, current: Node)
    requires
        follows(previous, current),
        follows(current, current),
        across_of(current.from, edge.upright()) == across_of(current.to, edge.upright()),
    ensures
        !cut_by(edge, previous, current),
{
    let up = edge.upright();
    let c = edge.line();
    let pa = across_of(current.from, up);
    let rise = along_of(current.to, up) - along_of(current.from, up);
    let off = pa - c;
    let pw = previous.w as int;
    let qw = current.w as int;
    let pd = previous.across(up) - pa * pw;
    let qd = current.across(up) - pa * qw;
    if current.from == current.to {
        assert(pd == 0 && qd == 0);
    } else {
        assert(rise != 0);
        assert(rise * pd == 0) by {
            if up {
                assert((current.to.x - current.from.x) * (previous.y - current.from.y * previous.w)
                    == 0) by (nonlinear_arith)
                    requires
                        current.to.x - current.from.x == 0,
                ;
            } else {
                assert((current.to.y - current.from.y) * (previous.x - current.from.x * previous.w)
                    == 0) by (nonlinear_arith)
                    requires
                        current.to.y - current.from.y == 0,
                ;
            }
        }
        assert(rise * qd == 0) by {
            if up {
                assert((current.to.x - current.from.x) * (current.y - current.from.y * current.w)
                    == 0) by (nonlinear_arith)
                    requires
                        current.to.x - current.from.x == 0,
                ;
            } else {
                assert((current.to.y - current.from.y) * (current.x - current.from.x * current.w)
                    == 0) by (nonlinear_arith)
                    requires
                        current.to.y - current.from.y == 0,
                ;
            }
        }
        assert(pd == 0) by (nonlinear_arith)
            requires
                rise * pd == 0,
                rise != 0,
        ;
        assert(qd == 0) by (nonlinear_arith)
            requires
                rise * qd == 0,
                rise != 0,
        ;
    }
    let a = edge.reach(previous);
    let b = edge.reach(current);
    assert(a == off * pw) by (nonlinear_arith)
        requires
            a == previous.across(up) - c * pw,
            pd == previous.across(up) - pa * pw,
            pd == 0,
            off == pa - c,
    ;
    assert(b == off * qw) by (nonlinear_arith)
        requires
            b == current.across(up) - c * qw,
            qd == current.across(up) - pa * qw,
            qd == 0,
            off == pa - c,
    ;
    assert((a > 0 && b > 0) || (a < 0 && b < 0) || (a == 0 && b == 0)) by (nonlinear_arith)
        requires
            a == off * pw,
            b == off * qw,
            pw > 0,
            qw > 0,
    ;
}

/// For two vertices that follow the line recorded for the segment between
/// them, the side's line cuts the segment exactly where a pass takes it to.
pub proof fn lemma_linked_meets(edge: Edge, previous: Node, current: Node)
    requires
        follows(previous, current),
        follows(current, current),
    ensures
        edge.meets(previous, current) == cut_by(edge, previous, current),
{
    if across_of(current.from, edge.upright()) == across_of(current.to, edge.upright()) {
        lemma_parallel_not_cut(edge, previous, current);
    }
}

/// A meeting lies on the line recorded for the segment that it cuts.
pub proof fn lemma_meeting_rides(edge: Edge, previous: Node, current: Node)
    requires
        across_of(current.from, edge.upright()) != across_of(current.to, edge.upright()),
    ensures
        edge.meeting(previous, current).rides(current.from, current.to),
        edge.meeting(previous, current).w > 0,
{
    let up = edge.upright();
    let c = edge.line();
    let px = across_of(current.from, up);
    let py = along_of(current.from, up);
    let dx = across_of(current.to, up) - px;
    let dy = along_of(current.to, up) - py;
    let met = edge.meeting(previous, current);
    lemma_meeting_fields(edge, previous, current);
    let w = met.w as int;
    let mac = met.across(up);
    let mal = if up {
        met.y as int
    } else {
        met.x as int
    };
    let off = c - px;
    let scaled = dx * py + off * dy;
    let sign: int = if dx > 0 {
        1
    } else {
        -1
    };
    assert(w == sign * dx && mal == sign * scaled && mac == c * w);
    let u = mal - py * w;
    let v = mac - px * w;
    let ody = off * dy;
    let dpy = dx * py;
    assert(u == sign * ody) by (nonlinear_arith)
        requires
            u == mal - py * w,
            mal == sign * scaled,
            scaled == dpy + ody,
            dpy == dx * py,
            w == sign * dx,
            sign == 1 || sign == -1,
    ;
    assert(v == sign * (off * dx)) by (nonlinear_arith)
        requires
            v == mac - px * w,
            mac == c * w,
            w == sign * dx,
            off == c - px,
            sign == 1 || sign == -1,
    ;
    let odx = off * dx;
    assert(dx * ody == dy * odx) by (nonlinear_arith)
        requires
            ody == off * dy,
            odx == off * dx,
    ;
    assert(dx * u == dy * v) by (nonlinear_arith)
        requires
            u == sign * ody,
            v == sign * odx,
            dx * ody == dy * odx,
            sign == 1 || sign == -1,
    ;
}

/// A vertex on the line of a side that runs straight up or straight across
/// lies on the line through the side's two ends.
pub proof fn lemma_on_side_rides(edge: Edge, node: Node)
    requires
        edge.reach(node) == 0,
        edge.upright() || edge.end.y == edge.position.y,
    ensures
        node.rides(edge.position, edge.end),
{
    if edge.upright() {
        assert((edge.end.x - edge.position.x) * (node.y - edge.position.y * node.w) == 0)
            by (nonlinear_arith)
            requires
                edge.end.x - edge.position.x == 0,
        ;
        assert((edge.end.y - edge.position.y) * (node.x - edge.position.x * node.w) == 0)
            by (nonlinear_arith)
            requires
                node.x - edge.position.x * node.w == 0,
        ;
    } else {
        assert((edge.end.y - edge.position.y) * (node.x - edge.position.x * node.w) == 0)
            by (nonlinear_arith)
            requires
                edge.end.y - edge.position.y == 0,
        ;
        assert((edge.end.x - edge.position.x) * (node.y - edge.position.y * node.w) == 0)
            by (nonlinear_arith)
            requires
                node.y - edge.position.y * node.w == 0,
        ;
    }
}

/// Whether `edge` is fit to be the side of a mask: it runs straight up or
/// straight across, has a direction, and has an inner side.
pub open spec fn is_side(edge: Edge) -> bool {
    &&& edge.upright() || edge.end.y == edge.position.y
    &&& edge.live()
    &&& edge.inward() != 0
    &&& edge.position != edge.end
}

/// What holds of the vertices that a pass has produced once it has visited
/// the first `j` vertices of a linked polygon: they follow their recorded
/// lines among themselves; the last one is the vertex visited last where
/// that is held, and lies on the side's line where it is not; and the line
/// recorded for the first one is the one on which the vertex produced last
/// will be found.
pub open spec fn on_track(nodes: Seq<Node>, edge: Edge, j: nat) -> bool {
    let out = clip_prefix(nodes, edge, j);
    &&& forall|t: int| 0 <= t < out.len() ==> follows(#[trigger] out[t], out[t])
    &&& forall|t: int| 1 <= t < out.len() ==> follows(out[t - 1], #[trigger] out[t])
    &&& j >= 1 && edge.holds(nodes[j - 1]) ==> out.len() > 0 && out.last() == nodes[j - 1]
    &&& j >= 1 && !edge.holds(nodes[j - 1]) && out.len() > 0 ==> edge.reach(out.last()) == 0
    &&& j >= 1 && out.len() == 0 ==> !edge.holds(nodes.last())
    &&& out.len() > 0 ==> (edge.holds(nodes.last()) && out[0].from == nodes[0].from && out[0].to
        == nodes[0].to) || (!edge.holds(nodes.last()) && out[0].from == edge.position
        && out[0].to == edge.end)
}

/// A pass stays on track.
pub proof fn lemma_on_track(nodes: Seq<Node>, edge: Edge, j: nat)
    requires
        linked(nodes),
        is_side(edge),
        j <= nodes.len(),
    ensures
        on_track(nodes, edge, j),
    decreases j,
{
    if j > 0 {
        lemma_on_track(nodes, edge, (j - 1) as nat);
        let out = clip_prefix(nodes, edge, (j - 1) as nat);
        let previous = before(nodes, j - 1);
        let current = nodes[j - 1];
        let added = edge.emitted(previous, current);
        let next = clip_prefix(nodes, edge, j);
        assert(next == out + added);
        assert(follows(current, current) && follows(previous, current));
        lemma_linked_meets(edge, previous, current);
        let cut = edge.meets(previous, current);
        let met = edge.meeting(previous, current);
        if cut {
            lemma_meeting_rides(edge, previous, current);
            lemma_meeting_fields(edge, previous, current);
            assert(edge.reach(met) == 0);
            lemma_on_side_rides(edge, met);
            assert(follows(met, met));
        }
        if j - 1 >= 1 {
            assert(previous == nodes[j - 2]);
            if !edge.holds(previous) && out.len() > 0 {
                lemma_on_side_rides(edge, out.last());
            }
        }
        assert forall|t: int| 0 <= t < next.len() implies follows(#[trigger] next[t], next[t]) by {
            if t < out.len() {
                assert(next[t] == out[t]);
            } else {
                assert(next[t] == added[t - out.len()]);
            }
        }
        assert forall|t: int| 1 <= t < next.len() implies follows(next[t - 1], #[trigger] next[t]) by {
            if t < out.len() {
                assert(next[t] == out[t]);
                assert(next[t - 1] == out[t - 1]);
            } else if t == out.len() {
                assert(next[t] == added[0]);
                assert(next[t - 1] == out.last());
            } else {
                assert(next[t] == added[t - out.len()]);
                assert(next[t - 1] == added[t - 1 - out.len()]);
            }
        }
        if next.len() > 0 {
            if out.len() > 0 {
                assert(next[0] == out[0]);
            } else {
                assert(next[0] == added[0]);
            }
            assert(next.last() == if added.len() > 0 {
                added.last()
            } else {
                out.last()
            });
        }
    }
}

/// A pass against a side of a mask leaves a linked polygon linked.
pub proof fn lemma_pass_linked(nodes: Seq<Node>, edge: Edge)
    requires
        linked(nodes),
        is_side(edge),
    ensures
        linked(clip_edge(nodes, edge)),
{
    let out = clip_edge(nodes, edge);
    lemma_on_track(nodes, edge, nodes.len());
    if out.len() > 0 {
        assert(nodes.len() >= 1);
        let last = nodes[nodes.len() - 1];
        assert(last == nodes.last());
        assert(follows(before(nodes, 0), nodes[0]));
        if !edge.holds(last) {
            lemma_on_side_rides(edge, out.last());
        }
        assert(follows(out.last(), out[0]));
        assert forall|i: int| 0 <= i < out.len() implies follows(#[trigger] out[i], out[i])
            && follows(before(out, i), out[i]) by {
            if i > 0 {
                assert(follows(out[i - 1], out[i]));
            }
        }
    }
}

/// A polygon on the grid starts out linked.
pub proof fn lemma_given_linked(poly: Seq<Point>)
    ensures
        linked(given(poly)),
{
    let nodes = given(poly);
    assert forall|i: int| 0 <= i < nodes.len() implies follows(#[trigger] nodes[i], nodes[i])
        && follows(before(nodes, i), nodes[i]) by {
        let node = nodes[i];
        let prev = before(nodes, i);
        let from = node.from;
        let to = node.to;
        assert(node.x == to.x && node.y == to.y && node.w == 1);
        assert(prev.x == from.x && prev.y == from.y && prev.w == 1);
        assert((to.x - from.x) * (to.y - from.y) == (to.y - from.y) * (to.x - from.x))
            by (nonlinear_arith);
        assert((to.x - from.x) * (from.y - from.y) == (to.y - from.y) * (from.x - from.x))
            by (nonlinear_arith);
    }
}

/// Whether a pass over `nodes` cuts every segment that the side's line cuts,
/// whatever the side.
pub open spec fn never_skips(nodes: Seq<Node>) -> bool {
    forall|i: int, edge: Edge|
        0 <= i < nodes.len() ==> #[trigger] edge.meets(before(nodes, i), nodes[i]) == cut_by(
            edge,
            before(nodes, i),
            nodes[i],
        )
}

/// No crossing is ever skipped: through all passes against a proper mask,
/// every vertex and its predecessor lie on the line recorded for the segment
/// between them, so that a pass cuts a segment exactly where the side's line
/// cuts it.
pub proof fn lemma_clip_stays_linked(poly: Seq<Point>, mask: Rectangle, k: nat)
    requires
        mask.is_proper(),
        k <= 4,
    ensures
        linked(clip_sides(given(poly), mask, k)),
        never_skips(clip_sides(given(poly), mask, k)),
    decreases k,
{
    let nodes = clip_sides(given(poly), mask, k);
    if k == 0 {
        lemma_given_linked(poly);
    } else {
        lemma_clip_stays_linked(poly, mask, (k - 1) as nat);
        lemma_pass_linked(clip_sides(given(poly), mask, (k - 1) as nat), mask.side(k - 1));
    }
    assert forall|i: int, edge: Edge| 0 <= i < nodes.len() implies #[trigger] edge.meets(
        before(nodes, i),
        nodes[i],
    ) == cut_by(edge, before(nodes, i), nodes[i]) by {
        assert(follows(nodes[i], nodes[i]) && follows(before(nodes, i), nodes[i]));
        lemma_linked_meets(edge, before(nodes, i), nodes[i]);
    }
}

} // verus!
