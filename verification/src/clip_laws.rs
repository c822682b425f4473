//! What clipping guarantees: a polygon inside the mask is returned as it is,
//! one that a line parts from the mask vanishes, and whatever is returned
//! lies in the closed mask.

use vstd::prelude::*;
use vstd::arithmetic::div_mod::lemma_fundamental_div_mod;
use crate::between::form;
use crate::between::form_at_line;
use crate::between::lemma_form_on_line;
use crate::between::lemma_straddle_at_most;
use crate::between::lemma_straddle_below;
use crate::hours_of_dark::across_of;
use crate::hours_of_dark::along_of;
use crate::hours_of_dark::before;
use crate::hours_of_dark::clip_edge;
use crate::hours_of_dark::clip_prefix;
use crate::hours_of_dark::clip_sides;
use crate::hours_of_dark::clipped;
use crate::hours_of_dark::given;
use crate::hours_of_dark::nearest;
use crate::hours_of_dark::rounded_all;
use crate::hours_of_dark::Edge;
use crate::hours_of_dark::Node;
use crate::hours_of_dark::Rectangle;
use crate::interpolate::lemma_floor;
use crate::point::Point;

verus! {

/// Whether `pt` lies in the closed box `[lo_x, hi_x] x [lo_y, hi_y]`.
pub open spec fn in_box(pt: Point, lo_x: int, hi_x: int, lo_y: int, hi_y: int) -> bool {
    lo_x <= pt.x <= hi_x && lo_y <= pt.y <= hi_y
}

/// Whether every vertex of `poly` lies in the closed box.
pub open spec fn within(poly: Seq<Point>, lo_x: int, hi_x: int, lo_y: int, hi_y: int) -> bool {
    forall|i: int| 0 <= i < poly.len() ==> in_box(#[trigger] poly[i], lo_x, hi_x, lo_y, hi_y)
}

/// Whether every vertex of `poly` lies in the open interior of `mask`.
pub open spec fn all_surrounded(poly: Seq<Point>, mask: Rectangle) -> bool {
    forall|i: int| 0 <= i < poly.len() ==> mask.surrounds(#[trigger] poly[i])
}

/// Whether every vertex of `poly` lies in the closed rectangle `mask`.
pub open spec fn all_covered(poly: Seq<Point>, mask: Rectangle) -> bool {
    forall|i: int| 0 <= i < poly.len() ==> mask.covers(#[trigger] poly[i])
}

/// Whether the bounding box of `poly` misses the closed rectangle `mask`:
/// the whole polygon lies strictly beyond one of the four sides.
pub open spec fn separated(poly: Seq<Point>, mask: Rectangle) -> bool {
    ||| within(poly, i32::MIN as int, mask.0.x - 1, i32::MIN as int, i32::MAX as int)
    ||| within(poly, mask.1.x + 1, i32::MAX as int, i32::MIN as int, i32::MAX as int)
    ||| within(poly, i32::MIN as int, i32::MAX as int, i32::MIN as int, mask.0.y - 1)
    ||| within(poly, i32::MIN as int, i32::MAX as int, mask.1.y + 1, i32::MAX as int)
}

/// Whether the line `a x + b y + s = 0` parts `poly` from `mask`: every
/// vertex of the polygon lies strictly on its negative side and all four
/// corners of the mask lie strictly on its positive side.
pub open spec fn parted(poly: Seq<Point>, mask: Rectangle, a: int, b: int, s: int) -> bool {
    &&& forall|i: int|
        0 <= i < poly.len() ==> a * (#[trigger] poly[i]).x + b * poly[i].y + s < 0
    &&& a * mask.0.x + b * mask.0.y + s > 0
    &&& a * mask.0.x + b * mask.1.y + s > 0
    &&& a * mask.1.x + b * mask.0.y + s > 0
    &&& a * mask.1.x + b * mask.1.y + s > 0
}

/// Whether every vertex of `out` in the open interior of `mask` is a vertex
/// of `poly`: whatever else `out` holds lies on the border of the mask.
pub open spec fn adds_on_border_only(poly: Seq<Point>, out: Seq<Point>, mask: Rectangle) -> bool {
    forall|i: int|
        0 <= i < out.len() && mask.surrounds(#[trigger] out[i]) ==> poly.contains(out[i])
}

/// Whether every vertex of `poly` in the open interior of `mask` is a vertex
/// of `out`.
pub open spec fn keeps_inner(poly: Seq<Point>, out: Seq<Point>, mask: Rectangle) -> bool {
    forall|i: int|
        0 <= i < poly.len() && mask.surrounds(#[trigger] poly[i]) ==> out.contains(poly[i])
}

/// Whether the linear form `a x + b y + s` is negative at the vertex, or at
/// most zero where `strict` is not asked for.
pub open spec fn at_most(node: Node, a: int, b: int, s: int, strict: bool) -> bool {
    &&& node.w > 0
    &&& if strict {
        form(a, b, s, node.x as int, node.y as int, node.w as int) < 0
    } else {
        form(a, b, s, node.x as int, node.y as int, node.w as int) <= 0
    }
}

/// Whether the linear form is negative, or at most zero, at every vertex.
pub open spec fn all_at_most(nodes: Seq<Node>, a: int, b: int, s: int, strict: bool) -> bool {
    forall|i: int| 0 <= i < nodes.len() ==> at_most(#[trigger] nodes[i], a, b, s, strict)
}

/// A product is bounded by the product of the bounds of its factors.
pub proof fn lemma_times(x: int, y: int, bx: int, by: int)
    requires
        -bx <= x <= bx,
        -by <= y <= by,
    ensures
        -(bx * by) <= x * y <= bx * by,
{
    assert(-(bx * by) <= x * y <= bx * by) by (nonlinear_arith)
        requires
            -bx <= x <= bx,
            -by <= y <= by,
    ;
}

/// Rounding can be done on a quotient that has been lifted above zero.
pub proof fn lemma_nearest_shifted(n: int, w: int)
    requires
        1 <= w,
        i32::MIN * w <= n <= i32::MAX * w,
    ensures
        0 <= 2 * (n + 0x8000_0000 * w) + w,
        (2 * (n + 0x8000_0000 * w) + w) / (2 * w) == nearest(n, w) + 0x8000_0000,
        i32::MIN <= nearest(n, w) <= i32::MAX,
{
    lemma_nearest_between(n, w, i32::MIN as int, i32::MAX as int);
    let k = nearest(n, w);
    lemma_fundamental_div_mod(2 * n + w, 2 * w);
    let r = (2 * n + w) % (2 * w);
    assert((2 * w) * (k + 0x8000_0000) == (2 * w) * k + 0x1_0000_0000 * w) by (nonlinear_arith);
    lemma_floor(2 * (n + 0x8000_0000 * w) + w, 2 * w, k + 0x8000_0000);
}

/// A quotient between two integers is rounded to an integer between them.
pub proof fn lemma_nearest_between(n: int, w: int, lo: int, hi: int)
    requires
        1 <= w,
        lo * w <= n <= hi * w,
    ensures
        lo <= nearest(n, w) <= hi,
{
    let k = nearest(n, w);
    lemma_fundamental_div_mod(2 * n + w, 2 * w);
    let r = (2 * n + w) % (2 * w);
    assert(lo <= k <= hi) by (nonlinear_arith)
        requires
            1 <= w,
            lo * w <= n <= hi * w,
            2 * n + w == (2 * w) * k + r,
            0 <= r < 2 * w,
    ;
}

/// A quotient that is an integer is rounded to that integer.
pub proof fn lemma_nearest_exact(c: int, w: int)
    requires
        1 <= w,
    ensures
        nearest(c * w, w) == c,
{
    assert((2 * w) * c == 2 * (c * w)) by (nonlinear_arith);
    lemma_floor(2 * (c * w) + w, 2 * w, c);
}

/// The three numbers of a meeting, free of the casts that store them.
pub proof fn lemma_meeting_fields(edge: Edge, previous: Node, current: Node)
    ensures
        ({
            let up = edge.upright();
            let c = edge.line();
            let start = across_of(current.from, up);
            let run = across_of(current.to, up) - start;
            let rise = along_of(current.to, up) - along_of(current.from, up);
            let scaled = run * along_of(current.from, up) + (c - start) * rise;
            let met = edge.meeting(previous, current);
            &&& met.w == (if run > 0 {
                run
            } else {
                -run
            })
            &&& met.across(up) == c * met.w
            &&& (if up {
                met.y as int
            } else {
                met.x as int
            }) == (if run > 0 {
                scaled
            } else {
                -scaled
            })
            &&& run != 0 ==> met.sized()
        }),
{
    let up = edge.upright();
    let c = edge.line();
    let start = across_of(current.from, up);
    let run = across_of(current.to, up) - start;
    let rise = along_of(current.to, up) - along_of(current.from, up);
    let w = if run > 0 {
        run
    } else {
        -run
    };
    lemma_times(run, along_of(current.from, up), 0x1_0000_0000, 0x1_0000_0000);
    lemma_times(c - start, rise, 0x1_0000_0000, 0x1_0000_0000);
    lemma_times(c, w, 0x1_0000_0000, 0x1_0000_0000);
}

/// The value of a linear form at a meeting is the form's value where the
/// recorded line meets the side's line, with the sign of the run.
pub proof fn lemma_form_of_meeting(
    a: int,
    b: int,
    s: int,
    px: int,
    py: int,
    dx: int,
    dy: int,
    c: int,
)
    ensures
        form(a, b, s, c * dx, dx * py + (c - px) * dy, dx) == form_at_line(
            a,
            b,
            s,
            px,
            py,
            dx,
            dy,
            c,
        ),
        form(a, b, s, c * (-dx), -(dx * py + (c - px) * dy), -dx) == -form_at_line(
            a,
            b,
            s,
            px,
            py,
            dx,
            dy,
            c,
        ),
{
    let off = c - px;
    let cdx = c * dx;
    let dpy = dx * py;
    let ody = off * dy;
    let adx = a * dx;
    let bdy = b * dy;
    let lp = a * px + b * py + s;
    let apx = a * px;
    let bpy = b * py;
    assert(dx * lp == dx * apx + dx * bpy + dx * s) by (nonlinear_arith)
        requires
            lp == apx + bpy + s,
    ;
    assert(dx * apx == adx * px) by (nonlinear_arith)
        requires
            apx == a * px,
            adx == a * dx,
    ;
    assert(dx * bpy == b * dpy) by (nonlinear_arith)
        requires
            bpy == b * py,
            dpy == dx * py,
    ;
    assert(off * (adx + bdy) == off * adx + off * bdy) by (nonlinear_arith);
    assert(off * adx == adx * c - adx * px) by (nonlinear_arith)
        requires
            off == c - px,
    ;
    assert(adx * c == a * cdx) by (nonlinear_arith)
        requires
            adx == a * dx,
            cdx == c * dx,
    ;
    assert(off * bdy == b * ody) by (nonlinear_arith)
        requires
            bdy == b * dy,
            ody == off * dy,
    ;
    assert(b * (dpy + ody) == b * dpy + b * ody) by (nonlinear_arith);
    assert(dx * s == s * dx) by (nonlinear_arith);
    let m = form_at_line(a, b, s, px, py, dx, dy, c);
    assert(m == dx * lp + off * (adx + bdy));
    let whole = a * cdx + b * (dpy + ody) + s * dx;
    assert(form(a, b, s, c * dx, dx * py + (c - px) * dy, dx) == whole);
    assert(whole == m);
    assert(c * (-dx) == -cdx) by (nonlinear_arith)
        requires
            cdx == c * dx,
    ;
    assert(a * (-cdx) == -(a * cdx)) by (nonlinear_arith);
    assert(b * (-(dpy + ody)) == -(b * (dpy + ody))) by (nonlinear_arith);
    assert(s * (-dx) == -(s * dx)) by (nonlinear_arith);
}

/// A meeting lies between the two ends of the segment that it cuts: a
/// linear form that is negative, or at most zero, at both ends is so at the
/// meeting.
pub proof fn lemma_meeting_at_most(
    edge: Edge,
    previous: Node,
    current: Node,
    a: int,
    b: int,
    s: int,
    strict: bool,
)
    requires
        edge.meets(previous, current),
        at_most(previous, a, b, s, strict),
        at_most(current, a, b, s, strict),
    ensures
        at_most(edge.meeting(previous, current), a, b, s, strict),
{
    let up = edge.upright();
    let c = edge.line();
    let px = across_of(current.from, up);
    let py = along_of(current.from, up);
    let dx = across_of(current.to, up) - px;
    let dy = along_of(current.to, up) - py;
    let ca = if up {
        a
    } else {
        b
    };
    let cb = if up {
        b
    } else {
        a
    };
    let met = edge.meeting(previous, current);
    lemma_meeting_fields(edge, previous, current);
    lemma_form_of_meeting(ca, cb, s, px, py, dx, dy, c);
    let m = form_at_line(ca, cb, s, px, py, dx, dy, c);
    let k = ca * dx + cb * dy;
    let pac = previous.across(up);
    let pal = if up {
        previous.y as int
    } else {
        previous.x as int
    };
    let qac = current.across(up);
    let qal = if up {
        current.y as int
    } else {
        current.x as int
    };
    let pw = previous.w as int;
    let qw = current.w as int;
    lemma_form_on_line(ca, cb, s, px, py, dx, dy, c, pac, pal, pw);
    lemma_form_on_line(ca, cb, s, px, py, dx, dy, c, qac, qal, qw);
    let fp = form(a, b, s, previous.x as int, previous.y as int, pw);
    let fq = form(a, b, s, current.x as int, current.y as int, qw);
    assert(fp == form(ca, cb, s, pac, pal, pw));
    assert(fq == form(ca, cb, s, qac, qal, qw));
    let rp = edge.reach(previous);
    let rq = edge.reach(current);
    assert(rp == pac - c * pw);
    assert(rq == qac - c * qw);
    let fm = form(a, b, s, met.x as int, met.y as int, met.w as int);
    let sum_p = pw * m + rp * k;
    let sum_q = qw * m + rq * k;
    assert(dx * fp == sum_p);
    assert(dx * fq == sum_q);
    if dx > 0 {
        assert(fm == m);
        if strict {
            assert(sum_p < 0) by (nonlinear_arith)
                requires
                    dx * fp == sum_p,
                    dx > 0,
                    fp < 0,
            ;
            assert(sum_q < 0) by (nonlinear_arith)
                requires
                    dx * fq == sum_q,
                    dx > 0,
                    fq < 0,
            ;
            if rp >= 0 && rq <= 0 {
                lemma_straddle_below(m, k, pw, rp, qw, rq);
            } else {
                lemma_straddle_below(m, k, qw, rq, pw, rp);
            }
        } else {
            assert(sum_p <= 0) by (nonlinear_arith)
                requires
                    dx * fp == sum_p,
                    dx > 0,
                    fp <= 0,
            ;
            assert(sum_q <= 0) by (nonlinear_arith)
                requires
                    dx * fq == sum_q,
                    dx > 0,
                    fq <= 0,
            ;
            if rp >= 0 && rq <= 0 {
                lemma_straddle_at_most(m, k, pw, rp, qw, rq);
            } else {
                lemma_straddle_at_most(m, k, qw, rq, pw, rp);
            }
        }
    } else {
        assert(fm == -m);
        let neg_p = pw * (-m) + rp * (-k);
        let neg_q = qw * (-m) + rq * (-k);
        assert(neg_p == -sum_p) by (nonlinear_arith)
            requires
                neg_p == pw * (-m) + rp * (-k),
                sum_p == pw * m + rp * k,
        ;
        assert(neg_q == -sum_q) by (nonlinear_arith)
            requires
                neg_q == qw * (-m) + rq * (-k),
                sum_q == qw * m + rq * k,
        ;
        if strict {
            assert(sum_p > 0) by (nonlinear_arith)
                requires
                    dx * fp == sum_p,
                    dx < 0,
                    fp < 0,
            ;
            assert(sum_q > 0) by (nonlinear_arith)
                requires
                    dx * fq == sum_q,
                    dx < 0,
                    fq < 0,
            ;
            if rp >= 0 && rq <= 0 {
                lemma_straddle_below(-m, -k, pw, rp, qw, rq);
            } else {
                lemma_straddle_below(-m, -k, qw, rq, pw, rp);
            }
        } else {
            assert(sum_p >= 0) by (nonlinear_arith)
                requires
                    dx * fp == sum_p,
                    dx < 0,
                    fp <= 0,
            ;
            assert(sum_q >= 0) by (nonlinear_arith)
                requires
                    dx * fq == sum_q,
                    dx < 0,
                    fq <= 0,
            ;
            if rp >= 0 && rq <= 0 {
                lemma_straddle_at_most(-m, -k, pw, rp, qw, rq);
            } else {
                lemma_straddle_at_most(-m, -k, qw, rq, pw, rp);
            }
        }
    }
}

/// A pass never produces a vertex on the far side of a line that has the
/// whole input on its near side: it keeps vertices and adds points of
/// segments between them.
pub proof fn lemma_prefix_at_most(
    nodes: Seq<Node>,
    edge: Edge,
    k: nat,
    a: int,
    b: int,
    s: int,
    strict: bool,
)
    requires
        all_at_most(nodes, a, b, s, strict),
        k <= nodes.len(),
    ensures
        all_at_most(clip_prefix(nodes, edge, k), a, b, s, strict),
    decreases k,
{
    if k > 0 {
        lemma_prefix_at_most(nodes, edge, (k - 1) as nat, a, b, s, strict);
        let previous = before(nodes, k - 1);
        let current = nodes[k - 1];
        assert(at_most(previous, a, b, s, strict));
        assert(at_most(current, a, b, s, strict));
        if edge.meets(previous, current) {
            lemma_meeting_at_most(edge, previous, current, a, b, s, strict);
        }
        let earlier = clip_prefix(nodes, edge, (k - 1) as nat);
        let added = edge.emitted(previous, current);
        assert forall|i: int| 0 <= i < (earlier + added).len() implies at_most(
            #[trigger] (earlier + added)[i],
            a,
            b,
            s,
            strict,
        ) by {
            if i < earlier.len() {
                assert((earlier + added)[i] == earlier[i]);
            } else {
                assert((earlier + added)[i] == added[i - earlier.len()]);
            }
        }
    }
}

/// The passes against the first `k` sides keep the polygon on the near side
/// of any line that had it there.
pub proof fn lemma_sides_at_most(
    nodes: Seq<Node>,
    mask: Rectangle,
    k: nat,
    a: int,
    b: int,
    s: int,
    strict: bool,
)
    requires
        all_at_most(nodes, a, b, s, strict),
    ensures
        all_at_most(clip_sides(nodes, mask, k), a, b, s, strict),
    decreases k,
{
    if k > 0 {
        lemma_sides_at_most(nodes, mask, (k - 1) as nat, a, b, s, strict);
        let earlier = clip_sides(nodes, mask, (k - 1) as nat);
        lemma_prefix_at_most(earlier, mask.side(k - 1), earlier.len(), a, b, s, strict);
    }
}

/// The first coefficient of the form that is at most zero on the inner side
/// of side `k`, border included.
pub open spec fn side_a(k: int) -> int {
    if k == 0 {
        -1
    } else if k == 2 {
        1
    } else {
        0
    }
}

/// The second coefficient of that form.
pub open spec fn side_b(k: int) -> int {
    if k == 1 {
        1
    } else if k == 3 {
        -1
    } else {
        0
    }
}

/// The constant of that form.
pub open spec fn side_s(mask: Rectangle, k: int) -> int {
    if k == 0 {
        mask.0.x as int
    } else if k == 1 {
        -mask.1.y
    } else if k == 2 {
        -mask.1.x
    } else {
        mask.0.y as int
    }
}

/// For a side of a proper mask, the form of the side is the reach, turned so
/// that it is negative where the side holds.
pub proof fn lemma_side_form(mask: Rectangle, k: int, node: Node)
    requires
        mask.is_proper(),
        0 <= k < 4,
    ensures
        mask.side(k).live(),
        mask.side(k).inward() != 0,
        mask.side(k).inward() > 0 ==> form(
            side_a(k),
            side_b(k),
            side_s(mask, k),
            node.x as int,
            node.y as int,
            node.w as int,
        ) == -mask.side(k).reach(node),
        mask.side(k).inward() < 0 ==> form(
            side_a(k),
            side_b(k),
            side_s(mask, k),
            node.x as int,
            node.y as int,
            node.w as int,
        ) == mask.side(k).reach(node),
{
    let w = node.w as int;
    let c = mask.side(k).line();
    assert((-c) * w == -(c * w)) by (nonlinear_arith);
}

/// Whatever a pass against a side of a proper mask produces lies on the
/// side's line or strictly inside it.
pub proof fn lemma_prefix_lands_inside(nodes: Seq<Node>, mask: Rectangle, k: int, j: nat)
    requires
        mask.is_proper(),
        0 <= k < 4,
        j <= nodes.len(),
        forall|i: int| 0 <= i < nodes.len() ==> (#[trigger] nodes[i]).w > 0,
    ensures
        all_at_most(
            clip_prefix(nodes, mask.side(k), j),
            side_a(k),
            side_b(k),
            side_s(mask, k),
            false,
        ),
    decreases j,
{
    let edge = mask.side(k);
    if j > 0 {
        lemma_prefix_lands_inside(nodes, mask, k, (j - 1) as nat);
        let previous = before(nodes, j - 1);
        let current = nodes[j - 1];
        assert(current.w > 0);
        lemma_side_form(mask, k, current);
        if edge.meets(previous, current) {
            let met = edge.meeting(previous, current);
            lemma_meeting_fields(edge, previous, current);
            lemma_side_form(mask, k, met);
            assert(edge.reach(met) == 0);
        }
        let earlier = clip_prefix(nodes, edge, (j - 1) as nat);
        let added = edge.emitted(previous, current);
        assert forall|i: int| 0 <= i < (earlier + added).len() implies at_most(
            #[trigger] (earlier + added)[i],
            side_a(k),
            side_b(k),
            side_s(mask, k),
            false,
        ) by {
            if i < earlier.len() {
                assert((earlier + added)[i] == earlier[i]);
            } else {
                assert((earlier + added)[i] == added[i - earlier.len()]);
            }
        }
    }
}

/// Against a side that holds the whole polygon, a pass copies the vertices
/// it has visited.
pub proof fn lemma_prefix_identity(nodes: Seq<Node>, edge: Edge, j: nat)
    requires
        forall|i: int| 0 <= i < nodes.len() ==> edge.holds(#[trigger] nodes[i]),
        j <= nodes.len(),
    ensures
        clip_prefix(nodes, edge, j) == nodes.take(j as int),
    decreases j,
{
    if j > 0 {
        lemma_prefix_identity(nodes, edge, (j - 1) as nat);
        let previous = before(nodes, j - 1);
        let current = nodes[j - 1];
        assert(edge.holds(previous));
        assert(edge.holds(current));
        assert(edge.emitted(previous, current) == seq![current]);
        assert(nodes.take(j - 1) + seq![current] == nodes.take(j as int));
    } else {
        assert(clip_prefix(nodes, edge, 0) == nodes.take(0));
    }
}

/// Every vertex of a polygon on the grid has a positive denominator.
pub proof fn lemma_given_positive(poly: Seq<Point>)
    ensures
        forall|i: int| 0 <= i < given(poly).len() ==> (#[trigger] given(poly)[i]).w > 0,
{
}

/// A form that is negative, or at most zero, at every grid point of a
/// polygon is so at every vertex that clipping starts from.
pub proof fn lemma_given_at_most(poly: Seq<Point>, a: int, b: int, s: int, strict: bool)
    requires
        forall|i: int|
            0 <= i < poly.len() ==> if strict {
                a * (#[trigger] poly[i]).x + b * poly[i].y + s < 0
            } else {
                a * poly[i].x + b * poly[i].y + s <= 0
            },
    ensures
        all_at_most(given(poly), a, b, s, strict),
{
    assert forall|i: int| 0 <= i < given(poly).len() implies at_most(
        #[trigger] given(poly)[i],
        a,
        b,
        s,
        strict,
    ) by {
        let pt = poly[i];
        let node = given(poly)[i];
        assert(node.x == pt.x && node.y == pt.y && node.w == 1);
        assert(s * 1 == s);
    }
}

/// Clipping the empty polygon gives the empty polygon.
pub proof fn lemma_clip_empty(mask: Rectangle)
    ensures
        clipped(Seq::<Point>::empty(), mask) == Seq::<Point>::empty(),
{
    reveal_with_fuel(clip_sides, 5);
    assert(given(Seq::<Point>::empty()) == Seq::<Node>::empty());
}

/// Every vertex that the passes leave lies within the grid, so that it can
/// be rounded to a grid point.
pub proof fn lemma_clip_fits(poly: Seq<Point>, mask: Rectangle)
    ensures
        forall|j: int|
            0 <= j < clip_sides(given(poly), mask, 4).len() ==> (#[trigger] clip_sides(
                given(poly),
                mask,
                4,
            )[j]).fits(),
{
    let max = i32::MAX as int;
    let min = i32::MIN as int;
    let left = clip_sides(given(poly), mask, 4);
    lemma_given_at_most(poly, 1, 0, -max, false);
    lemma_given_at_most(poly, -1, 0, min, false);
    lemma_given_at_most(poly, 0, 1, -max, false);
    lemma_given_at_most(poly, 0, -1, min, false);
    lemma_sides_at_most(given(poly), mask, 4, 1, 0, -max, false);
    lemma_sides_at_most(given(poly), mask, 4, -1, 0, min, false);
    lemma_sides_at_most(given(poly), mask, 4, 0, 1, -max, false);
    lemma_sides_at_most(given(poly), mask, 4, 0, -1, min, false);
    assert forall|j: int| 0 <= j < left.len() implies (#[trigger] left[j]).fits() by {
        let node = left[j];
        let w = node.w as int;
        assert(at_most(node, 1, 0, -max, false));
        assert(at_most(node, -1, 0, min, false));
        assert(at_most(node, 0, 1, -max, false));
        assert(at_most(node, 0, -1, min, false));
        assert((-max) * w == -(max * w)) by (nonlinear_arith);
    }
}

/// Identity clip: a polygon whose vertices all lie in the open interior of a
/// proper mask is returned unchanged, vertex for vertex.
pub proof fn lemma_clip_identity(poly: Seq<Point>, mask: Rectangle)
    requires
        mask.is_proper(),
        all_surrounded(poly, mask),
    ensures
        clipped(poly, mask) == poly,
{
    reveal_with_fuel(clip_sides, 5);
    let nodes = given(poly);
    assert forall|i: int| 0 <= i < nodes.len() implies mask.side(0).holds(#[trigger] nodes[i])
        && mask.side(1).holds(nodes[i]) && mask.side(2).holds(nodes[i]) && mask.side(3).holds(
        nodes[i],
    ) by {
        assert(mask.surrounds(poly[i]));
        assert(nodes[i].w == 1);
    }
    lemma_prefix_identity(nodes, mask.side(0), nodes.len());
    assert(nodes.take(nodes.len() as int) == nodes);
    lemma_prefix_identity(nodes, mask.side(1), nodes.len());
    lemma_prefix_identity(nodes, mask.side(2), nodes.len());
    lemma_prefix_identity(nodes, mask.side(3), nodes.len());
    assert(clip_sides(nodes, mask, 4) == nodes);
    assert forall|i: int| 0 <= i < poly.len() implies (#[trigger] nodes[i]).rounded()
        == poly[i] by {
        assert(nodes[i].x == poly[i].x && nodes[i].y == poly[i].y && nodes[i].w == 1);
        lemma_nearest_exact(poly[i].x as int, 1);
        lemma_nearest_exact(poly[i].y as int, 1);
    }
    assert(rounded_all(nodes) == poly);
}

/// Every vertex of a polygon clipped against a proper mask lies in the
/// closed mask.
pub proof fn lemma_clip_covered(poly: Seq<Point>, mask: Rectangle)
    requires
        mask.is_proper(),
    ensures
        all_covered(clipped(poly, mask), mask),
        forall|j: int|
            0 <= j < clip_sides(given(poly), mask, 4).len() ==> inside_mask(
                #[trigger] clip_sides(given(poly), mask, 4)[j],
                mask,
            ),
{
    reveal_with_fuel(clip_sides, 5);
    let s0 = given(poly);
    let s1 = clip_edge(s0, mask.side(0));
    let s2 = clip_edge(s1, mask.side(1));
    let s3 = clip_edge(s2, mask.side(2));
    let s4 = clip_edge(s3, mask.side(3));
    lemma_given_positive(poly);
    lemma_prefix_lands_inside(s0, mask, 0, s0.len());
    assert forall|i: int| 0 <= i < s1.len() implies (#[trigger] s1[i]).w > 0 by {
        assert(at_most(s1[i], side_a(0), side_b(0), side_s(mask, 0), false));
    }
    lemma_prefix_lands_inside(s1, mask, 1, s1.len());
    assert forall|i: int| 0 <= i < s2.len() implies (#[trigger] s2[i]).w > 0 by {
        assert(at_most(s2[i], side_a(1), side_b(1), side_s(mask, 1), false));
    }
    lemma_prefix_lands_inside(s2, mask, 2, s2.len());
    assert forall|i: int| 0 <= i < s3.len() implies (#[trigger] s3[i]).w > 0 by {
        assert(at_most(s3[i], side_a(2), side_b(2), side_s(mask, 2), false));
    }
    lemma_prefix_lands_inside(s3, mask, 3, s3.len());
    lemma_prefix_at_most(s1, mask.side(1), s1.len(), side_a(0), side_b(0), side_s(mask, 0), false);
    lemma_prefix_at_most(s2, mask.side(2), s2.len(), side_a(0), side_b(0), side_s(mask, 0), false);
    lemma_prefix_at_most(s3, mask.side(3), s3.len(), side_a(0), side_b(0), side_s(mask, 0), false);
    lemma_prefix_at_most(s2, mask.side(2), s2.len(), side_a(1), side_b(1), side_s(mask, 1), false);
    lemma_prefix_at_most(s3, mask.side(3), s3.len(), side_a(1), side_b(1), side_s(mask, 1), false);
    lemma_prefix_at_most(s3, mask.side(3), s3.len(), side_a(2), side_b(2), side_s(mask, 2), false);
    assert forall|j: int| 0 <= j < s4.len() implies inside_mask(#[trigger] s4[j], mask) by {
        let node = s4[j];
        let w = node.w as int;
        assert(at_most(node, side_a(0), side_b(0), side_s(mask, 0), false));
        assert(at_most(node, side_a(1), side_b(1), side_s(mask, 1), false));
        assert(at_most(node, side_a(2), side_b(2), side_s(mask, 2), false));
        assert(at_most(node, side_a(3), side_b(3), side_s(mask, 3), false));
        assert((-mask.1.y) * w == -(mask.1.y * w)) by (nonlinear_arith);
        assert((-mask.1.x) * w == -(mask.1.x * w)) by (nonlinear_arith);
    }
    let out = clipped(poly, mask);
    assert forall|j: int| 0 <= j < out.len() implies mask.covers(#[trigger] out[j]) by {
        let node = s4[j];
        assert(inside_mask(node, mask));
        lemma_nearest_between(node.x as int, node.w as int, mask.0.x as int, mask.1.x as int);
        lemma_nearest_between(node.y as int, node.w as int, mask.0.y as int, mask.1.y as int);
        assert(out[j] == node.rounded());
    }
}

/// Whether the exact position of the vertex lies in the closed mask.
pub open spec fn inside_mask(node: Node, mask: Rectangle) -> bool {
    &&& node.w > 0
    &&& mask.0.x * node.w <= node.x <= mask.1.x * node.w
    &&& mask.0.y * node.w <= node.y <= mask.1.y * node.w
}

/// A linear form that is positive at the four corners of a rectangle is
/// positive at every point of the rectangle.
pub proof fn lemma_form_over_mask(node: Node, mask: Rectangle, a: int, b: int, s: int)
    requires
        inside_mask(node, mask),
        a * mask.0.x + b * mask.0.y + s > 0,
        a * mask.0.x + b * mask.1.y + s > 0,
        a * mask.1.x + b * mask.0.y + s > 0,
        a * mask.1.x + b * mask.1.y + s > 0,
    ensures
        form(a, b, s, node.x as int, node.y as int, node.w as int) > 0,
{
    let x = node.x as int;
    let y = node.y as int;
    let w = node.w as int;
    let cx = if a >= 0 {
        mask.0.x as int
    } else {
        mask.1.x as int
    };
    let cy = if b >= 0 {
        mask.0.y as int
    } else {
        mask.1.y as int
    };
    let cxw = cx * w;
    let cyw = cy * w;
    assert(a * x >= a * cxw) by (nonlinear_arith)
        requires
            (a >= 0 && x >= cxw) || (a < 0 && x <= cxw),
    ;
    assert(b * y >= b * cyw) by (nonlinear_arith)
        requires
            (b >= 0 && y >= cyw) || (b < 0 && y <= cyw),
    ;
    let corner = a * cx + b * cy + s;
    let acx = a * cx;
    let bcy = b * cy;
    assert(a * cxw == acx * w) by (nonlinear_arith)
        requires
            cxw == cx * w,
            acx == a * cx,
    ;
    assert(b * cyw == bcy * w) by (nonlinear_arith)
        requires
            cyw == cy * w,
            bcy == b * cy,
    ;
    assert(corner * w == acx * w + bcy * w + s * w) by (nonlinear_arith)
        requires
            corner == acx + bcy + s,
    ;
    assert(corner * w > 0) by (nonlinear_arith)
        requires
            corner > 0,
            w > 0,
    ;
}

/// Empty-intersection clip: a polygon that a line parts from a proper mask,
/// with every vertex strictly on one side of the line and the four corners
/// of the mask strictly on the other, clips to nothing.
pub proof fn lemma_clip_parted(poly: Seq<Point>, mask: Rectangle, a: int, b: int, s: int)
    requires
        mask.is_proper(),
        parted(poly, mask, a, b, s),
    ensures
        clipped(poly, mask) == Seq::<Point>::empty(),
{
    let left = clip_sides(given(poly), mask, 4);
    lemma_given_at_most(poly, a, b, s, true);
    lemma_sides_at_most(given(poly), mask, 4, a, b, s, true);
    lemma_clip_covered(poly, mask);
    if left.len() > 0 {
        let node = left[0];
        assert(at_most(node, a, b, s, true));
        assert(inside_mask(node, mask));
        lemma_form_over_mask(node, mask, a, b, s);
    }
    assert(rounded_all(left) == Seq::<Point>::empty());
}

/// A polygon whose bounding box misses a proper mask is parted from it by
/// the line of the side that it lies beyond, and so clips to nothing.
pub proof fn lemma_clip_separated(poly: Seq<Point>, mask: Rectangle)
    requires
        mask.is_proper(),
        separated(poly, mask),
    ensures
        clipped(poly, mask) == Seq::<Point>::empty(),
{
    let min = i32::MIN as int;
    let max = i32::MAX as int;
    if within(poly, min, mask.0.x - 1, min, max) {
        assert forall|i: int| 0 <= i < poly.len() implies 2 * (#[trigger] poly[i]).x + 0
            * poly[i].y + (1 - 2 * mask.0.x) < 0 by {
            assert(in_box(poly[i], min, mask.0.x - 1, min, max));
        }
        lemma_clip_parted(poly, mask, 2, 0, 1 - 2 * mask.0.x);
    } else if within(poly, mask.1.x + 1, max, min, max) {
        assert forall|i: int| 0 <= i < poly.len() implies (-2) * (#[trigger] poly[i]).x + 0
            * poly[i].y + (2 * mask.1.x + 1) < 0 by {
            assert(in_box(poly[i], mask.1.x + 1, max, min, max));
        }
        lemma_clip_parted(poly, mask, -2, 0, 2 * mask.1.x + 1);
    } else if within(poly, min, max, min, mask.0.y - 1) {
        assert forall|i: int| 0 <= i < poly.len() implies 0 * (#[trigger] poly[i]).x + 2
            * poly[i].y + (1 - 2 * mask.0.y) < 0 by {
            assert(in_box(poly[i], min, max, min, mask.0.y - 1));
        }
        lemma_clip_parted(poly, mask, 0, 2, 1 - 2 * mask.0.y);
    } else {
        assert forall|i: int| 0 <= i < poly.len() implies 0 * (#[trigger] poly[i]).x + (-2)
            * poly[i].y + (2 * mask.1.y + 1) < 0 by {
            assert(in_box(poly[i], min, max, mask.1.y + 1, max));
        }
        lemma_clip_parted(poly, mask, 0, -2, 2 * mask.1.y + 1);
    }
}

/// Every vertex that a pass produces is a vertex that it was given or lies
/// on the side's line.
pub proof fn lemma_prefix_origin(nodes: Seq<Node>, edge: Edge, j: nat)
    requires
        j <= nodes.len(),
    ensures
        forall|i: int|
            0 <= i < clip_prefix(nodes, edge, j).len() ==> nodes.contains(
                #[trigger] clip_prefix(nodes, edge, j)[i],
            ) || (edge.reach(clip_prefix(nodes, edge, j)[i]) == 0 && clip_prefix(
                nodes,
                edge,
                j,
            )[i].w > 0),
    decreases j,
{
    if j > 0 {
        lemma_prefix_origin(nodes, edge, (j - 1) as nat);
        let previous = before(nodes, j - 1);
        let current = nodes[j - 1];
        assert(nodes.contains(current));
        if edge.meets(previous, current) {
            lemma_meeting_fields(edge, previous, current);
        }
        let earlier = clip_prefix(nodes, edge, (j - 1) as nat);
        let added = edge.emitted(previous, current);
        assert forall|i: int| 0 <= i < (earlier + added).len() implies nodes.contains(
            #[trigger] (earlier + added)[i],
        ) || (edge.reach((earlier + added)[i]) == 0 && (earlier + added)[i].w > 0) by {
            if i < earlier.len() {
                assert((earlier + added)[i] == earlier[i]);
            } else {
                assert((earlier + added)[i] == added[i - earlier.len()]);
            }
        }
    }
}

/// What a pass has produced after `j` vertices is still there after more.
pub proof fn lemma_prefix_grows(nodes: Seq<Node>, edge: Edge, j: nat, later: nat)
    requires
        j <= later,
    ensures
        clip_prefix(nodes, edge, j).is_prefix_of(clip_prefix(nodes, edge, later)),
    decreases later,
{
    if j < later {
        lemma_prefix_grows(nodes, edge, j, (later - 1) as nat);
    }
}

/// A pass keeps every vertex that its side holds.
pub proof fn lemma_pass_keeps_held(nodes: Seq<Node>, edge: Edge, i: int)
    requires
        0 <= i < nodes.len(),
        edge.holds(nodes[i]),
    ensures
        clip_edge(nodes, edge).contains(nodes[i]),
{
    let upto = clip_prefix(nodes, edge, (i + 1) as nat);
    let all = clip_edge(nodes, edge);
    let added = edge.emitted(before(nodes, i), nodes[i]);
    assert(added.last() == nodes[i]);
    assert(upto.last() == nodes[i]);
    lemma_prefix_grows(nodes, edge, (i + 1) as nat, nodes.len());
    assert(all[upto.len() - 1] == upto[upto.len() - 1]);
}

/// A vertex on the line of a side of a proper mask is rounded to a grid
/// point on that line, which is not in the open interior.
pub proof fn lemma_on_line_rounds_to_border(mask: Rectangle, k: int, node: Node)
    requires
        mask.is_proper(),
        0 <= k < 4,
        node.w > 0,
        mask.side(k).reach(node) == 0,
    ensures
        !mask.surrounds(node.rounded()),
{
    let c = mask.side(k).line();
    lemma_nearest_exact(c, node.w as int);
}

/// Every vertex of the clipped polygon that lies in the open interior of a
/// proper mask is a vertex of the polygon that was given: clipping adds
/// vertices on the border of the mask only.
pub proof fn lemma_clip_adds_on_border_only(poly: Seq<Point>, mask: Rectangle)
    requires
        mask.is_proper(),
    ensures
        adds_on_border_only(poly, clipped(poly, mask), mask),
{
    reveal_with_fuel(clip_sides, 5);
    let s0 = given(poly);
    let s1 = clip_edge(s0, mask.side(0));
    let s2 = clip_edge(s1, mask.side(1));
    let s3 = clip_edge(s2, mask.side(2));
    let s4 = clip_edge(s3, mask.side(3));
    let out = clipped(poly, mask);
    lemma_prefix_origin(s0, mask.side(0), s0.len());
    lemma_prefix_origin(s1, mask.side(1), s1.len());
    lemma_prefix_origin(s2, mask.side(2), s2.len());
    lemma_prefix_origin(s3, mask.side(3), s3.len());
    assert forall|i: int| 0 <= i < out.len() && mask.surrounds(#[trigger] out[i]) implies poly.contains(
        out[i],
    ) by {
        let node = s4[i];
        assert(out[i] == node.rounded());
        if !s3.contains(node) {
            lemma_on_line_rounds_to_border(mask, 3, node);
        }
        let i3 = choose|n: int| 0 <= n < s3.len() && s3[n] == node;
        if !s2.contains(s3[i3]) {
            lemma_on_line_rounds_to_border(mask, 2, node);
        }
        let i2 = choose|n: int| 0 <= n < s2.len() && s2[n] == node;
        if !s1.contains(s2[i2]) {
            lemma_on_line_rounds_to_border(mask, 1, node);
        }
        let i1 = choose|n: int| 0 <= n < s1.len() && s1[n] == node;
        if !s0.contains(s1[i1]) {
            lemma_on_line_rounds_to_border(mask, 0, node);
        }
        let i0 = choose|n: int| 0 <= n < s0.len() && s0[n] == node;
        assert(node.x == poly[i0].x && node.y == poly[i0].y && node.w == 1);
        lemma_nearest_exact(poly[i0].x as int, 1);
        lemma_nearest_exact(poly[i0].y as int, 1);
        assert(out[i] == poly[i0]);
    }
}

/// Every vertex of a polygon that lies in the open interior of a proper mask
/// is a vertex of the clipped polygon.
pub proof fn lemma_clip_keeps_inner(poly: Seq<Point>, mask: Rectangle)
    requires
        mask.is_proper(),
    ensures
        keeps_inner(poly, clipped(poly, mask), mask),
{
    reveal_with_fuel(clip_sides, 5);
    let s0 = given(poly);
    let s1 = clip_edge(s0, mask.side(0));
    let s2 = clip_edge(s1, mask.side(1));
    let s3 = clip_edge(s2, mask.side(2));
    let s4 = clip_edge(s3, mask.side(3));
    let out = clipped(poly, mask);
    assert forall|i: int| 0 <= i < poly.len() && mask.surrounds(#[trigger] poly[i]) implies out.contains(
        poly[i],
    ) by {
        let node = s0[i];
        assert(node.x == poly[i].x && node.y == poly[i].y && node.w == 1);
        assert(mask.side(0).holds(node) && mask.side(1).holds(node) && mask.side(2).holds(node)
            && mask.side(3).holds(node));
        lemma_pass_keeps_held(s0, mask.side(0), i);
        let i1 = choose|n: int| 0 <= n < s1.len() && s1[n] == node;
        lemma_pass_keeps_held(s1, mask.side(1), i1);
        let i2 = choose|n: int| 0 <= n < s2.len() && s2[n] == node;
        lemma_pass_keeps_held(s2, mask.side(2), i2);
        let i3 = choose|n: int| 0 <= n < s3.len() && s3[n] == node;
        lemma_pass_keeps_held(s3, mask.side(3), i3);
        let i4 = choose|n: int| 0 <= n < s4.len() && s4[n] == node;
        lemma_nearest_exact(poly[i].x as int, 1);
        lemma_nearest_exact(poly[i].y as int, 1);
        assert(out[i4] == poly[i]);
    }
}

} // verus!
