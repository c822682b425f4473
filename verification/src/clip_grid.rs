//! How the tests on grid points relate to a clipping pass: for a side that
//! runs straight up or straight across, `Edge::contains` and
//! `Edge::intersect` decide and compute on a grid segment what a pass decides
//! and computes on the exact vertices that stand for its ends.

use vstd::prelude::*;
use vstd::arithmetic::div_mod::lemma_fundamental_div_mod;
use crate::clip_laws::lemma_meeting_fields;
use crate::clip_laws::lemma_nearest_exact;
use crate::clip_lines::cut_by;
use crate::hours_of_dark::across_of;
use crate::hours_of_dark::along_of;
use crate::hours_of_dark::nearest;
use crate::hours_of_dark::Edge;
use crate::hours_of_dark::Node;
use crate::interpolate::lemma_floor;
use crate::interpolate::lerp;
use crate::point::Point;

verus! {

/// The vertex that stands for the grid point `to`, reached from `from`.
pub open spec fn grid_node(from: Point, to: Point) -> Node {
    Node { x: to.x as i128, y: to.y as i128, w: 1, from, to }
}

/// Whether the side runs straight up or straight across, with its inner
/// side square to it.
pub open spec fn squared(edge: Edge) -> bool {
    edge.upright() || (edge.end.y == edge.position.y && edge.interior.x == edge.position.x)
}

/// The factor by which the side's offset exceeds the reach.
pub open spec fn stretch(edge: Edge) -> int {
    if edge.upright() {
        edge.end.y - edge.position.y
    } else {
        edge.position.x - edge.end.x
    }
}

/// For a squared side, depth and offset of a grid point are its reach times
/// the inward distance and times the stretch.
pub proof fn lemma_squared_forms(edge: Edge, from: Point, pt: Point)
    requires
        squared(edge),
    ensures
        edge.depth(pt) == edge.reach(grid_node(from, pt)) * edge.inward(),
        edge.offset(pt) == stretch(edge) * edge.reach(grid_node(from, pt)),
        edge.live() == (stretch(edge) != 0),
{
    let r = edge.reach(grid_node(from, pt));
    let ax = pt.x - edge.position.x;
    let ay = pt.y - edge.position.y;
    let ix = edge.interior.x - edge.position.x;
    let iy = edge.interior.y - edge.position.y;
    let dx = edge.end.x - edge.position.x;
    let dy = edge.end.y - edge.position.y;
    assert(edge.line() * 1 == edge.line());
    if edge.upright() {
        assert(r == ax);
        assert(ay * iy == 0) by (nonlinear_arith)
            requires
                iy == 0,
        ;
        assert(dx * (-ay) == 0) by (nonlinear_arith)
            requires
                dx == 0,
        ;
        assert(dy * (-ax) == -(dy * ax)) by (nonlinear_arith);
        assert(edge.offset(pt) == dx * (-ay) - dy * (-ax));
    } else {
        assert(r == ay);
        assert(ax * ix == 0) by (nonlinear_arith)
            requires
                ix == 0,
        ;
        assert(dy * (-ax) == 0) by (nonlinear_arith)
            requires
                dy == 0,
        ;
        assert(dx * (-ay) == (-dx) * ay) by (nonlinear_arith);
        assert(edge.offset(pt) == dx * (-ay) - dy * (-ax));
    }
}

/// A product is positive exactly where its factors have the same sign.
proof fn lemma_product_sign(a: int, b: int)
    ensures
        a * b > 0 <==> (a > 0 && b > 0) || (a < 0 && b < 0),
        a * b < 0 <==> (a > 0 && b < 0) || (a < 0 && b > 0),
        a * b == 0 <==> a == 0 || b == 0,
{
    assert((a * b > 0 <==> (a > 0 && b > 0) || (a < 0 && b < 0)) && (a * b < 0 <==> (a > 0 && b
        < 0) || (a < 0 && b > 0)) && (a * b == 0 <==> a == 0 || b == 0)) by (nonlinear_arith);
}

/// On grid points, a squared side contains what a pass holds.
pub proof fn lemma_contains_is_holds(edge: Edge, from: Point, pt: Point)
    requires
        squared(edge),
    ensures
        edge.contains_spec(pt) == edge.holds(grid_node(from, pt)),
{
    lemma_squared_forms(edge, from, pt);
    lemma_product_sign(edge.reach(grid_node(from, pt)), edge.inward());
}

/// On grid segments, a squared side crosses what its line cuts.
pub proof fn lemma_crosses_is_cut(edge: Edge, p: Point, q: Point, before: Point)
    requires
        squared(edge),
    ensures
        edge.crosses(p, q) == cut_by(edge, grid_node(before, p), grid_node(p, q)),
        edge.determinant(p, q) == stretch(edge) * (edge.reach(grid_node(p, q)) - edge.reach(
            grid_node(before, p),
        )),
{
    lemma_squared_forms(edge, before, p);
    lemma_squared_forms(edge, p, q);
    let f = stretch(edge);
    let rp = edge.reach(grid_node(before, p));
    let rq = edge.reach(grid_node(p, q));
    let op = edge.offset(p);
    let oq = edge.offset(q);
    let det = edge.determinant(p, q);
    let bx = edge.direction().0;
    let by = edge.direction().1;
    let u = p.y - q.y;
    let v = p.x - q.x;
    let ay = edge.position.y - q.y;
    let ay2 = edge.position.y - p.y;
    let ax = edge.position.x - q.x;
    let ax2 = edge.position.x - p.x;
    assert(bx * u == bx * ay - bx * ay2) by (nonlinear_arith)
        requires
            u == ay - ay2,
    ;
    assert(by * v == by * ax - by * ax2) by (nonlinear_arith)
        requires
            v == ax - ax2,
    ;
    assert(det == oq - op);
    assert(f * (rq - rp) == f * rq - f * rp) by (nonlinear_arith);
    lemma_product_sign(f, rq);
    lemma_product_sign(f, rp);
    lemma_product_sign(f, rq - rp);
}

/// Rounding does not depend on the scale of numerator and denominator.
pub proof fn lemma_nearest_scaled(n: int, w: int, k: int)
    requires
        w > 0,
        k > 0,
    ensures
        nearest(k * n, k * w) == nearest(n, w),
{
    let r = nearest(n, w);
    lemma_fundamental_div_mod(2 * n + w, 2 * w);
    let rem = (2 * n + w) % (2 * w);
    let kw = k * w;
    let kn = k * n;
    let wr = w * r;
    assert(2 * n + w == 2 * wr + rem) by (nonlinear_arith)
        requires
            2 * n + w == (2 * w) * r + rem,
            wr == w * r,
    ;
    assert(k * (2 * n + w) == 2 * kn + kw) by (nonlinear_arith)
        requires
            kn == k * n,
            kw == k * w,
    ;
    let krem = k * rem;
    let kwr = k * wr;
    assert(k * (2 * wr + rem) == 2 * kwr + krem) by (nonlinear_arith)
        requires
            kwr == k * wr,
            krem == k * rem,
    ;
    assert(kwr == kw * r) by (nonlinear_arith)
        requires
            kwr == k * wr,
            wr == w * r,
            kw == k * w,
    ;
    assert(0 <= krem < 2 * kw) by (nonlinear_arith)
        requires
            krem == k * rem,
            kw == k * w,
            0 <= rem < 2 * w,
            k > 0,
    ;
    assert((2 * kw) * r == 2 * (kw * r)) by (nonlinear_arith);
    lemma_floor(2 * kn + kw, 2 * kw, r);
}

/// Interpolating with the weights `n` and `d - n` is rounding the weighted
/// sum over `d`.
pub proof fn lemma_lerp_is_nearest(n: int, d: int, p: int, q: int)
    ensures
        lerp(n, d, p, q) == nearest(n * p + (d - n) * q, d),
{
}

/// The weighted sums that `Edge::intersect` rounds are, up to a common
/// positive factor, the numbers of the meeting that a pass computes.
proof fn lemma_weights(
    g: int,
    sign: int,
    c: int,
    pac: int,
    pal: int,
    qac: int,
    qal: int,
)
    requires
        sign == 1 || sign == -1,
    ensures
        ({
            let rp = pac - c;
            let rq = qac - c;
            let run = qac - pac;
            let scaled = run * pal + (c - pac) * (qal - pal);
            let n = g * rq;
            let d = g * run;
            let k = g * sign;
            let w = sign * run;
            &&& d == k * w
            &&& n * pac + (d - n) * qac == c * d
            &&& n * pal + (d - n) * qal == k * (sign * scaled)
        }),
{
    let rp = pac - c;
    let rq = qac - c;
    let run = qac - pac;
    let rise = qal - pal;
    let scaled = run * pal + (c - pac) * rise;
    let n = g * rq;
    let d = g * run;
    let k = g * sign;
    let w = sign * run;
    let ss = sign * sign;
    assert(ss == 1) by (nonlinear_arith)
        requires
            ss == sign * sign,
            sign == 1 || sign == -1,
    ;
    assert(k * w == g * (ss * run)) by (nonlinear_arith)
        requires
            k == g * sign,
            w == sign * run,
            ss == sign * sign,
    ;
    assert(d == k * w);
    // across
    let grp = g * rp;
    assert(d - n == -grp) by (nonlinear_arith)
        requires
            d == g * run,
            n == g * rq,
            grp == g * rp,
            run == rq - rp,
    ;
    let inner_ac = rq * pac - rp * qac;
    assert(inner_ac == c * run) by (nonlinear_arith)
        requires
            inner_ac == rq * pac - rp * qac,
            rq == qac - c,
            rp == pac - c,
            run == qac - pac,
    ;
    assert(n * pac + (-grp) * qac == g * inner_ac) by (nonlinear_arith)
        requires
            n == g * rq,
            grp == g * rp,
            inner_ac == rq * pac - rp * qac,
    ;
    assert(g * (c * run) == c * d) by (nonlinear_arith)
        requires
            d == g * run,
    ;
    // along
    let inner_al = rq * pal - rp * qal;
    assert(scaled == inner_al) by (nonlinear_arith)
        requires
            scaled == run * pal + (c - pac) * rise,
            rise == qal - pal,
            inner_al == rq * pal - rp * qal,
            rq == qac - c,
            rp == pac - c,
            run == qac - pac,
    ;
    assert(n * pal + (-grp) * qal == g * inner_al) by (nonlinear_arith)
        requires
            n == g * rq,
            grp == g * rp,
            inner_al == rq * pal - rp * qal,
    ;
    assert(k * (sign * scaled) == g * (ss * scaled)) by (nonlinear_arith)
        requires
            k == g * sign,
            ss == sign * sign,
    ;
}

/// On a grid segment that a squared side crosses, `Edge::intersect` returns
/// the meeting that a pass computes, rounded to the grid.
pub proof fn lemma_crossing_is_meeting(edge: Edge, p: Point, q: Point, before: Point)
    requires
        squared(edge),
        edge.crosses(p, q),
    ensures
        edge.crossing(p, q) == Some(
            edge.meeting(grid_node(before, p), grid_node(p, q)).rounded(),
        ),
{
    let up = edge.upright();
    let previous = grid_node(before, p);
    let current = grid_node(p, q);
    lemma_crosses_is_cut(edge, p, q, before);
    lemma_squared_forms(edge, before, p);
    lemma_squared_forms(edge, p, q);
    lemma_meeting_fields(edge, previous, current);
    let f = stretch(edge);
    let c = edge.line();
    let pac = across_of(p, up);
    let pal = along_of(p, up);
    let qac = across_of(q, up);
    let qal = along_of(q, up);
    let rp = edge.reach(previous);
    let rq = edge.reach(current);
    assert(c * 1 == c);
    assert(rp == pac - c && rq == qac - c);
    let run = qac - pac;
    let det = edge.determinant(p, q);
    let oq = edge.offset(q);
    assert(det == f * run);
    assert(oq == f * rq);
    let g = if det > 0 {
        f
    } else {
        -f
    };
    let n = if det > 0 {
        oq
    } else {
        -oq
    };
    let d = if det > 0 {
        det
    } else {
        -det
    };
    assert((-f) * run == -(f * run)) by (nonlinear_arith);
    assert((-f) * rq == -(f * rq)) by (nonlinear_arith);
    assert(n == g * rq && d == g * run);
    assert(run != 0) by (nonlinear_arith)
        requires
            d == g * run,
            d > 0,
    ;
    let sign: int = if run > 0 {
        1
    } else {
        -1
    };
    lemma_weights(g, sign, c, pac, pal, qac, qal);
    let met = edge.meeting(previous, current);
    let w = sign * run;
    let k = g * sign;
    let scaled = run * pal + (c - pac) * (qal - pal);
    let al = sign * scaled;
    assert(met.w == w);
    assert(w > 0);
    assert(k > 0) by (nonlinear_arith)
        requires
            d == k * w,
            d > 0,
            w > 0,
    ;
    let mal = if up {
        met.y as int
    } else {
        met.x as int
    };
    assert(mal == al);
    assert(met.across(up) == c * w);
    // the coordinate across the side
    lemma_lerp_is_nearest(n, d, pac, qac);
    lemma_nearest_exact(c, d);
    lemma_nearest_exact(c, w);
    assert(lerp(n, d, pac, qac) == nearest(c * w, w));
    // the coordinate along the side
    lemma_lerp_is_nearest(n, d, pal, qal);
    lemma_nearest_scaled(al, w, k);
    assert(lerp(n, d, pal, qal) == nearest(al, w));
}

} // verus!
