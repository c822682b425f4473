//! Why cutting a segment where it meets a line never leaves the segment: on
//! the line that carries the segment, every linear form changes steadily.

use vstd::prelude::*;

verus! {

/// The value of the linear form `a x + b y + s` at the point `(x / w, y / w)`,
/// scaled by `w`.
pub open spec fn form(a: int, b: int, s: int, x: int, y: int, w: int) -> int {
    a * x + b * y + s * w
}

/// The value, scaled by `dx`, that a linear form takes where the line through
/// `(px, py)` with direction `(dx, dy)` meets the line `x = c`.
pub open spec fn form_at_line(a: int, b: int, s: int, px: int, py: int, dx: int, dy: int, c: int) -> int {
    dx * form(a, b, s, px, py, 1) + (c - px) * (a * dx + b * dy)
}

/// For a point that rides the line through `(px, py)` with direction
/// `(dx, dy)`, a linear form is the form at `x = c` plus a share of the
/// form's slope that grows with the point's distance from `x = c`.
pub proof fn lemma_form_on_line(
    a: int,
    b: int,
    s: int,
    px: int,
    py: int,
    dx: int,
    dy: int,
    c: int,
    x: int,
    y: int,
    w: int,
)
    requires
        dx * (y - py * w) == dy * (x - px * w),
    ensures
        dx * form(a, b, s, x, y, w) == w * form_at_line(a, b, s, px, py, dx, dy, c) + (x - c * w)
            * (a * dx + b * dy),
{
    let xx = x - px * w;
    let yy = y - py * w;
    let k = a * dx + b * dy;
    let lp = a * px + b * py + s;
    let apx = a * px;
    let bpy = b * py;
    let tx = px * w;
    let ty = py * w;
    // the form, split at the point (px, py)
    assert(a * x == a * xx + a * tx) by (nonlinear_arith)
        requires
            x == xx + tx,
    ;
    assert(a * tx == w * apx) by (nonlinear_arith)
        requires
            tx == px * w,
            apx == a * px,
    ;
    assert(b * y == b * yy + b * ty) by (nonlinear_arith)
        requires
            y == yy + ty,
    ;
    assert(b * ty == w * bpy) by (nonlinear_arith)
        requires
            ty == py * w,
            bpy == b * py,
    ;
    assert(w * lp == w * apx + w * bpy + s * w) by (nonlinear_arith)
        requires
            lp == apx + bpy + s,
    ;
    let axx = a * xx;
    let byy = b * yy;
    let wlp = w * lp;
    assert(form(a, b, s, x, y, w) == axx + byy + wlp);
    // scaled by dx
    assert(dx * (axx + byy + wlp) == dx * axx + dx * byy + dx * wlp) by (nonlinear_arith);
    let adx = a * dx;
    let bdy = b * dy;
    assert(dx * axx == adx * xx) by (nonlinear_arith)
        requires
            axx == a * xx,
            adx == a * dx,
    ;
    let dyy = dx * yy;
    assert(dx * byy == b * dyy) by (nonlinear_arith)
        requires
            byy == b * yy,
            dyy == dx * yy,
    ;
    let dxx = dy * xx;
    assert(dyy == dxx);
    assert(b * dxx == bdy * xx) by (nonlinear_arith)
        requires
            dxx == dy * xx,
            bdy == b * dy,
    ;
    assert(adx * xx + bdy * xx == k * xx) by (nonlinear_arith)
        requires
            k == adx + bdy,
    ;
    let dlp = dx * lp;
    assert(dx * wlp == w * dlp) by (nonlinear_arith)
        requires
            wlp == w * lp,
            dlp == dx * lp,
    ;
    assert(dx * form(a, b, s, x, y, w) == k * xx + w * dlp);
    // the other side
    let off = c - px;
    let m = dlp + off * k;
    assert(form_at_line(a, b, s, px, py, dx, dy, c) == m);
    let offk = off * k;
    assert(w * m == w * dlp + w * offk) by (nonlinear_arith)
        requires
            m == dlp + offk,
    ;
    let r = x - c * w;
    let offw = off * w;
    assert(offw == c * w - px * w) by (nonlinear_arith)
        requires
            offw == off * w,
            off == c - px,
    ;
    assert(r == xx - offw);
    assert(r * k == xx * k - offw * k) by (nonlinear_arith)
        requires
            r == xx - offw,
    ;
    assert(offw * k == w * offk) by (nonlinear_arith)
        requires
            offw == off * w,
            offk == off * k,
    ;
    assert(xx * k == k * xx) by (nonlinear_arith);
}

/// If two values that straddle zero, each added to a positive multiple of
/// `m` after scaling by `k`, give sums below zero, then `m` is below zero.
pub proof fn lemma_straddle_below(m: int, k: int, wa: int, ra: int, wb: int, rb: int)
    requires
        wa > 0,
        wb > 0,
        ra >= 0,
        rb <= 0,
        wa * m + ra * k < 0,
        wb * m + rb * k < 0,
    ensures
        m < 0,
{
    if k >= 0 {
        assert(ra * k >= 0) by (nonlinear_arith)
            requires
                ra >= 0,
                k >= 0,
        ;
        assert(m < 0) by (nonlinear_arith)
            requires
                wa > 0,
                wa * m < 0,
        ;
    } else {
        assert(rb * k >= 0) by (nonlinear_arith)
            requires
                rb <= 0,
                k < 0,
        ;
        assert(m < 0) by (nonlinear_arith)
            requires
                wb > 0,
                wb * m < 0,
        ;
    }
}

/// The same with sums at or below zero.
pub proof fn lemma_straddle_at_most(m: int, k: int, wa: int, ra: int, wb: int, rb: int)
    requires
        wa > 0,
        wb > 0,
        ra >= 0,
        rb <= 0,
        wa * m + ra * k <= 0,
        wb * m + rb * k <= 0,
    ensures
        m <= 0,
{
    if k >= 0 {
        assert(ra * k >= 0) by (nonlinear_arith)
            requires
                ra >= 0,
                k >= 0,
        ;
        assert(m <= 0) by (nonlinear_arith)
            requires
                wa > 0,
                wa * m <= 0,
        ;
    } else {
        assert(rb * k >= 0) by (nonlinear_arith)
            requires
                rb <= 0,
                k < 0,
        ;
        assert(m <= 0) by (nonlinear_arith)
            requires
                wb > 0,
                wb * m <= 0,
        ;
    }
}

} // verus!
