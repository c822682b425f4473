//! Why splitting keeps a partition a partition: each cut replaces one tile by
//! two that cover the same cells, and a pass is a chain of such cuts.

use vstd::prelude::*;
use vstd::set_lib::lemma_len_subset;
use crate::piet_mondrian::leads;
use crate::piet_mondrian::painted;
use crate::piet_mondrian::subdivided;
use crate::piet_mondrian::WHITE;
use crate::point::Point;
use crate::piet_mondrian::split_outcome;
use crate::piet_mondrian::split_steps;
use crate::piet_mondrian::Axis;
use crate::piet_mondrian::Color;
use crate::piet_mondrian::Quad;
use crate::tiling::aligned;
use crate::tiling::all_proper;
use crate::tiling::proper;
use crate::tiling::covered;
use crate::tiling::disjoint;
use crate::tiling::fits;
use crate::tiling::inside;
use crate::tiling::keeps_colors;
use crate::tiling::lemma_area_push;
use crate::tiling::lemma_area_remove;
use crate::tiling::lemma_keeps_colors_chain;
use crate::tiling::lemma_refines_chain;
use crate::tiling::lemma_refines_widen;
use crate::tiling::lemma_refinement_tiles;
use crate::tiling::lemma_single_tiles;
use crate::tiling::same_shapes;
use crate::tiling::tiles;
use crate::tiling::on_grid;
use crate::tiling::refines;
use crate::tiling::total_area;
use crate::tiling::uniform;

verus! {

/// The vertical lines that a cut at `at` along `axis` introduces.
pub open spec fn cut_xs(axis: Axis, at: i32) -> Set<int> {
    match axis {
        Axis::X => set![at as int],
        Axis::Y => Set::empty(),
    }
}

/// The horizontal lines that a cut at `at` along `axis` introduces.
pub open spec fn cut_ys(axis: Axis, at: i32) -> Set<int> {
    match axis {
        Axis::X => Set::empty(),
        Axis::Y => set![at as int],
    }
}

/// The collection in which the tile at position `i` has been taken out and
/// its two halves have been appended.
pub open spec fn cut_at(model: Seq<Quad>, i: int, axis: Axis, at: i32) -> Seq<Quad> {
    model.remove(i).push(model[i].halves(axis, at).0).push(model[i].halves(axis, at).1)
}

/// The two halves of a tile have its area between them.
pub proof fn lemma_halves_area(quad: Quad, axis: Axis, at: i32)
    ensures
        quad.halves(axis, at).0.area() + quad.halves(axis, at).1.area() == quad.area(),
{
    let w = quad.high.x - quad.low.x;
    let h = quad.high.y - quad.low.y;
    match axis {
        Axis::X => {
            assert((at - quad.low.x) * h + (quad.high.x - at) * h == (quad.high.x - quad.low.x)
                * h) by (nonlinear_arith);
        },
        Axis::Y => {
            assert(w * (at - quad.low.y) + w * (quad.high.y - at) == w * (quad.high.y
                - quad.low.y)) by (nonlinear_arith);
        },
    }
}

/// Cutting a tile that straddles the cut line refines the collection along
/// that line alone, and the halves inherit the colour.
pub proof fn lemma_cut_refines(model: Seq<Quad>, i: int, axis: Axis, at: i32)
    requires
        0 <= i < model.len(),
        model[i].straddles(axis, at as int),
    ensures
        refines(model, cut_at(model, i, axis, at), cut_xs(axis, at), cut_ys(axis, at)),
        keeps_colors(model, cut_at(model, i, axis, at)),
{
    let quad = model[i];
    let lower = quad.halves(axis, at).0;
    let upper = quad.halves(axis, at).1;
    let after = cut_at(model, i, axis, at);
    let m = model.len() as int;
    assert(after.len() == m + 1);
    assert(after[m - 1] == lower);
    assert(after[m] == upper);
    assert forall|j: int| 0 <= j < m - 1 implies #[trigger] after[j] == model[if j < i {
        j
    } else {
        j + 1
    }] by {}

    assert(total_area(after) == total_area(model)) by {
        lemma_area_remove(model, i);
        lemma_area_push(model.remove(i), lower);
        lemma_area_push(model.remove(i).push(lower), upper);
        lemma_halves_area(quad, axis, at);
    }

    if disjoint(model) {
        assert forall|a: int, b: int|
            0 <= a < after.len() && 0 <= b < after.len() && a != b implies !(
        #[trigger] after[a]).overlaps(#[trigger] after[b]) by {
            let from_a = if a < i {
                a
            } else {
                a + 1
            };
            let from_b = if b < i {
                b
            } else {
                b + 1
            };
            if a < m - 1 && b < m - 1 {
                assert(!model[from_a].overlaps(model[from_b]));
            } else if a < m - 1 {
                assert(!model[from_a].overlaps(model[i]));
            } else if b < m - 1 {
                assert(!model[i].overlaps(model[from_b]));
            }
        }
    }

    if all_proper(model) {
        assert forall|j: int| 0 <= j < after.len() implies proper(#[trigger] after[j]) by {
            assert(proper(model[i]));
            if j < m - 1 {
                assert(proper(model[if j < i {
                    j
                } else {
                    j + 1
                }]));
            }
        }
    }

    assert forall|bounds: Quad| #[trigger] inside(model, bounds) implies inside(
        after,
        bounds,
    ) by {
        assert forall|j: int| 0 <= j < after.len() implies fits(#[trigger] after[j], bounds) by {
            assert(fits(model[i], bounds));
            if j < m - 1 {
                assert(fits(model[if j < i {
                    j
                } else {
                    j + 1
                }], bounds));
            }
        }
    }

    assert forall|x: int, y: int| #[trigger] covered(after, x, y) <==> covered(model, x, y) by {
        if covered(after, x, y) {
            let j = choose|j: int| 0 <= j < after.len() && (#[trigger] after[j]).holds(x, y);
            if j < m - 1 {
                assert(model[if j < i {
                    j
                } else {
                    j + 1
                }].holds(x, y));
            } else {
                assert(model[i].holds(x, y));
            }
        }
        if covered(model, x, y) {
            let j = choose|j: int| 0 <= j < model.len() && (#[trigger] model[j]).holds(x, y);
            if j < i {
                assert(after[j].holds(x, y));
            } else if j > i {
                assert(after[j - 1].holds(x, y));
            } else if lower.holds(x, y) {
                assert(after[m - 1].holds(x, y));
            } else {
                assert(after[m].holds(x, y));
            }
        }
    }

    assert forall|gx: Set<int>, gy: Set<int>|
        #[trigger] aligned(model, gx, gy) && cut_xs(axis, at).subset_of(gx) && cut_ys(
            axis,
            at,
        ).subset_of(gy) implies aligned(after, gx, gy) by {
        assert(on_grid(model[i], gx, gy));
        match axis {
            Axis::X => {
                assert(cut_xs(axis, at).contains(at as int));
            },
            Axis::Y => {
                assert(cut_ys(axis, at).contains(at as int));
            },
        }
        assert forall|j: int| 0 <= j < after.len() implies on_grid(
            #[trigger] after[j],
            gx,
            gy,
        ) by {
            if j < m - 1 {
                assert(on_grid(model[if j < i {
                    j
                } else {
                    j + 1
                }], gx, gy));
            }
        }
    }

    assert forall|color: Color| #[trigger] uniform(model, color) implies uniform(
        after,
        color,
    ) by {
        assert forall|j: int| 0 <= j < after.len() implies (#[trigger] after[j]).color
            == color by {
            assert(model[i].color == color);
            if j < m - 1 {
                assert(model[if j < i {
                    j
                } else {
                    j + 1
                }].color == color);
            }
        }
    }
}

/// One more round of a pass either changes nothing or cuts one straddling
/// tile of the collection as it stood.
pub proof fn lemma_round_is_cut(model: Seq<Quad>, axis: Axis, at: i32, k: nat)
    requires
        k > 0,
    ensures
        split_steps(model, axis, at, (k - 1) as nat).0.len() + split_steps(
            model,
            axis,
            at,
            (k - 1) as nat,
        ).1.len() == split_outcome(model, axis, at, (k - 1) as nat).len(),
        ({
            let rest = split_steps(model, axis, at, (k - 1) as nat).0;
            let earlier = split_outcome(model, axis, at, (k - 1) as nat);
            let later = split_outcome(model, axis, at, k);
            if exists|i: int| leads(rest, axis, at as int, i) {
                let i = choose|i: int| leads(rest, axis, at as int, i);
                &&& 0 <= i < earlier.len()
                &&& earlier[i].straddles(axis, at as int)
                &&& later == cut_at(earlier, i, axis, at)
            } else {
                later == earlier
            }
        }),
{
    let rest = split_steps(model, axis, at, (k - 1) as nat).0;
    let fresh = split_steps(model, axis, at, (k - 1) as nat).1;
    let earlier = rest + fresh;
    if exists|i: int| leads(rest, axis, at as int, i) {
        let i = choose|i: int| leads(rest, axis, at as int, i);
        let parts = rest[i].halves(axis, at);
        assert(earlier[i] == rest[i]);
        assert(rest.remove(i) + fresh.push(parts.0).push(parts.1) == earlier.remove(i).push(
            parts.0,
        ).push(parts.1));
    }
}

/// Subdivision soundness of one pass: however many rounds a pass runs, what
/// it leaves refines what it started from, along the pass's own line alone,
/// and a collection in a single colour stays in that colour.
pub proof fn lemma_split_refines(model: Seq<Quad>, axis: Axis, at: i32, k: nat)
    ensures
        refines(model, split_outcome(model, axis, at, k), cut_xs(axis, at), cut_ys(axis, at)),
        keeps_colors(model, split_outcome(model, axis, at, k)),
    decreases k,
{
    let xs = cut_xs(axis, at);
    let ys = cut_ys(axis, at);
    if k == 0 {
        assert(split_outcome(model, axis, at, 0) == model);
    } else {
        let earlier = split_outcome(model, axis, at, (k - 1) as nat);
        let later = split_outcome(model, axis, at, k);
        let rest = split_steps(model, axis, at, (k - 1) as nat).0;
        lemma_split_refines(model, axis, at, (k - 1) as nat);
        lemma_round_is_cut(model, axis, at, k);
        if exists|i: int| leads(rest, axis, at as int, i) {
            let i = choose|i: int| leads(rest, axis, at as int, i);
            lemma_cut_refines(earlier, i, axis, at);
            lemma_refines_chain(model, earlier, later, xs, ys, xs, ys);
            assert(xs.union(xs) == xs);
            assert(ys.union(ys) == ys);
            lemma_keeps_colors_chain(model, earlier, later);
        }
    }
}

/// The x coordinates of `points`.
pub open spec fn xs_of(points: Seq<Point>) -> Set<int> {
    Set::new(|v: int| exists|j: int| 0 <= j < points.len() && (#[trigger] points[j]).x == v)
}

/// The y coordinates of `points`.
pub open spec fn ys_of(points: Seq<Point>) -> Set<int> {
    Set::new(|v: int| exists|j: int| 0 <= j < points.len() && (#[trigger] points[j]).y == v)
}

/// Subdivision soundness: however many rounds each pass runs, what
/// subdividing leaves refines what it started from, cut only along the
/// coordinates of the given points, and a collection in a single colour stays
/// in that colour.
pub proof fn lemma_subdivided_refines(
    model: Seq<Quad>,
    points: Seq<Point>,
    rounds: Seq<(nat, nat)>,
)
    ensures
        refines(model, subdivided(model, points, rounds), xs_of(points), ys_of(points)),
        keeps_colors(model, subdivided(model, points, rounds)),
    decreases points.len(),
{
    if points.len() == 0 {
        assert(refines(model, model, Set::empty(), Set::empty()));
        lemma_refines_widen(
            model,
            model,
            Set::empty(),
            Set::empty(),
            xs_of(points),
            ys_of(points),
        );
    } else {
        let pt = points.last();
        let earlier = subdivided(model, points.drop_last(), rounds.drop_last());
        let middle = split_outcome(earlier, Axis::X, pt.x, rounds.last().0);
        let later = split_outcome(middle, Axis::Y, pt.y, rounds.last().1);
        let xs0 = xs_of(points.drop_last());
        let ys0 = ys_of(points.drop_last());
        lemma_subdivided_refines(model, points.drop_last(), rounds.drop_last());
        lemma_split_refines(earlier, Axis::X, pt.x, rounds.last().0);
        lemma_split_refines(middle, Axis::Y, pt.y, rounds.last().1);
        lemma_refines_chain(
            model,
            earlier,
            middle,
            xs0,
            ys0,
            cut_xs(Axis::X, pt.x),
            cut_ys(Axis::X, pt.x),
        );
        lemma_refines_chain(
            model,
            middle,
            later,
            xs0.union(cut_xs(Axis::X, pt.x)),
            ys0.union(cut_ys(Axis::X, pt.x)),
            cut_xs(Axis::Y, pt.y),
            cut_ys(Axis::Y, pt.y),
        );
        assert forall|v: int| xs0.contains(v) implies #[trigger] xs_of(points).contains(v) by {
            let j = choose|j: int|
                0 <= j < points.drop_last().len() && (#[trigger] points.drop_last()[j]).x == v;
            assert(points[j].x == v);
        }
        assert forall|v: int| ys0.contains(v) implies #[trigger] ys_of(points).contains(v) by {
            let j = choose|j: int|
                0 <= j < points.drop_last().len() && (#[trigger] points.drop_last()[j]).y == v;
            assert(points[j].y == v);
        }
        assert(xs_of(points).contains(pt.x as int)) by {
            assert(points[points.len() - 1].x == pt.x);
        }
        assert(ys_of(points).contains(pt.y as int)) by {
            assert(points[points.len() - 1].y == pt.y);
        }
        lemma_refines_widen(
            model,
            later,
            xs0.union(cut_xs(Axis::X, pt.x)).union(cut_xs(Axis::Y, pt.y)),
            ys0.union(cut_ys(Axis::X, pt.x)).union(cut_ys(Axis::Y, pt.y)),
            xs_of(points),
            ys_of(points),
        );
        lemma_keeps_colors_chain(model, earlier, middle);
        lemma_keeps_colors_chain(model, middle, later);
    }
}

/// Subdivision area conservation: whatever the split coordinates and however
/// many rounds each pass runs, the tiles that come of one rectangle do not
/// overlap, stay within it, have its area between them and hold exactly its
/// unit cells.
pub proof fn lemma_subdivision_conserves_area(
    start: Quad,
    points: Seq<Point>,
    rounds: Seq<(nat, nat)>,
)
    ensures
        total_area(subdivided(seq![start], points, rounds)) == start.area(),
        disjoint(subdivided(seq![start], points, rounds)),
        tiles(subdivided(seq![start], points, rounds), start),
{
    lemma_single_tiles(start);
    lemma_subdivided_refines(seq![start], points, rounds);
    lemma_refinement_tiles(
        seq![start],
        subdivided(seq![start], points, rounds),
        start,
        xs_of(points),
        ys_of(points),
    );
}

/// Subdivision coordinate soundness: every side of every tile that comes of
/// one rectangle lies on a side of that rectangle or on a coordinate of one
/// of the given points.
pub proof fn lemma_subdivision_cuts_on_grid(
    start: Quad,
    points: Seq<Point>,
    rounds: Seq<(nat, nat)>,
)
    ensures
        aligned(
            subdivided(seq![start], points, rounds),
            xs_of(points).insert(start.low.x as int).insert(start.high.x as int),
            ys_of(points).insert(start.low.y as int).insert(start.high.y as int),
        ),
{
    let gx = xs_of(points).insert(start.low.x as int).insert(start.high.x as int);
    let gy = ys_of(points).insert(start.low.y as int).insert(start.high.y as int);
    lemma_subdivided_refines(seq![start], points, rounds);
    assert(aligned(seq![start], gx, gy));
    assert(xs_of(points).subset_of(gx));
    assert(ys_of(points).subset_of(gy));
}

/// The positions of the tiles that are not white.
pub open spec fn tinted(model: Seq<Quad>) -> Set<int> {
    Set::new(|i: int| 0 <= i < model.len() && model[i].color != WHITE)
}

/// Painting changes colours only.
pub proof fn lemma_painted_keeps_shapes(model: Seq<Quad>, yellow: int, red: int, blue: int)
    requires
        0 <= yellow < model.len(),
        0 <= red < model.len(),
        0 <= blue < model.len(),
    ensures
        same_shapes(model, painted(model, yellow, red, blue)),
        forall|i: int|
            0 <= i < model.len() && i != yellow && i != red && i != blue ==> #[trigger] painted(
                model,
                yellow,
                red,
                blue,
            )[i] == model[i],
{
}

/// The positions at which two collections of the same length differ.
pub open spec fn altered(before: Seq<Quad>, after: Seq<Quad>) -> Set<int> {
    Set::new(|i: int| 0 <= i < before.len() && after[i] != before[i])
}

/// Painting alters at most three tiles, whatever their colours were.
pub proof fn lemma_painted_alters_few(model: Seq<Quad>, yellow: int, red: int, blue: int)
    requires
        0 <= yellow < model.len(),
        0 <= red < model.len(),
        0 <= blue < model.len(),
    ensures
        altered(model, painted(model, yellow, red, blue)).finite(),
        altered(model, painted(model, yellow, red, blue)).len() <= 3,
        altered(model, painted(model, yellow, red, blue)).subset_of(set![yellow, red, blue]),
{
    let after = painted(model, yellow, red, blue);
    let drawn = set![yellow, red, blue];
    assert forall|i: int| altered(model, after).contains(i) implies drawn.contains(i) by {
        if i != yellow && i != red && i != blue {
            assert(after[i] == model[i]);
        }
    }
    lemma_len_subset(altered(model, after), drawn);
}

/// Colouring cardinality: after three tiles of an all-white collection have
/// been painted, at least one and at most three tiles are not white, fewer
/// than three where positions coincide.
pub proof fn lemma_painted_tints_few(model: Seq<Quad>, yellow: int, red: int, blue: int)
    requires
        0 <= yellow < model.len(),
        0 <= red < model.len(),
        0 <= blue < model.len(),
        uniform(model, WHITE),
    ensures
        tinted(painted(model, yellow, red, blue)).finite(),
        1 <= tinted(painted(model, yellow, red, blue)).len() <= 3,
        tinted(painted(model, yellow, red, blue)) == set![yellow, red, blue],
{
    let after = painted(model, yellow, red, blue);
    let drawn = set![yellow, red, blue];
    assert forall|i: int| tinted(after).contains(i) <==> drawn.contains(i) by {
        if 0 <= i < model.len() && i != yellow && i != red && i != blue {
            assert(after[i] == model[i]);
        }
    }
    assert(tinted(after) == drawn);
    assert(drawn.contains(blue));
}

} // verus!
