//! What it means for a collection of tiles to partition a rectangle, and for
//! one collection to be a finer cut of another.

use vstd::prelude::*;
use crate::piet_mondrian::Color;
use crate::piet_mondrian::Quad;

verus! {

/// The sum of the areas of all tiles.
pub open spec fn total_area(model: Seq<Quad>) -> int
    decreases model.len(),
{
    if model.len() == 0 {
        0
    } else {
        total_area(model.drop_last()) + model.last().area()
    }
}

/// Whether no two tiles overlap.
pub open spec fn disjoint(model: Seq<Quad>) -> bool {
    forall|i: int, j: int|
        0 <= i < model.len() && 0 <= j < model.len() && i != j ==> !(#[trigger] model[i]).overlaps(
            #[trigger] model[j],
        )
}

/// Whether `quad` does not reach beyond `bounds`.
pub open spec fn fits(quad: Quad, bounds: Quad) -> bool {
    &&& bounds.low.x <= quad.low.x
    &&& quad.high.x <= bounds.high.x
    &&& bounds.low.y <= quad.low.y
    &&& quad.high.y <= bounds.high.y
}

/// Whether no tile reaches beyond `bounds`.
pub open spec fn inside(model: Seq<Quad>, bounds: Quad) -> bool {
    forall|i: int| 0 <= i < model.len() ==> fits(#[trigger] model[i], bounds)
}

/// Whether some tile holds the unit cell at `(x, y)`.
pub open spec fn covered(model: Seq<Quad>, x: int, y: int) -> bool {
    exists|i: int| 0 <= i < model.len() && (#[trigger] model[i]).holds(x, y)
}

/// Whether all four sides of `quad` lie on the grid lines `xs` and `ys`.
pub open spec fn on_grid(quad: Quad, xs: Set<int>, ys: Set<int>) -> bool {
    &&& xs.contains(quad.low.x as int)
    &&& xs.contains(quad.high.x as int)
    &&& ys.contains(quad.low.y as int)
    &&& ys.contains(quad.high.y as int)
}

/// Whether the sides of every tile lie on the grid lines `xs` and `ys`.
pub open spec fn aligned(model: Seq<Quad>, xs: Set<int>, ys: Set<int>) -> bool {
    forall|i: int| 0 <= i < model.len() ==> on_grid(#[trigger] model[i], xs, ys)
}

/// Whether `quad` has a positive width and a positive height.
pub open spec fn proper(quad: Quad) -> bool {
    quad.low.x < quad.high.x && quad.low.y < quad.high.y
}

/// Whether every tile has a positive width and a positive height.
pub open spec fn all_proper(model: Seq<Quad>) -> bool {
    forall|i: int| 0 <= i < model.len() ==> proper(#[trigger] model[i])
}

/// Whether every tile has the colour `color`.
pub open spec fn uniform(model: Seq<Quad>, color: Color) -> bool {
    forall|i: int| 0 <= i < model.len() ==> (#[trigger] model[i]).color == color
}

/// Whether `model` partitions `bounds`: no tile reaches beyond it, no two
/// tiles overlap, the areas add up to its area, and the tiles hold exactly its
/// unit cells.
pub open spec fn tiles(model: Seq<Quad>, bounds: Quad) -> bool {
    &&& inside(model, bounds)
    &&& disjoint(model)
    &&& total_area(model) == bounds.area()
    &&& forall|x: int, y: int| #[trigger] covered(model, x, y) <==> bounds.holds(x, y)
}

/// Whether `after` covers what `before` covers, cut more finely and only
/// along the lines `xs` and `ys`:
/// the total area is the same; the same unit cells are covered; tiles that
/// did not overlap, stayed within some bounds, or had positive width and
/// height, still do; and grid lines that carry every side of `before` and
/// include `xs` and `ys` carry every side of `after`. Colours are not
/// compared.
pub open spec fn refines(before: Seq<Quad>, after: Seq<Quad>, xs: Set<int>, ys: Set<int>) -> bool {
    &&& before.len() <= after.len()
    &&& total_area(after) == total_area(before)
    &&& disjoint(before) ==> disjoint(after)
    &&& all_proper(before) ==> all_proper(after)
    &&& forall|bounds: Quad| #[trigger] inside(before, bounds) ==> inside(after, bounds)
    &&& forall|x: int, y: int| #[trigger] covered(after, x, y) <==> covered(before, x, y)
    &&& forall|gx: Set<int>, gy: Set<int>|
        #[trigger] aligned(before, gx, gy) && xs.subset_of(gx) && ys.subset_of(gy) ==> aligned(
            after,
            gx,
            gy,
        )
}

/// Whether a collection in a single colour stays in that colour.
pub open spec fn keeps_colors(before: Seq<Quad>, after: Seq<Quad>) -> bool {
    forall|color: Color| #[trigger] uniform(before, color) ==> uniform(after, color)
}

/// Whether two collections hold the same rectangles in the same order,
/// whatever their colours.
pub open spec fn same_shapes(before: Seq<Quad>, after: Seq<Quad>) -> bool {
    &&& before.len() == after.len()
    &&& forall|i: int|
        0 <= i < before.len() ==> (#[trigger] after[i]).low == before[i].low && after[i].high
            == before[i].high
}

/// Appending a tile adds its area.
pub proof fn lemma_area_push(model: Seq<Quad>, quad: Quad)
    ensures
        total_area(model.push(quad)) == total_area(model) + quad.area(),
{
    assert(model.push(quad).drop_last() == model);
}

/// Removing a tile takes its area away.
pub proof fn lemma_area_remove(model: Seq<Quad>, i: int)
    requires
        0 <= i < model.len(),
    ensures
        total_area(model.remove(i)) == total_area(model) - model[i].area(),
    decreases model.len(),
{
    if i == model.len() - 1 {
        assert(model.remove(i) == model.drop_last());
    } else {
        lemma_area_remove(model.drop_last(), i);
        assert(model.remove(i).drop_last() == model.drop_last().remove(i));
        assert(model.remove(i).last() == model.last());
    }
}

/// The total area depends on the rectangles alone.
pub proof fn lemma_area_of_same_shapes(before: Seq<Quad>, after: Seq<Quad>)
    requires
        same_shapes(before, after),
    ensures
        total_area(after) == total_area(before),
    decreases before.len(),
{
    if before.len() > 0 {
        assert(same_shapes(before.drop_last(), after.drop_last())) by {
            assert forall|i: int| 0 <= i < before.drop_last().len() implies (
            #[trigger] after.drop_last()[i]).low == before.drop_last()[i].low
                && after.drop_last()[i].high == before.drop_last()[i].high by {
                assert(after[i].low == before[i].low);
            }
        }
        lemma_area_of_same_shapes(before.drop_last(), after.drop_last());
        assert(after[after.len() - 1].low == before[before.len() - 1].low);
    }
}

/// Recolouring tiles is a refinement that cuts nothing.
pub proof fn lemma_same_shapes_refines(before: Seq<Quad>, after: Seq<Quad>)
    requires
        same_shapes(before, after),
    ensures
        refines(before, after, Set::empty(), Set::empty()),
{
    lemma_area_of_same_shapes(before, after);
    if disjoint(before) {
        assert forall|i: int, j: int|
            0 <= i < after.len() && 0 <= j < after.len() && i != j implies !(
        #[trigger] after[i]).overlaps(#[trigger] after[j]) by {
            assert(!before[i].overlaps(before[j]));
        }
    }
    if all_proper(before) {
        assert forall|i: int| 0 <= i < after.len() implies proper(#[trigger] after[i]) by {
            assert(proper(before[i]));
        }
    }
    assert forall|bounds: Quad| #[trigger] inside(before, bounds) implies inside(
        after,
        bounds,
    ) by {
        assert forall|i: int| 0 <= i < after.len() implies fits(#[trigger] after[i], bounds) by {
            assert(fits(before[i], bounds));
        }
    }
    assert forall|x: int, y: int| #[trigger] covered(after, x, y) <==> covered(before, x, y) by {
        if covered(after, x, y) {
            let i = choose|i: int| 0 <= i < after.len() && (#[trigger] after[i]).holds(x, y);
            assert(before[i].holds(x, y));
        }
        if covered(before, x, y) {
            let i = choose|i: int| 0 <= i < before.len() && (#[trigger] before[i]).holds(x, y);
            assert(after[i].holds(x, y));
        }
    }
    assert forall|gx: Set<int>, gy: Set<int>| #[trigger] aligned(before, gx, gy) implies aligned(
        after,
        gx,
        gy,
    ) by {
        assert forall|i: int| 0 <= i < after.len() implies on_grid(
            #[trigger] after[i],
            gx,
            gy,
        ) by {
            assert(on_grid(before[i], gx, gy));
        }
    }
}

/// Refinements compose, and their cut lines add up.
pub proof fn lemma_refines_chain(
    first: Seq<Quad>,
    second: Seq<Quad>,
    third: Seq<Quad>,
    xs1: Set<int>,
    ys1: Set<int>,
    xs2: Set<int>,
    ys2: Set<int>,
)
    requires
        refines(first, second, xs1, ys1),
        refines(second, third, xs2, ys2),
    ensures
        refines(first, third, xs1.union(xs2), ys1.union(ys2)),
{
    assert forall|bounds: Quad| #[trigger] inside(first, bounds) implies inside(
        third,
        bounds,
    ) by {
        assert(inside(second, bounds));
    }
    assert forall|x: int, y: int| #[trigger] covered(third, x, y) <==> covered(first, x, y) by {
        assert(covered(second, x, y) <==> covered(first, x, y));
    }
    assert forall|gx: Set<int>, gy: Set<int>|
        #[trigger] aligned(first, gx, gy) && xs1.union(xs2).subset_of(gx) && ys1.union(
            ys2,
        ).subset_of(gy) implies aligned(third, gx, gy) by {
        assert(xs1.subset_of(gx) && ys1.subset_of(gy));
        assert(xs2.subset_of(gx) && ys2.subset_of(gy));
        assert(aligned(second, gx, gy));
    }
}

/// A refinement may be credited with more cut lines than it used.
pub proof fn lemma_refines_widen(
    before: Seq<Quad>,
    after: Seq<Quad>,
    xs: Set<int>,
    ys: Set<int>,
    wider_xs: Set<int>,
    wider_ys: Set<int>,
)
    requires
        refines(before, after, xs, ys),
        xs.subset_of(wider_xs),
        ys.subset_of(wider_ys),
    ensures
        refines(before, after, wider_xs, wider_ys),
{
    assert forall|gx: Set<int>, gy: Set<int>|
        #[trigger] aligned(before, gx, gy) && wider_xs.subset_of(gx) && wider_ys.subset_of(
            gy,
        ) implies aligned(after, gx, gy) by {
        assert(xs.subset_of(gx) && ys.subset_of(gy));
    }
}

/// Keeping a single colour composes.
pub proof fn lemma_keeps_colors_chain(first: Seq<Quad>, second: Seq<Quad>, third: Seq<Quad>)
    requires
        keeps_colors(first, second),
        keeps_colors(second, third),
    ensures
        keeps_colors(first, third),
{
    assert forall|color: Color| #[trigger] uniform(first, color) implies uniform(
        third,
        color,
    ) by {
        assert(uniform(second, color));
    }
}

/// A refinement of a partition of `bounds` is a partition of `bounds`.
pub proof fn lemma_refinement_tiles(
    before: Seq<Quad>,
    after: Seq<Quad>,
    bounds: Quad,
    xs: Set<int>,
    ys: Set<int>,
)
    requires
        tiles(before, bounds),
        refines(before, after, xs, ys),
    ensures
        tiles(after, bounds),
{
    assert forall|x: int, y: int| #[trigger] covered(after, x, y) <==> bounds.holds(x, y) by {
        assert(covered(after, x, y) <==> covered(before, x, y));
    }
}

/// A single tile partitions itself.
pub proof fn lemma_single_tiles(quad: Quad)
    ensures
        tiles(seq![quad], quad),
        uniform(seq![quad], quad.color),
{
    let model = seq![quad];
    assert(model.drop_last() == Seq::<Quad>::empty());
    assert(total_area(model.drop_last()) == 0);
    assert forall|x: int, y: int| #[trigger] covered(model, x, y) <==> quad.holds(x, y) by {
        if quad.holds(x, y) {
            assert(model[0].holds(x, y));
        }
    }
}

} // verus!
