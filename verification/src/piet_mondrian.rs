//! Random subdivision of a rectangle along grid lines, and the painting of
//! three of the resulting tiles.

use vstd::prelude::*;
use rand::rngs::StdRng;
use crate::point::Point;
use crate::random::coin;
use crate::random::pick;
use crate::subdivision_laws::altered;
use crate::subdivision_laws::cut_xs;
use crate::subdivision_laws::cut_ys;
use crate::subdivision_laws::lemma_painted_alters_few;
use crate::subdivision_laws::lemma_painted_keeps_shapes;
use crate::subdivision_laws::lemma_painted_tints_few;
use crate::subdivision_laws::lemma_split_refines;
use crate::subdivision_laws::lemma_subdivided_refines;
use crate::subdivision_laws::tinted;
use crate::subdivision_laws::xs_of;
use crate::subdivision_laws::ys_of;
use crate::tiling::aligned;
use crate::tiling::all_proper;
use crate::tiling::keeps_colors;
use crate::tiling::lemma_keeps_colors_chain;
use crate::tiling::lemma_refinement_tiles;
use crate::tiling::lemma_refines_chain;
use crate::tiling::lemma_refines_widen;
use crate::tiling::lemma_same_shapes_refines;
use crate::tiling::lemma_single_tiles;
use crate::tiling::refines;
use crate::tiling::same_shapes;
use crate::tiling::tiles;
use crate::tiling::uniform;

verus! {

/// A colour as its red, green and blue channels.
pub type Color = (u8, u8, u8);

pub const BLUE: (u8, u8, u8) = (19, 86, 162);

pub const RED: (u8, u8, u8) = (212, 9, 32);

pub const WHITE: (u8, u8, u8) = (255, 255, 255);

pub const YELLOW: (u8, u8, u8) = (247, 216, 68);

/// The two directions in which a tile can be cut.
#[derive(Clone, Copy, Debug, PartialEq, Eq, Structural)]
pub enum Axis {
    /// A vertical cut, at an x coordinate.
    X,
    /// A horizontal cut, at a y coordinate.
    Y,
}

/// An axis-aligned tile with its colour. `low` is the bottom-left corner and
/// `high` the top-right one.
#[derive(Clone, Copy, Debug, PartialEq, Eq)]
pub struct Quad {
    pub low: Point,
    pub high: Point,
    pub color: Color,
}

impl Quad {
    /// Width times height.
    pub open spec fn area(self) -> int {
        (self.high.x - self.low.x) * (self.high.y - self.low.y)
    }

    /// The lower bound of the tile along `axis`.
    pub open spec fn low_on(self, axis: Axis) -> int {
        match axis {
            Axis::X => self.low.x as int,
            Axis::Y => self.low.y as int,
        }
    }

    /// The upper bound of the tile along `axis`.
    pub open spec fn high_on(self, axis: Axis) -> int {
        match axis {
            Axis::X => self.high.x as int,
            Axis::Y => self.high.y as int,
        }
    }

    /// Whether the coordinate `at` lies strictly between the tile's bounds
    /// along `axis`.
    pub open spec fn straddles(self, axis: Axis, at: int) -> bool {
        self.low_on(axis) < at < self.high_on(axis)
    }

    /// Whether the unit cell whose bottom-left corner is `(x, y)` belongs to
    /// the tile.
    pub open spec fn holds(self, x: int, y: int) -> bool {
        self.low.x <= x < self.high.x && self.low.y <= y < self.high.y
    }

    /// Whether the interiors of two tiles meet.
    pub open spec fn overlaps(self, other: Quad) -> bool {
        &&& self.low.x < other.high.x
        &&& other.low.x < self.high.x
        &&& self.low.y < other.high.y
        &&& other.low.y < self.high.y
    }

    /// The two tiles that a cut at `at` along `axis` makes of this one, the
    /// lower one first. Both keep the colour.
    pub open spec fn halves(self, axis: Axis, at: i32) -> (Quad, Quad) {
        match axis {
            Axis::X => (
                Quad { low: self.low, high: Point { x: at, y: self.high.y }, color: self.color },
                Quad { low: Point { x: at, y: self.low.y }, high: self.high, color: self.color },
            ),
            Axis::Y => (
                Quad { low: self.low, high: Point { x: self.high.x, y: at }, color: self.color },
                Quad { low: Point { x: self.low.x, y: at }, high: self.high, color: self.color },
            ),
        }
    }

    /// Whether `x` lies strictly between the left and the right side.
    pub fn contains_x(&self, x: i32) -> (inside: bool)
        ensures
            inside == self.straddles(Axis::X, x as int),
    {
        self.low.x < x && x < self.high.x
    }

    /// Whether `y` lies strictly between the bottom and the top side.
    pub fn contains_y(&self, y: i32) -> (inside: bool)
        ensures
            inside == self.straddles(Axis::Y, y as int),
    {
        self.low.y < y && y < self.high.y
    }

    /// Whether `at` lies strictly between the tile's bounds along `axis`.
    pub fn contains_on(&self, axis: Axis, at: i32) -> (inside: bool)
        ensures
            inside == self.straddles(axis, at as int),
    {
        match axis {
            Axis::X => self.contains_x(at),
            Axis::Y => self.contains_y(at),
        }
    }
}

/// Cuts `quad` with the vertical line at `x`.
pub fn split_quad_on_x(x: i32, quad: Quad) -> (parts: [Quad; 2])
    ensures
        parts[0] == quad.halves(Axis::X, x).0,
        parts[1] == quad.halves(Axis::X, x).1,
{
    [
        Quad { low: quad.low, high: Point { x, y: quad.high.y }, color: quad.color },
        Quad { low: Point { x, y: quad.low.y }, high: quad.high, color: quad.color },
    ]
}

/// Cuts `quad` with the horizontal line at `y`.
pub fn split_quad_on_y(y: i32, quad: Quad) -> (parts: [Quad; 2])
    ensures
        parts[0] == quad.halves(Axis::Y, y).0,
        parts[1] == quad.halves(Axis::Y, y).1,
{
    [
        Quad { low: quad.low, high: Point { x: quad.high.x, y }, color: quad.color },
        Quad { low: Point { x: quad.low.x, y }, high: quad.high, color: quad.color },
    ]
}

/// Whether position `i` holds the first tile of `model` that straddles `at`
/// along `axis`.
pub open spec fn leads(model: Seq<Quad>, axis: Axis, at: int, i: int) -> bool {
    &&& 0 <= i < model.len()
    &&& model[i].straddles(axis, at)
    &&& forall|j: int| 0 <= j < i ==> !(#[trigger] model[j]).straddles(axis, at)
}

/// Whether no tile of `model` straddles `at` along `axis`.
pub open spec fn settled(model: Seq<Quad>, axis: Axis, at: int) -> bool {
    forall|j: int| 0 <= j < model.len() ==> !(#[trigger] model[j]).straddles(axis, at)
}

/// Finds the first tile that straddles `at` along `axis`.
pub fn position(model: &Vec<Quad>, axis: Axis, at: i32) -> (found: Option<usize>)
    ensures
        match found {
            Some(i) => leads(model@, axis, at as int, i as int),
            None => settled(model@, axis, at as int),
        },
{
    let mut i: usize = 0;
    while i < model.len()
        invariant
            0 <= i <= model@.len(),
            forall|j: int| 0 <= j < i ==> !(#[trigger] model@[j]).straddles(axis, at as int),
        decreases model@.len() - i,
    {
        if model[i].contains_on(axis, at) {
            return Some(i);
        }
        i = i + 1;
    }
    None
}

/// The state of a splitting pass after `k` rounds: the tiles that are still
/// searched, and the halves that wait to be appended. Each round cuts the
/// first tile that straddles `at` and moves its halves to the waiting list; a
/// round that finds no such tile changes nothing.
pub open spec fn split_steps(model: Seq<Quad>, axis: Axis, at: i32, k: nat) -> (
    Seq<Quad>,
    Seq<Quad>,
)
    decreases k,
{
    if k == 0 {
        (model, Seq::empty())
    } else {
        let (rest, fresh) = split_steps(model, axis, at, (k - 1) as nat);
        if exists|i: int| leads(rest, axis, at as int, i) {
            let i = choose|i: int| leads(rest, axis, at as int, i);
            let parts = rest[i].halves(axis, at);
            (rest.remove(i), fresh.push(parts.0).push(parts.1))
        } else {
            (rest, fresh)
        }
    }
}

/// The collection that a splitting pass leaves when it stops after `k`
/// rounds: the tiles that were not cut, in their order, followed by the halves
/// in the order in which they were made.
pub open spec fn split_outcome(model: Seq<Quad>, axis: Axis, at: i32, k: nat) -> Seq<Quad> {
    split_steps(model, axis, at, k).0 + split_steps(model, axis, at, k).1
}

/// Only one position can hold the first straddling tile.
pub proof fn lemma_leads_is_unique(model: Seq<Quad>, axis: Axis, at: int, i: int, j: int)
    requires
        leads(model, axis, at, i),
        leads(model, axis, at, j),
    ensures
        i == j,
{
    if i < j {
        assert(!model[i].straddles(axis, at));
    } else if j < i {
        assert(!model[j].straddles(axis, at));
    }
}

/// Cuts `quad` at `at` along `axis`.
pub fn split_quad(axis: Axis, at: i32, quad: Quad) -> (parts: [Quad; 2])
    ensures
        parts[0] == quad.halves(axis, at).0,
        parts[1] == quad.halves(axis, at).1,
{
    match axis {
        Axis::X => split_quad_on_x(at, quad),
        Axis::Y => split_quad_on_y(at, quad),
    }
}

/// Takes the tile at position `index` out of `model`, cuts it at `at` along
/// `axis`, and appends the two halves to `new_quads`.
pub fn cut(axis: Axis, at: i32, index: usize, model: &mut Vec<Quad>, new_quads: &mut Vec<Quad>)
    requires
        index < old(model)@.len(),
    ensures
        final(model)@ == old(model)@.remove(index as int),
        final(new_quads)@ == old(new_quads)@.push(
            old(model)@[index as int].halves(axis, at).0,
        ).push(old(model)@[index as int].halves(axis, at).1),
{
    let quad = model.remove(index);
    let parts = split_quad(axis, at, quad);
    new_quads.push(parts[0]);
    new_quads.push(parts[1]);
}

/// Runs one splitting pass for the coordinate `at` along `axis`.
///
/// While some tile straddles `at`, a coin is flipped: heads ends the pass,
/// tails cuts the first such tile in two. The halves join the collection only
/// when the pass ends, so they are never searched in the same pass.
///
/// Whatever the coin shows, the collection that is left is the outcome of as
/// many rounds as it has grown by, and so a refinement of the one that was
/// given, cut along this line alone; and where no tile straddles `at`,
/// nothing changes.
pub fn split(axis: Axis, at: i32, model: &mut Vec<Quad>, rng: &mut StdRng)
    ensures
        old(model)@.len() <= final(model)@.len(),
        final(model)@ == split_outcome(
            old(model)@,
            axis,
            at,
            (final(model)@.len() - old(model)@.len()) as nat,
        ),
        settled(old(model)@, axis, at as int) ==> final(model)@ == old(model)@,
        refines(old(model)@, final(model)@, cut_xs(axis, at), cut_ys(axis, at)),
        keeps_colors(old(model)@, final(model)@),
{
    let mut new_quads: Vec<Quad> = Vec::new();
    let ghost mut rounds: nat = 0;
    loop
        invariant
            (model@, new_quads@) == split_steps(old(model)@, axis, at, rounds),
            model@.len() + rounds == old(model)@.len(),
            new_quads@.len() == 2 * rounds,
            settled(old(model)@, axis, at as int) ==> rounds == 0,
        decreases model@.len(),
    {
        let found = position(model, axis, at);
        match found {
            None => {
                break ;
            },
            Some(index) => {
                let heads = coin(rng);
                proof {
                    let first = choose|i: int| leads(model@, axis, at as int, i);
                    lemma_leads_is_unique(model@, axis, at as int, first, index as int);
                }
                if !follow_coin(heads, axis, at, index, model, &mut new_quads) {
                    break ;
                }
                proof {
                    rounds = rounds + 1;
                }
            },
        }
    }
    model.append(&mut new_quads);
    proof {
        assert(final(model)@ == split_outcome(old(model)@, axis, at, rounds));
        lemma_split_refines(old(model)@, axis, at, rounds);
    }
}

/// Does what the coin decided for the straddling tile found at position
/// `index`: on heads the pass ends and both collections stay as they are; on
/// tails the tile is taken out of `model`, cut at `at` along `axis`, and its
/// halves are appended to `new_quads`. Returns whether the pass goes on.
pub fn follow_coin(
    heads: bool,
    axis: Axis,
    at: i32,
    index: usize,
    model: &mut Vec<Quad>,
    new_quads: &mut Vec<Quad>,
) -> (goes_on: bool)
    requires
        index < old(model)@.len(),
    ensures
        goes_on == !heads,
        heads ==> final(model)@ == old(model)@ && final(new_quads)@ == old(new_quads)@,
        !heads ==> final(model)@ == old(model)@.remove(index as int) && final(new_quads)@ == old(
            new_quads,
        )@.push(old(model)@[index as int].halves(axis, at).0).push(
            old(model)@[index as int].halves(axis, at).1,
        ),
{
    if heads {
        return false;
    }
    cut(axis, at, index, model, new_quads);
    true
}

/// What two passes leave, the first along x at `pt.x` stopping after `kx`
/// rounds, the second along y at `pt.y` stopping after `ky` rounds.
pub open spec fn split_both(model: Seq<Quad>, pt: Point, kx: nat, ky: nat) -> Seq<Quad> {
    split_outcome(split_outcome(model, Axis::X, pt.x, kx), Axis::Y, pt.y, ky)
}

/// Runs a vertical pass at `pt.x` and then a horizontal pass at `pt.y`.
///
/// Whatever the coin shows, the collection that is left is what the two
/// passes leave after numbers of rounds that add up to its growth; it refines
/// the one that was given, cut along these two lines alone.
pub fn split_quads_with(pt: &Point, model: &mut Vec<Quad>, rng: &mut StdRng)
    ensures
        exists|kx: nat, ky: nat|
            old(model)@.len() + kx + ky == final(model)@.len() && final(model)@ == split_both(
                old(model)@,
                *pt,
                kx,
                ky,
            ),
        refines(old(model)@, final(model)@, set![pt.x as int], set![pt.y as int]),
        keeps_colors(old(model)@, final(model)@),
{
    split(Axis::X, pt.x, model, rng);
    let ghost middle = model@;
    split(Axis::Y, pt.y, model, rng);
    proof {
        let kx = (middle.len() - old(model)@.len()) as nat;
        let ky = (model@.len() - middle.len()) as nat;
        assert(old(model)@.len() + kx + ky == model@.len() && model@ == split_both(
            old(model)@,
            *pt,
            kx,
            ky,
        ));
        lemma_refines_chain(
            old(model)@,
            middle,
            model@,
            cut_xs(Axis::X, pt.x),
            cut_ys(Axis::X, pt.x),
            cut_xs(Axis::Y, pt.y),
            cut_ys(Axis::Y, pt.y),
        );
        lemma_refines_widen(
            old(model)@,
            model@,
            cut_xs(Axis::X, pt.x).union(cut_xs(Axis::Y, pt.y)),
            cut_ys(Axis::X, pt.x).union(cut_ys(Axis::Y, pt.y)),
            set![pt.x as int],
            set![pt.y as int],
        );
        lemma_keeps_colors_chain(old(model)@, middle, model@);
    }
}

/// What subdividing leaves when the passes for `points[i]` stop after
/// `rounds[i].0` rounds along x and `rounds[i].1` rounds along y.
pub open spec fn subdivided(model: Seq<Quad>, points: Seq<Point>, rounds: Seq<(nat, nat)>) -> Seq<
    Quad,
>
    decreases points.len(),
{
    if points.len() == 0 {
        model
    } else {
        split_both(
            subdivided(model, points.drop_last(), rounds.drop_last()),
            points.last(),
            rounds.last().0,
            rounds.last().1,
        )
    }
}

/// Subdivides the tiles of `model` at each of `points` in turn: a vertical
/// pass at the point's x, then a horizontal pass at its y.
///
/// Whatever the coin shows, the result is what some numbers of rounds leave;
/// it refines `model`, cut only along the coordinates of `points`, and a
/// collection in a single colour stays in that colour.
pub fn subdivide(model: &mut Vec<Quad>, points: &Vec<Point>, rng: &mut StdRng)
    ensures
        exists|rounds: Seq<(nat, nat)>|
            rounds.len() == points@.len() && final(model)@ == subdivided(
                old(model)@,
                points@,
                rounds,
            ),
        refines(old(model)@, final(model)@, xs_of(points@), ys_of(points@)),
        keeps_colors(old(model)@, final(model)@),
{
    let ghost mut rounds: Seq<(nat, nat)> = Seq::empty();
    let mut i: usize = 0;
    while i < points.len()
        invariant
            0 <= i <= points@.len(),
            rounds.len() == i,
            model@ == subdivided(old(model)@, points@.take(i as int), rounds),
        decreases points@.len() - i,
    {
        let ghost before = model@;
        split_quads_with(&points[i], model, rng);
        proof {
            let pt = points@[i as int];
            let (kx, ky) = choose|kx: nat, ky: nat|
                before.len() + kx + ky == model@.len() && model@ == split_both(before, pt, kx, ky);
            let longer = rounds.push((kx, ky));
            assert(points@.take(i + 1).drop_last() == points@.take(i as int));
            assert(longer.drop_last() == rounds);
            rounds = longer;
        }
        i = i + 1;
    }
    proof {
        assert(points@.take(i as int) == points@);
        lemma_subdivided_refines(old(model)@, points@, rounds);
    }
}

/// The tile `quad` in another colour.
pub open spec fn recolored(quad: Quad, color: Color) -> Quad {
    Quad { low: quad.low, high: quad.high, color }
}

/// The collection in which the tile at `yellow` has been painted yellow, then
/// the one at `red` red, then the one at `blue` blue. Where positions
/// coincide, the later colour stays.
pub open spec fn painted(model: Seq<Quad>, yellow: int, red: int, blue: int) -> Seq<Quad> {
    let first = model.update(yellow, recolored(model[yellow], YELLOW));
    let second = first.update(red, recolored(first[red], RED));
    second.update(blue, recolored(second[blue], BLUE))
}

/// Gives the tile at position `index` the colour `color`.
fn tint(model: &mut Vec<Quad>, index: usize, color: Color)
    requires
        index < old(model)@.len(),
    ensures
        final(model)@ == old(model)@.update(
            index as int,
            recolored(old(model)@[index as int], color),
        ),
{
    let quad = model[index];
    model.set(index, Quad { low: quad.low, high: quad.high, color });
}

/// Paints the tiles at three given positions yellow, red and blue, in that
/// order.
pub fn paint_at(model: &mut Vec<Quad>, yellow: usize, red: usize, blue: usize)
    requires
        yellow < old(model)@.len(),
        red < old(model)@.len(),
        blue < old(model)@.len(),
    ensures
        final(model)@ == painted(old(model)@, yellow as int, red as int, blue as int),
{
    tint(model, yellow, YELLOW);
    tint(model, red, RED);
    tint(model, blue, BLUE);
}

/// Paints three tiles drawn at random, with replacement, yellow, red and
/// blue.
///
/// Whichever positions are drawn, the rectangles stay as they are and at
/// most three tiles change; of a collection that was all white at least one
/// and at most three tiles are no longer white.
pub fn paint(model: &mut Vec<Quad>, rng: &mut StdRng)
    requires
        old(model)@.len() > 0,
    ensures
        exists|yellow: int, red: int, blue: int|
            0 <= yellow < old(model)@.len() && 0 <= red < old(model)@.len() && 0 <= blue < old(
                model,
            )@.len() && final(model)@ == painted(old(model)@, yellow, red, blue),
        same_shapes(old(model)@, final(model)@),
        altered(old(model)@, final(model)@).len() <= 3,
        uniform(old(model)@, WHITE) ==> 1 <= tinted(final(model)@).len() <= 3,
{
    let len = model.len();
    let yellow = pick(rng, len);
    let red = pick(rng, len);
    let blue = pick(rng, len);
    paint_at(model, yellow, red, blue);
    proof {
        lemma_painted_keeps_shapes(old(model)@, yellow as int, red as int, blue as int);
        lemma_painted_alters_few(old(model)@, yellow as int, red as int, blue as int);
        if uniform(old(model)@, WHITE) {
            lemma_painted_tints_few(old(model)@, yellow as int, red as int, blue as int);
        }
    }
}

/// How many grid lines the canvas is divided by in each direction.
pub const DIVISIONS: i32 = 6;

/// The white square of side `size` around the origin that a composition
/// starts from.
pub open spec fn canvas(size: i32) -> Quad {
    Quad {
        low: Point { x: (-(size / 2)) as i32, y: (-(size / 2)) as i32 },
        high: Point { x: (size - size / 2) as i32, y: (size - size / 2) as i32 },
        color: WHITE,
    }
}

/// The points on the canvas's diagonal at which a composition is cut: one
/// per division, a sixth of the side apart, starting at the bottom-left
/// corner.
pub open spec fn diagonal(size: i32) -> Seq<Point> {
    Seq::new(
        DIVISIONS as nat,
        |i: int|
            Point {
                x: (-(size / 2) + i * (size / DIVISIONS)) as i32,
                y: (-(size / 2) + i * (size / DIVISIONS)) as i32,
            },
    )
}

/// Generates a composition on a canvas of side `size`: subdivides the canvas
/// at the points of its diagonal and paints three tiles.
///
/// Whatever is drawn, the tiles partition the canvas, every side of a tile
/// lies on a side of the canvas or on a coordinate of the diagonal's points,
/// at least one and at most three tiles are not white, and unless the canvas
/// is empty every tile has a positive width and height.
pub fn model(size: i32, rng: &mut StdRng) -> (tiling: Vec<Quad>)
    requires
        size >= 0,
    ensures
        exists|rounds: Seq<(nat, nat)>, yellow: int, red: int, blue: int|
            rounds.len() == DIVISIONS && subdivided(
                seq![canvas(size)],
                diagonal(size),
                rounds,
            ).len() == tiling@.len() && 0 <= yellow < tiling@.len() && 0 <= red < tiling@.len()
                && 0 <= blue < tiling@.len() && tiling@ == painted(
                subdivided(seq![canvas(size)], diagonal(size), rounds),
                yellow,
                red,
                blue,
            ),
        tiles(tiling@, canvas(size)),
        aligned(
            tiling@,
            xs_of(diagonal(size)).insert(canvas(size).low.x as int).insert(
                canvas(size).high.x as int,
            ),
            ys_of(diagonal(size)).insert(canvas(size).low.y as int).insert(
                canvas(size).high.y as int,
            ),
        ),
        1 <= tinted(tiling@).len() <= 3,
        size > 0 ==> all_proper(tiling@),
{
    let start: i32 = -(size / 2);
    let step: i32 = size / DIVISIONS;
    let whole = Quad {
        low: Point { x: start, y: start },
        high: Point { x: start + size, y: start + size },
        color: WHITE,
    };
    let mut tiling: Vec<Quad> = Vec::new();
    tiling.push(whole);
    let mut points: Vec<Point> = Vec::new();
    let mut i: i32 = 0;
    while i < DIVISIONS
        invariant
            0 <= i <= DIVISIONS,
            size >= 0,
            start == -(size / 2),
            step == size / DIVISIONS,
            points@ == diagonal(size).take(i as int),
        decreases DIVISIONS - i,
    {
        assert(0 <= i * step <= size) by (nonlinear_arith)
            requires
                0 <= i < 6,
                step == size / 6,
                size >= 0,
        ;
        let coord: i32 = start + i * step;
        points.push(Point { x: coord, y: coord });
        proof {
            assert(points@ == diagonal(size).take(i + 1));
        }
        i = i + 1;
    }
    proof {
        assert(points@ == diagonal(size));
        assert(tiling@ == seq![canvas(size)]);
    }
    subdivide(&mut tiling, &points, rng);
    let ghost cut = tiling@;
    paint(&mut tiling, rng);
    proof {
        let xs = xs_of(diagonal(size));
        let ys = ys_of(diagonal(size));
        let gx = xs.insert(canvas(size).low.x as int).insert(canvas(size).high.x as int);
        let gy = ys.insert(canvas(size).low.y as int).insert(canvas(size).high.y as int);
        lemma_single_tiles(canvas(size));
        lemma_same_shapes_refines(cut, tiling@);
        lemma_refines_chain(seq![canvas(size)], cut, tiling@, xs, ys, Set::empty(), Set::empty());
        lemma_refinement_tiles(
            seq![canvas(size)],
            tiling@,
            canvas(size),
            xs.union(Set::empty()),
            ys.union(Set::empty()),
        );
        assert(aligned(seq![canvas(size)], gx, gy));
        assert(xs.union(Set::empty()).subset_of(gx));
        assert(ys.union(Set::empty()).subset_of(gy));
        assert(uniform(cut, WHITE));
        if size > 0 {
            assert(all_proper(seq![canvas(size)]));
        }
    }
    tiling
}

} // verus!
