use generative_art::hours_of_dark::clip;
use generative_art::hours_of_dark::clip_against;
use generative_art::hours_of_dark::start;
use generative_art::hours_of_dark::Node;
use generative_art::hours_of_dark::Edge;
use generative_art::hours_of_dark::Polygon;
use generative_art::hours_of_dark::Rectangle;
use generative_art::point::Point;

/// Grid units per unit of length: the sketch's coordinates are fractions, the
/// grid's are whole.
const UNIT: f32 = 64.0;

fn pt2(x: f32, y: f32) -> Point {
    Point {
        x: (x * UNIT) as i32,
        y: (y * UNIT) as i32,
    }
}

fn at(x: i32, y: i32) -> Point {
    generative_art::point::pt2(x, y)
}

fn polygons_equivalent(lhs: &Polygon, rhs: &Polygon) -> bool {
    if lhs.is_empty() || rhs.is_empty() {
        return lhs == rhs;
    }
    let Some(index) = rhs.iter().position(|&p| p == lhs[0]) else {
        return false;
    };
    let rhs_iter = {
        let mut ret = rhs.iter().cycle();
        for _ in 0..index {
            ret.next();
        }
        ret.take(lhs.len())
    };

    lhs.iter().eq(rhs_iter.clone()) || lhs.iter().rev().eq(rhs_iter)
}

fn assert_clips_to(poly: Polygon, mask: &Rectangle, expected: &Polygon) {
    let clipped = clip(poly.clone(), mask);
    if !polygons_equivalent(&clipped, expected) {
        println!("polygon = {:?}", poly);
        println!("clipped against {:?} = {:?}", mask, clipped);
        panic!();
    }
}

#[test]
fn clip_totally_intersecting_rectangles() {
    let poly = vec![pt2(0.0, 0.0), pt2(1.0, 0.0), pt2(1.0, 1.0), pt2(0.0, 1.0)];
    let mask = Rectangle(pt2(-1.0, -1.0), pt2(2.0, 2.0));

    assert_clips_to(poly.clone(), &mask, &poly);
}

#[test]
fn clip_mutually_exclusive_rectangles() {
    let poly = vec![pt2(0.0, 0.0), pt2(1.0, 0.0), pt2(1.0, 1.0), pt2(0.0, 1.0)];
    let mask = Rectangle(pt2(-1.0, -1.0), pt2(-0.5, -0.5));

    assert_clips_to(poly, &mask, &Polygon::new());
}

#[test]
fn intersecting_rectangles() {
    let poly = vec![pt2(0.0, 0.0), pt2(1.0, 0.0), pt2(1.0, 1.0), pt2(0.0, 1.0)];
    let mask = Rectangle(pt2(0.5, 0.5), pt2(2.0, 2.0));
    let intersection = vec![pt2(1.0, 0.5), pt2(1.0, 1.0), pt2(0.5, 1.0), pt2(0.5, 0.5)];

    assert_clips_to(poly, &mask, &intersection);
}

#[test]
fn intersecting_rectangles_vertex_for_vertex() {
    let poly = vec![at(0, 0), at(2, 0), at(2, 2), at(0, 2)];
    let mask = Rectangle(at(1, 1), at(4, 4));
    assert_eq!(
        clip(poly, &mask),
        vec![at(1, 1), at(2, 1), at(2, 2), at(1, 2)]
    );
}

#[test]
fn clip_of_empty_polygon_is_empty() {
    let mask = Rectangle(at(-3, -3), at(5, 7));
    assert_eq!(clip(Polygon::new(), &mask), Polygon::new());
    let reversed = Rectangle(at(5, 7), at(-3, -3));
    assert_eq!(clip(Polygon::new(), &reversed), Polygon::new());
}

#[test]
fn clip_inside_returns_the_same_vertices_in_order() {
    let triangle = vec![at(3, 1), at(9, 2), at(5, 8)];
    let mask = Rectangle(at(0, 0), at(10, 10));
    assert_eq!(clip(triangle.clone(), &mask), triangle);

    let bowtie = vec![at(1, 1), at(9, 9), at(9, 1), at(1, 9)];
    assert_eq!(clip(bowtie.clone(), &mask), bowtie);
}

#[test]
fn clip_beyond_each_side_is_empty() {
    let mask = Rectangle(at(0, 0), at(10, 10));
    let shape = |dx: i32, dy: i32| vec![at(dx, dy), at(dx + 4, dy + 1), at(dx + 2, dy + 5)];
    assert_eq!(clip(shape(-20, 2), &mask), Polygon::new());
    assert_eq!(clip(shape(20, 2), &mask), Polygon::new());
    assert_eq!(clip(shape(2, -20), &mask), Polygon::new());
    assert_eq!(clip(shape(2, 20), &mask), Polygon::new());
    assert_eq!(clip(shape(-20, 20), &mask), Polygon::new());
}

#[test]
fn clip_of_triangle_near_a_corner_is_empty() {
    let triangle = vec![at(12, 9), at(9, 12), at(12, 12)];
    let mask = Rectangle(at(0, 0), at(10, 10));
    assert_eq!(clip(triangle, &mask), Polygon::new());
}

#[test]
fn clip_cuts_every_corner_of_a_diamond() {
    let diamond = vec![at(0, -6), at(6, 0), at(0, 6), at(-6, 0)];
    let mask = Rectangle(at(-4, -4), at(4, 4));
    let clipped = clip(diamond, &mask);
    assert_eq!(
        clipped,
        vec![
            at(-4, -2),
            at(-2, -4),
            at(2, -4),
            at(4, -2),
            at(4, 2),
            at(2, 4),
            at(-2, 4),
            at(-4, 2)
        ]
    );
}

#[test]
fn clip_result_lies_in_the_closed_mask() {
    let mask = Rectangle(at(-3, -1), at(1, 2));
    let poly = vec![
        at(i32::MIN, i32::MIN),
        at(i32::MAX, i32::MAX),
        at(i32::MIN, i32::MAX),
    ];
    let clipped = clip(poly, &mask);
    assert_eq!(
        clipped,
        vec![at(1, 2), at(-3, 2), at(-3, -1), at(-1, -1), at(1, 1)]
    );
    for p in &clipped {
        assert!(mask.0.x <= p.x && p.x <= mask.1.x);
        assert!(mask.0.y <= p.y && p.y <= mask.1.y);
    }
}

#[test]
fn clip_of_the_whole_grid_is_the_mask() {
    let mask = Rectangle(at(-1, -1), at(1, 1));
    let everything = vec![
        at(i32::MIN, i32::MIN),
        at(i32::MAX, i32::MIN),
        at(i32::MAX, i32::MAX),
        at(i32::MIN, i32::MAX),
    ];
    assert_eq!(
        clip(everything, &mask),
        vec![at(1, -1), at(1, 1), at(-1, 1), at(-1, -1)]
    );
}

#[test]
fn clip_drops_vertices_on_the_boundary_and_keeps_their_crossings() {
    let square = vec![at(0, 0), at(2, 0), at(2, 2), at(0, 2)];
    let same = Rectangle(at(0, 0), at(2, 2));
    assert_eq!(
        clip(square, &same),
        vec![at(2, 0), at(2, 2), at(0, 2), at(0, 0)]
    );

    let triangle = vec![at(1, 1), at(3, 1), at(2, 2)];
    let touching = Rectangle(at(1, 0), at(4, 3));
    assert_eq!(
        clip(triangle, &touching),
        vec![at(1, 1), at(1, 1), at(3, 1), at(2, 2)]
    );
}

#[test]
fn clip_of_a_polygon_that_shares_a_side_with_the_mask() {
    let square = vec![at(0, 0), at(4, 0), at(4, 4), at(0, 4)];
    let neighbour = Rectangle(at(4, 0), at(8, 4));
    assert_eq!(
        clip(square, &neighbour),
        vec![at(4, 4), at(4, 0), at(4, 0), at(4, 4)]
    );
}

#[test]
fn clip_against_is_one_pass() {
    let square = vec![at(0, 0), at(2, 0), at(2, 2), at(0, 2)];
    let mask = Rectangle(at(1, 1), at(4, 4));
    let sides = mask.edges();
    let round = |nodes: &Vec<Node>| nodes.iter().map(|n| n.round()).collect::<Vec<Point>>();
    let nodes = start(&square);
    assert_eq!(round(&nodes), square);
    let once = clip_against(&nodes, &sides[0]);
    assert_eq!(round(&once), vec![at(1, 0), at(2, 0), at(2, 2), at(1, 2)]);
    let twice = clip_against(&once, &sides[1]);
    assert_eq!(twice, once);
    let thrice = clip_against(&twice, &sides[2]);
    assert_eq!(thrice, once);
    let last = clip_against(&thrice, &sides[3]);
    assert_eq!(round(&last), vec![at(1, 1), at(2, 1), at(2, 2), at(1, 2)]);
    assert_eq!(clip_against(&Vec::new(), &sides[0]), Vec::new());
}

#[test]
fn start_records_the_segment_that_leads_to_each_vertex() {
    let triangle = vec![at(3, 1), at(9, 2), at(5, 8)];
    assert_eq!(
        start(&triangle),
        vec![
            Node { x: 3, y: 1, w: 1, from: at(5, 8), to: at(3, 1) },
            Node { x: 9, y: 2, w: 1, from: at(3, 1), to: at(9, 2) },
            Node { x: 5, y: 8, w: 1, from: at(9, 2), to: at(5, 8) },
        ]
    );
    assert_eq!(start(&Polygon::new()), Vec::new());
}

#[test]
fn clip_against_cuts_in_exact_points() {
    let triangle = vec![at(-5, 3), at(6, 7), at(-3, 0)];
    let mask = Rectangle(at(0, 0), at(4, 2));
    let sides = mask.edges();
    let once = clip_against(&start(&triangle), &sides[0]);
    assert_eq!(
        once,
        vec![
            Node { x: 0, y: 53, w: 11, from: at(0, 0), to: at(0, 2) },
            Node { x: 6, y: 7, w: 1, from: at(-5, 3), to: at(6, 7) },
            Node { x: 0, y: 21, w: 9, from: at(6, 7), to: at(-3, 0) },
        ]
    );
    assert_eq!(once[2].round(), at(0, 2));
    assert_eq!(clip_against(&once, &sides[1]), Vec::new());
}

#[test]
fn round_goes_to_the_nearest_grid_point() {
    let node = |x: i128, y: i128, w: i128| Node { x, y, w, from: at(0, 0), to: at(1, 1) };
    assert_eq!(node(1, 2, 3).round(), at(0, 1));
    assert_eq!(node(1, -1, 2).round(), at(1, 0));
    assert_eq!(node(-1, -2, 3).round(), at(0, -1));
    assert_eq!(node(-3, 3, 2).round(), at(-1, 2));
    assert_eq!(node(21, -21, 7).round(), at(3, -3));
    assert_eq!(
        node(i32::MIN as i128 * 5, i32::MAX as i128 * 5, 5).round(),
        at(i32::MIN, i32::MAX)
    );
}

#[test]
fn rectangle_corners() {
    let mask = Rectangle(at(1, 2), at(5, 7));
    assert_eq!(mask.bottom_left(), at(1, 2));
    assert_eq!(mask.top_left(), at(1, 7));
    assert_eq!(mask.top_right(), at(5, 7));
    assert_eq!(mask.bottom_right(), at(5, 2));
}

#[test]
fn rectangle_edges_in_clipping_order() {
    let mask = Rectangle(at(1, 2), at(5, 7));
    let sides = mask.edges();
    assert_eq!(
        sides[0],
        Edge {
            position: at(1, 2),
            end: at(1, 7),
            interior: at(5, 2)
        }
    );
    assert_eq!(
        sides[1],
        Edge {
            position: at(1, 7),
            end: at(5, 7),
            interior: at(1, 2)
        }
    );
    assert_eq!(
        sides[2],
        Edge {
            position: at(5, 7),
            end: at(5, 2),
            interior: at(1, 7)
        }
    );
    assert_eq!(
        sides[3],
        Edge {
            position: at(5, 2),
            end: at(1, 2),
            interior: at(5, 7)
        }
    );
}

#[test]
fn edge_contains_is_strict() {
    let left = Rectangle(at(0, 0), at(10, 10)).edges()[0];
    assert!(left.contains(at(1, 5)));
    assert!(left.contains(at(1, -100)));
    assert!(!left.contains(at(0, 5)));
    assert!(!left.contains(at(-1, 5)));
    let top = Rectangle(at(0, 0), at(10, 10)).edges()[1];
    assert!(top.contains(at(50, 9)));
    assert!(!top.contains(at(5, 10)));
    assert!(!top.contains(at(5, 11)));
}

#[test]
fn edge_contains_at_the_ends_of_the_grid() {
    let side = Edge {
        position: at(i32::MIN, i32::MIN),
        end: at(i32::MIN, i32::MAX),
        interior: at(i32::MAX, i32::MIN),
    };
    assert!(side.contains(at(i32::MAX, i32::MAX)));
    assert!(!side.contains(at(i32::MIN, i32::MAX)));
}

#[test]
fn intersect_parallel_segment_is_none() {
    let left = Rectangle(at(0, 0), at(10, 10)).edges()[0];
    assert_eq!(left.intersect((at(3, 0), at(3, 8))), None);
    assert_eq!(left.intersect((at(0, 0), at(0, 8))), None);
    assert_eq!(left.intersect((at(4, 4), at(4, 4))), None);
}

#[test]
fn intersect_segment_that_stops_short_is_none() {
    let left = Rectangle(at(0, 0), at(10, 10)).edges()[0];
    assert_eq!(left.intersect((at(1, 0), at(5, 8))), None);
    assert_eq!(left.intersect((at(-5, 0), at(-1, 8))), None);
}

#[test]
fn intersect_of_a_degenerate_side_is_none() {
    let point = Edge {
        position: at(2, 2),
        end: at(2, 2),
        interior: at(5, 2),
    };
    assert_eq!(point.intersect((at(0, 0), at(4, 4))), None);
}

#[test]
fn intersect_returns_an_end_that_lies_on_the_line() {
    let left = Rectangle(at(0, 0), at(10, 10)).edges()[0];
    assert_eq!(left.intersect((at(0, 3), at(5, 8))), Some(at(0, 3)));
    assert_eq!(left.intersect((at(5, 8), at(0, 3))), Some(at(0, 3)));
}

#[test]
fn intersect_rounds_to_the_nearest_grid_point() {
    let line = Edge {
        position: at(1, -5),
        end: at(1, 5),
        interior: at(5, -5),
    };
    assert_eq!(line.intersect((at(0, 0), at(3, 1))), Some(at(1, 0)));
    assert_eq!(line.intersect((at(0, 0), at(3, 2))), Some(at(1, 1)));
    assert_eq!(line.intersect((at(0, 0), at(2, 1))), Some(at(1, 1)));
    assert_eq!(line.intersect((at(0, 0), at(2, -1))), Some(at(1, 0)));
    assert_eq!(line.intersect((at(3, 1), at(0, 0))), Some(at(1, 0)));
}

#[test]
fn intersect_spans_the_whole_grid() {
    let line = Edge {
        position: at(0, i32::MIN),
        end: at(0, i32::MAX),
        interior: at(i32::MAX, i32::MIN),
    };
    assert_eq!(
        line.intersect((at(i32::MIN, i32::MIN), at(i32::MAX, i32::MAX))),
        Some(at(0, 0))
    );
    assert_eq!(
        line.intersect((at(i32::MIN, i32::MAX), at(i32::MAX, i32::MIN))),
        Some(at(0, -1))
    );
}

#[test]
fn clip_keeps_exactly_the_inner_vertices_and_adds_border_points() {
    let mask = Rectangle(at(0, 0), at(10, 10));
    let poly = vec![
        at(2, 3),
        at(14, 5),
        at(7, 7),
        at(5, 16),
        at(-4, 8),
        at(3, 5),
        at(0, 4),
        at(5, 10),
    ];
    let clipped = clip(poly.clone(), &mask);
    let inner = |p: &Point| 0 < p.x && p.x < 10 && 0 < p.y && p.y < 10;
    for p in &clipped {
        assert!(0 <= p.x && p.x <= 10 && 0 <= p.y && p.y <= 10);
        if inner(p) {
            assert!(poly.contains(p));
        }
    }
    for p in poly.iter().filter(|p| inner(p)) {
        assert!(clipped.contains(p));
    }
    let kept: Vec<Point> = clipped.iter().copied().filter(inner).collect();
    assert_eq!(kept, vec![at(2, 3), at(7, 7), at(3, 5)]);
}

#[test]
fn clip_of_a_near_miss_is_empty() {
    let triangle = vec![at(-5, 3), at(6, 7), at(-3, 0)];
    let mask = Rectangle(at(0, 0), at(4, 2));
    assert_eq!(clip(triangle, &mask), Polygon::new());
}

#[test]
fn clip_of_polygons_parted_from_the_mask_by_a_slanted_line_is_empty() {
    let mask = Rectangle(at(0, 0), at(10, 10));
    assert_eq!(clip(vec![at(12, 9), at(9, 12), at(12, 12)], &mask), Polygon::new());
    assert_eq!(clip(vec![at(-2, 9), at(1, 12), at(-5, 14), at(-6, 8)], &mask), Polygon::new());
    assert_eq!(clip(vec![at(11, 0), at(21, 11), at(21, 0)], &mask), Polygon::new());
    let narrow = Rectangle(at(0, 4), at(10, 10));
    assert_eq!(clip(vec![at(10, 3), at(13, 10), at(13, 3)], &narrow), Polygon::new());
}

#[test]
fn clip_rounds_only_what_it_hands_out() {
    let mask = Rectangle(at(0, 0), at(3, 3));
    let triangle = vec![at(-1, 1), at(4, 2), at(1, 5)];
    assert_eq!(
        clip(triangle, &mask),
        vec![at(3, 3), at(0, 3), at(0, 3), at(0, 1), at(3, 2), at(3, 3)]
    );
}

/// A fraction with a positive denominator, for an independent exact clipper.
#[derive(Clone, Copy, Debug)]
struct Frac(i128, i128);

impl Frac {
    fn minus(self, c: i128) -> i128 {
        self.0 - c * self.1
    }
    fn nearest(self) -> i32 {
        (2 * self.0 + self.1).div_euclid(2 * self.1) as i32
    }
}

/// Cuts the segment from `p` to `q` where the coordinate picked by `upright`
/// is `c`, given the two signed distances scaled by the denominators.
fn cut(p: (Frac, Frac), q: (Frac, Frac), rp: i128, rq: i128, upright: bool) -> (Frac, Frac) {
    let (pa, pb) = if upright { (p.0, p.1) } else { (p.1, p.0) };
    let (qa, qb) = if upright { (q.0, q.1) } else { (q.1, q.0) };
    // weights of p and q: |rq| / pa.1 and |rp| / qa.1 in proportion
    let wp = rq.abs() * pa.1;
    let wq = rp.abs() * qa.1;
    let mix = |u: Frac, v: Frac| {
        let num = wp * u.0 * v.1 + wq * v.0 * u.1;
        let den = (wp + wq) * u.1 * v.1;
        let (mut a, mut b) = (num.abs(), den);
        while b != 0 {
            (a, b) = (b, a % b);
        }
        Frac(num / a, den / a)
    };
    let (a, b) = (mix(pa, qa), mix(pb, qb));
    if upright {
        (a, b)
    } else {
        (b, a)
    }
}

fn reference_clip(poly: &[Point], mask: &Rectangle) -> Vec<Point> {
    let sides = [
        (true, mask.0.x as i128, 1),
        (false, mask.1.y as i128, -1),
        (true, mask.1.x as i128, -1),
        (false, mask.0.y as i128, 1),
    ];
    let mut current: Vec<(Frac, Frac)> = poly
        .iter()
        .map(|p| (Frac(p.x as i128, 1), Frac(p.y as i128, 1)))
        .collect();
    for (upright, c, inward) in sides {
        let mut next = Vec::new();
        if let Some(&last) = current.last() {
            let mut previous = last;
            for &vertex in &current {
                let rp = if upright { previous.0.minus(c) } else { previous.1.minus(c) };
                let rq = if upright { vertex.0.minus(c) } else { vertex.1.minus(c) };
                if ((rp <= 0 && 0 <= rq) || (rq <= 0 && 0 <= rp)) && !(rp == 0 && rq == 0) {
                    next.push(cut(previous, vertex, rp, rq, upright));
                }
                if rq * inward > 0 {
                    next.push(vertex);
                }
                previous = vertex;
            }
        }
        current = next;
    }
    current
        .iter()
        .map(|v| at(v.0.nearest(), v.1.nearest()))
        .collect()
}

#[test]
fn clip_agrees_with_clipping_in_exact_fractions() {
    let mut state: u64 = 0x2545_f491_4f6c_dd1d;
    let mut draw = |low: i32, high: i32| {
        state ^= state << 13;
        state ^= state >> 7;
        state ^= state << 17;
        low + (state % (high - low + 1) as u64) as i32
    };
    let mut cut_seen = 0;
    for _ in 0..3000 {
        let reach = [3, 6, 12][draw(0, 2) as usize];
        let x0 = draw(-reach, reach);
        let y0 = draw(-reach, reach);
        let mask = Rectangle(at(x0, y0), at(x0 + draw(1, reach), y0 + draw(1, reach)));
        let count = draw(1, 6);
        let poly: Vec<Point> = (0..count)
            .map(|_| at(draw(-2 * reach, 2 * reach), draw(-2 * reach, 2 * reach)))
            .collect();
        let clipped = clip(poly.clone(), &mask);
        assert_eq!(clipped, reference_clip(&poly, &mask));
        if clipped.iter().any(|p| !poly.contains(p)) {
            cut_seen += 1;
        }
    }
    assert!(cut_seen > 100);
}
