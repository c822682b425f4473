use generative_art::piet_mondrian::cut;
use generative_art::piet_mondrian::follow_coin;
use generative_art::piet_mondrian::model;
use generative_art::piet_mondrian::paint;
use generative_art::piet_mondrian::paint_at;
use generative_art::piet_mondrian::position;
use generative_art::piet_mondrian::split;
use generative_art::piet_mondrian::split_quad;
use generative_art::piet_mondrian::split_quad_on_x;
use generative_art::piet_mondrian::split_quad_on_y;
use generative_art::piet_mondrian::split_quads_with;
use generative_art::piet_mondrian::subdivide;
use generative_art::piet_mondrian::Axis;
use generative_art::piet_mondrian::Color;
use generative_art::piet_mondrian::Quad;
use generative_art::piet_mondrian::BLUE;
use generative_art::piet_mondrian::DIVISIONS;
use generative_art::piet_mondrian::RED;
use generative_art::piet_mondrian::WHITE;
use generative_art::piet_mondrian::YELLOW;
use generative_art::point::pt2;
use generative_art::point::Point;
use rand::rngs::StdRng;
use rand::SeedableRng;

fn quad(x0: i32, y0: i32, x1: i32, y1: i32, color: Color) -> Quad {
    Quad {
        low: pt2(x0, y0),
        high: pt2(x1, y1),
        color,
    }
}

fn area(q: &Quad) -> i64 {
    (q.high.x as i64 - q.low.x as i64) * (q.high.y as i64 - q.low.y as i64)
}

fn total_area(model: &[Quad]) -> i64 {
    model.iter().map(area).sum()
}

fn overlap(a: &Quad, b: &Quad) -> bool {
    a.low.x < b.high.x && b.low.x < a.high.x && a.low.y < b.high.y && b.low.y < a.high.y
}

fn disjoint(model: &[Quad]) -> bool {
    for i in 0..model.len() {
        for j in 0..model.len() {
            if i != j && overlap(&model[i], &model[j]) {
                return false;
            }
        }
    }
    true
}

fn covers_each_cell_once(model: &[Quad], bounds: &Quad) -> bool {
    for x in (bounds.low.x - 2)..(bounds.high.x + 2) {
        for y in (bounds.low.y - 2)..(bounds.high.y + 2) {
            let holders = model
                .iter()
                .filter(|q| q.low.x <= x && x < q.high.x && q.low.y <= y && y < q.high.y)
                .count();
            let within =
                bounds.low.x <= x && x < bounds.high.x && bounds.low.y <= y && y < bounds.high.y;
            if holders != usize::from(within) {
                return false;
            }
        }
    }
    true
}

fn aligned(model: &[Quad], xs: &[i32], ys: &[i32]) -> bool {
    model.iter().all(|q| {
        xs.contains(&q.low.x)
            && xs.contains(&q.high.x)
            && ys.contains(&q.low.y)
            && ys.contains(&q.high.y)
    })
}

fn tinted(model: &[Quad]) -> usize {
    model.iter().filter(|q| q.color != WHITE).count()
}

#[test]
fn colors_are_the_four_of_the_palette() {
    assert_eq!(BLUE, (19, 86, 162));
    assert_eq!(RED, (212, 9, 32));
    assert_eq!(WHITE, (255, 255, 255));
    assert_eq!(YELLOW, (247, 216, 68));
    assert_eq!(DIVISIONS, 6);
}

#[test]
fn point_constructor() {
    assert_eq!(pt2(3, -4), Point { x: 3, y: -4 });
}

#[test]
fn contains_x_is_strict() {
    let q = quad(-2, 0, 3, 9, WHITE);
    assert!(q.contains_x(-1));
    assert!(q.contains_x(2));
    assert!(!q.contains_x(-2));
    assert!(!q.contains_x(3));
    assert!(!q.contains_x(-3));
    assert!(!q.contains_x(4));
    assert!(q.contains_x(0) && !q.contains_y(0));
}

#[test]
fn contains_y_is_strict() {
    let q = quad(-2, 0, 3, 9, WHITE);
    assert!(q.contains_y(1));
    assert!(q.contains_y(8));
    assert!(!q.contains_y(0));
    assert!(!q.contains_y(9));
    assert!(!q.contains_y(-1));
    assert!(!q.contains_y(10));
}

#[test]
fn contains_on_follows_the_axis() {
    let q = quad(0, 10, 5, 20, WHITE);
    assert!(q.contains_on(Axis::X, 3));
    assert!(!q.contains_on(Axis::Y, 3));
    assert!(q.contains_on(Axis::Y, 15));
    assert!(!q.contains_on(Axis::X, 15));
}

#[test]
fn reversed_quad_contains_nothing() {
    let q = quad(5, 5, -5, -5, WHITE);
    for v in -7..8 {
        assert!(!q.contains_x(v));
        assert!(!q.contains_y(v));
    }
}

#[test]
fn split_quad_on_x_cuts_exactly() {
    let parts = split_quad_on_x(3, quad(0, 1, 10, 7, RED));
    assert_eq!(parts[0], quad(0, 1, 3, 7, RED));
    assert_eq!(parts[1], quad(3, 1, 10, 7, RED));
}

#[test]
fn split_quad_on_y_cuts_exactly() {
    let parts = split_quad_on_y(3, quad(0, 1, 10, 7, BLUE));
    assert_eq!(parts[0], quad(0, 1, 10, 3, BLUE));
    assert_eq!(parts[1], quad(0, 3, 10, 7, BLUE));
}

#[test]
fn split_quad_follows_the_axis() {
    let whole = quad(0, 0, 8, 8, YELLOW);
    assert_eq!(split_quad(Axis::X, 2, whole), split_quad_on_x(2, whole));
    assert_eq!(split_quad(Axis::Y, 2, whole), split_quad_on_y(2, whole));
}

#[test]
fn position_finds_the_first_straddling_tile() {
    let tiles = vec![
        quad(0, 0, 2, 10, WHITE),
        quad(2, 0, 6, 5, WHITE),
        quad(2, 5, 6, 10, WHITE),
        quad(6, 0, 10, 10, WHITE),
    ];
    assert_eq!(position(&tiles, Axis::X, 4), Some(1));
    assert_eq!(position(&tiles, Axis::X, 1), Some(0));
    assert_eq!(position(&tiles, Axis::X, 8), Some(3));
    assert_eq!(position(&tiles, Axis::X, 2), None);
    assert_eq!(position(&tiles, Axis::X, 6), None);
    assert_eq!(position(&tiles, Axis::X, 0), None);
    assert_eq!(position(&tiles, Axis::X, 11), None);
    assert_eq!(position(&tiles, Axis::Y, 5), Some(0));
    assert_eq!(position(&tiles, Axis::Y, 7), Some(0));
    assert_eq!(position(&Vec::new(), Axis::Y, 7), None);
}

#[test]
fn cut_moves_the_halves_to_the_waiting_list() {
    let mut tiles = vec![
        quad(0, 0, 2, 10, WHITE),
        quad(2, 0, 6, 5, RED),
        quad(6, 0, 10, 10, WHITE),
    ];
    let mut waiting = vec![quad(2, 5, 6, 10, BLUE)];
    cut(Axis::X, 4, 1, &mut tiles, &mut waiting);
    assert_eq!(tiles, vec![quad(0, 0, 2, 10, WHITE), quad(6, 0, 10, 10, WHITE)]);
    assert_eq!(
        waiting,
        vec![quad(2, 5, 6, 10, BLUE), quad(2, 0, 4, 5, RED), quad(4, 0, 6, 5, RED)]
    );
}

#[test]
fn cutting_every_straddling_tile_in_turn() {
    let mut tiles = vec![
        quad(0, 0, 10, 4, WHITE),
        quad(0, 4, 3, 10, WHITE),
        quad(3, 4, 10, 10, WHITE),
    ];
    let mut waiting = Vec::new();
    let mut rounds = 0;
    while let Some(index) = position(&tiles, Axis::X, 5) {
        cut(Axis::X, 5, index, &mut tiles, &mut waiting);
        rounds += 1;
    }
    assert_eq!(rounds, 2);
    assert_eq!(tiles, vec![quad(0, 4, 3, 10, WHITE)]);
    assert_eq!(
        waiting,
        vec![
            quad(0, 0, 5, 4, WHITE),
            quad(5, 0, 10, 4, WHITE),
            quad(3, 4, 5, 10, WHITE),
            quad(5, 4, 10, 10, WHITE)
        ]
    );
}

#[test]
fn split_leaves_a_settled_collection_alone() {
    let tiles = vec![quad(0, 0, 5, 10, WHITE), quad(5, 0, 10, 10, RED)];
    for seed in 0..20 {
        let mut rng = StdRng::seed_from_u64(seed);
        let mut model = tiles.clone();
        split(Axis::X, 5, &mut model, &mut rng);
        assert_eq!(model, tiles);
        split(Axis::X, 0, &mut model, &mut rng);
        assert_eq!(model, tiles);
        split(Axis::Y, 10, &mut model, &mut rng);
        assert_eq!(model, tiles);
        split(Axis::Y, -3, &mut model, &mut rng);
        assert_eq!(model, tiles);
    }
}

#[test]
fn split_of_one_tile_cuts_it_or_leaves_it() {
    let whole = quad(0, 0, 10, 10, WHITE);
    let mut cut_seen = false;
    let mut kept_seen = false;
    for seed in 0..64 {
        let mut rng = StdRng::seed_from_u64(seed);
        let mut model = vec![whole];
        split(Axis::Y, 4, &mut model, &mut rng);
        if model.len() == 1 {
            assert_eq!(model, vec![whole]);
            kept_seen = true;
        } else {
            assert_eq!(model, vec![quad(0, 0, 10, 4, WHITE), quad(0, 4, 10, 10, WHITE)]);
            cut_seen = true;
        }
    }
    assert!(cut_seen && kept_seen);
}

#[test]
fn split_outcome_is_some_number_of_rounds() {
    let start = vec![
        quad(0, 0, 10, 4, WHITE),
        quad(0, 4, 3, 10, RED),
        quad(3, 4, 10, 10, BLUE),
    ];
    let after_one = vec![
        quad(0, 4, 3, 10, RED),
        quad(3, 4, 10, 10, BLUE),
        quad(0, 0, 5, 4, WHITE),
        quad(5, 0, 10, 4, WHITE),
    ];
    let after_two = vec![
        quad(0, 4, 3, 10, RED),
        quad(0, 0, 5, 4, WHITE),
        quad(5, 0, 10, 4, WHITE),
        quad(3, 4, 5, 10, BLUE),
        quad(5, 4, 10, 10, BLUE),
    ];
    let mut seen = [false; 3];
    for seed in 0..200 {
        let mut rng = StdRng::seed_from_u64(seed);
        let mut model = start.clone();
        split(Axis::X, 5, &mut model, &mut rng);
        if model == start {
            seen[0] = true;
        } else if model == after_one {
            seen[1] = true;
        } else {
            assert_eq!(model, after_two);
            seen[2] = true;
        }
    }
    assert_eq!(seen, [true, true, true]);
}

#[test]
fn split_keeps_the_partition() {
    let bounds = quad(-8, -8, 8, 8, WHITE);
    for seed in 0..50 {
        let mut rng = StdRng::seed_from_u64(seed);
        let mut model = vec![bounds];
        for at in [-4, 0, 4, 2] {
            split(Axis::X, at, &mut model, &mut rng);
            assert_eq!(total_area(&model), 256);
            assert!(disjoint(&model));
            split(Axis::Y, at, &mut model, &mut rng);
            assert_eq!(total_area(&model), 256);
            assert!(disjoint(&model));
        }
        assert!(covers_each_cell_once(&model, &bounds));
        assert!(aligned(&model, &[-8, 8, -4, 0, 4, 2], &[-8, 8, -4, 0, 4, 2]));
        assert_eq!(tinted(&model), 0);
    }
}

#[test]
fn split_quads_with_cuts_along_both_coordinates_only() {
    let bounds = quad(0, 0, 12, 9, RED);
    let mut seen_sizes = std::collections::BTreeSet::new();
    for seed in 0..100 {
        let mut rng = StdRng::seed_from_u64(seed);
        let mut model = vec![bounds];
        split_quads_with(&pt2(5, 3), &mut model, &mut rng);
        assert_eq!(total_area(&model), 108);
        assert!(disjoint(&model));
        assert!(covers_each_cell_once(&model, &bounds));
        assert!(aligned(&model, &[0, 12, 5], &[0, 9, 3]));
        assert!(model.iter().all(|q| q.color == RED));
        seen_sizes.insert(model.len());
    }
    assert_eq!(seen_sizes.into_iter().collect::<Vec<_>>(), vec![1, 2, 3, 4]);
}

#[test]
fn subdivision_conserves_area() {
    let bounds = quad(-50, -30, 70, 90, WHITE);
    let points = vec![
        pt2(-20, 0),
        pt2(10, 10),
        pt2(-20, 40),
        pt2(69, -29),
        pt2(0, 0),
        pt2(200, -200),
        pt2(-50, 90),
    ];
    for seed in 0..40 {
        let mut rng = StdRng::seed_from_u64(seed);
        let mut model = vec![bounds];
        subdivide(&mut model, &points, &mut rng);
        assert_eq!(total_area(&model), 120 * 120);
        assert!(disjoint(&model));
        assert!(covers_each_cell_once(&model, &bounds));
    }
}

#[test]
fn subdivision_cuts_only_on_given_coordinates() {
    let bounds = quad(-50, -30, 70, 90, WHITE);
    let points = vec![pt2(-20, 0), pt2(10, 10), pt2(-20, 40), pt2(69, -29), pt2(0, 0)];
    let xs = [-50, 70, -20, 10, 69, 0];
    let ys = [-30, 90, 0, 10, 40, -29];
    let mut largest = 0;
    for seed in 0..40 {
        let mut rng = StdRng::seed_from_u64(seed);
        let mut model = vec![bounds];
        subdivide(&mut model, &points, &mut rng);
        assert!(aligned(&model, &xs, &ys));
        assert!(model.iter().all(|q| q.low.x < q.high.x && q.low.y < q.high.y));
        largest = largest.max(model.len());
    }
    assert!(largest > 1);
}

#[test]
fn subdivision_without_points_changes_nothing() {
    let tiles = vec![quad(0, 0, 5, 10, WHITE), quad(5, 0, 10, 10, RED)];
    let mut rng = StdRng::seed_from_u64(1);
    let mut model = tiles.clone();
    subdivide(&mut model, &Vec::new(), &mut rng);
    assert_eq!(model, tiles);
}

#[test]
fn paint_at_sets_three_colors() {
    let mut model = vec![
        quad(0, 0, 1, 1, WHITE),
        quad(1, 0, 2, 1, WHITE),
        quad(2, 0, 3, 1, WHITE),
        quad(3, 0, 4, 1, WHITE),
    ];
    paint_at(&mut model, 2, 0, 3);
    assert_eq!(
        model,
        vec![
            quad(0, 0, 1, 1, RED),
            quad(1, 0, 2, 1, WHITE),
            quad(2, 0, 3, 1, YELLOW),
            quad(3, 0, 4, 1, BLUE)
        ]
    );
}

#[test]
fn paint_at_last_color_wins() {
    let blank = vec![quad(0, 0, 1, 1, WHITE), quad(1, 0, 2, 1, WHITE)];
    let mut model = blank.clone();
    paint_at(&mut model, 1, 1, 1);
    assert_eq!(model, vec![quad(0, 0, 1, 1, WHITE), quad(1, 0, 2, 1, BLUE)]);
    let mut model = blank.clone();
    paint_at(&mut model, 0, 0, 1);
    assert_eq!(model, vec![quad(0, 0, 1, 1, RED), quad(1, 0, 2, 1, BLUE)]);
    let mut model = blank.clone();
    paint_at(&mut model, 0, 1, 0);
    assert_eq!(model, vec![quad(0, 0, 1, 1, BLUE), quad(1, 0, 2, 1, RED)]);
}

#[test]
fn paint_tints_at_most_three_tiles() {
    let blank: Vec<Quad> = (0..5).map(|i| quad(i, 0, i + 1, 1, WHITE)).collect();
    let mut counts = std::collections::BTreeSet::new();
    for seed in 0..200 {
        let mut rng = StdRng::seed_from_u64(seed);
        let mut model = blank.clone();
        paint(&mut model, &mut rng);
        assert_eq!(model.len(), blank.len());
        for (after, before) in model.iter().zip(&blank) {
            assert_eq!((after.low, after.high), (before.low, before.high));
            assert!([WHITE, YELLOW, RED, BLUE].contains(&after.color));
        }
        assert_eq!(model.iter().filter(|q| q.color == BLUE).count(), 1);
        let n = tinted(&model);
        assert!(1 <= n && n <= 3);
        counts.insert(n);
    }
    assert_eq!(counts.into_iter().collect::<Vec<_>>(), vec![1, 2, 3]);
}

#[test]
fn paint_of_a_single_tile_leaves_it_blue() {
    for seed in 0..10 {
        let mut rng = StdRng::seed_from_u64(seed);
        let mut model = vec![quad(0, 0, 4, 4, WHITE)];
        paint(&mut model, &mut rng);
        assert_eq!(model, vec![quad(0, 0, 4, 4, BLUE)]);
    }
}

#[test]
fn model_partitions_the_canvas() {
    for seed in 0..30 {
        let mut rng = StdRng::seed_from_u64(seed);
        let tiling = model(60, &mut rng);
        let canvas = quad(-30, -30, 30, 30, WHITE);
        assert_eq!(total_area(&tiling), 3600);
        assert!(disjoint(&tiling));
        assert!(covers_each_cell_once(&tiling, &canvas));
        let lines = [-30, -20, -10, 0, 10, 20, 30];
        assert!(aligned(&tiling, &lines, &lines));
        assert!(tiling.iter().all(|q| q.low.x < q.high.x && q.low.y < q.high.y));
        let n = tinted(&tiling);
        assert!(1 <= n && n <= 3);
    }
}

#[test]
fn model_of_an_odd_size() {
    for seed in 0..30 {
        let mut rng = StdRng::seed_from_u64(seed);
        let tiling = model(45, &mut rng);
        let canvas = quad(-22, -22, 23, 23, WHITE);
        assert_eq!(total_area(&tiling), 45 * 45);
        assert!(disjoint(&tiling));
        assert!(covers_each_cell_once(&tiling, &canvas));
        let lines = [-22, -15, -8, -1, 6, 13, 23];
        assert!(aligned(&tiling, &lines, &lines));
        assert!(tinted(&tiling) <= 3);
    }
}

#[test]
fn model_of_an_empty_canvas_is_one_painted_tile() {
    let mut rng = StdRng::seed_from_u64(3);
    assert_eq!(model(0, &mut rng), vec![quad(0, 0, 0, 0, BLUE)]);
}

#[test]
fn model_of_the_largest_canvas() {
    let mut rng = StdRng::seed_from_u64(5);
    let tiling = model(i32::MAX, &mut rng);
    let side = i32::MAX as i64;
    assert_eq!(total_area(&tiling), side * side);
    assert!(disjoint(&tiling));
    assert!(tinted(&tiling) <= 3);
}

#[test]
fn model_varies_with_the_seed() {
    let mut sizes = std::collections::BTreeSet::new();
    for seed in 0..50 {
        let mut rng = StdRng::seed_from_u64(seed);
        sizes.insert(model(600, &mut rng).len());
    }
    assert!(sizes.len() > 1);
}

#[test]
fn model_repeats_for_one_seed() {
    let mut first = StdRng::seed_from_u64(11);
    let mut second = StdRng::seed_from_u64(11);
    assert_eq!(model(720, &mut first), model(720, &mut second));
}

#[test]
fn paint_alters_at_most_three_tiles_of_any_colors() {
    let palette = [WHITE, YELLOW, RED, BLUE, (1, 2, 3)];
    let before: Vec<Quad> = (0..7)
        .map(|i| quad(i, 0, i + 1, 1, palette[i as usize % palette.len()]))
        .collect();
    for seed in 0..100 {
        let mut rng = StdRng::seed_from_u64(seed);
        let mut model = before.clone();
        paint(&mut model, &mut rng);
        let altered = model.iter().zip(&before).filter(|(a, b)| a != b).count();
        assert!(altered <= 3);
    }
}

#[test]
fn follow_coin_stops_on_heads_and_cuts_on_tails() {
    let tiles = vec![quad(0, 0, 2, 10, WHITE), quad(2, 0, 6, 5, RED)];
    let mut model = tiles.clone();
    let mut waiting = vec![quad(6, 0, 10, 10, BLUE)];
    assert!(!follow_coin(true, Axis::Y, 3, 1, &mut model, &mut waiting));
    assert_eq!(model, tiles);
    assert_eq!(waiting, vec![quad(6, 0, 10, 10, BLUE)]);
    assert!(follow_coin(false, Axis::Y, 3, 1, &mut model, &mut waiting));
    assert_eq!(model, vec![quad(0, 0, 2, 10, WHITE)]);
    assert_eq!(
        waiting,
        vec![quad(6, 0, 10, 10, BLUE), quad(2, 0, 6, 3, RED), quad(2, 3, 6, 5, RED)]
    );
}

#[test]
fn a_pass_driven_by_given_coins() {
    let mut model = vec![
        quad(0, 0, 10, 4, WHITE),
        quad(0, 4, 3, 10, RED),
        quad(3, 4, 10, 10, BLUE),
    ];
    let mut waiting = Vec::new();
    let mut coins = [false, false, true].into_iter();
    let mut flips = 0;
    while let Some(index) = position(&model, Axis::X, 5) {
        flips += 1;
        if !follow_coin(coins.next().unwrap(), Axis::X, 5, index, &mut model, &mut waiting) {
            break;
        }
    }
    model.append(&mut waiting);
    assert_eq!(flips, 2);
    assert_eq!(
        model,
        vec![
            quad(0, 4, 3, 10, RED),
            quad(0, 0, 5, 4, WHITE),
            quad(5, 0, 10, 4, WHITE),
            quad(3, 4, 5, 10, BLUE),
            quad(5, 4, 10, 10, BLUE)
        ]
    );
}
