use hexwalk::geometry::Point;
use hexwalk::grid::Grid;
use hexwalk::instructions::Instruction;
use hexwalk::instructions::InstructionBuilder;
use hexwalk::randsrc::RandomSource;
use hexwalk::walker::RandomWalkParameters;
use hexwalk::walker::sort_walks;
use hexwalk::walker::slice_walks;
use hexwalk::walker::walk_before;

fn pt(x: i64, y: i64) -> Point {
    Point::new(x, y)
}

fn params(points: usize, sharpness: i64, slice: i64) -> RandomWalkParameters {
    RandomWalkParameters {
        smooth_number_of_points: points,
        smooth_sharpness: sharpness,
        slice_percentage: slice,
    }
}

#[test]
fn cover_visits_every_cell_exactly_once() {
    let g = Grid::hex_grid(4, 3, 10_000, pt(0, 0));
    for seed in 0..8u64 {
        let mut rng = RandomSource::from_seed(seed);
        let choices = rng.draw(g.tiles.len() + 1);
        let walks = g.cover_walks(&choices);
        let mut counts = vec![0usize; g.tiles.len()];
        for w in &walks {
            assert!(!w.is_empty());
            for &c in w {
                counts[c] += 1;
            }
        }
        for c in counts {
            assert_eq!(c, 1);
        }
    }
}

#[test]
fn cover_of_two_cell_grid_is_one_walk() {
    // On the 1x2 grid the walk can never get stuck: whatever the draws,
    // there is exactly one walk and it holds both cells.
    let g = Grid::hex_grid(1, 2, 10_000, pt(0, 0));
    for seed in 0..16u64 {
        let mut rng = RandomSource::from_seed(seed);
        let choices = rng.draw(3);
        let walks = g.cover_walks(&choices);
        assert_eq!(walks.len(), 1);
        let mut w = walks[0].clone();
        w.sort();
        assert_eq!(w, vec![0, 1]);
    }
}

#[test]
fn cover_replays_identically_for_equal_draws() {
    let g = Grid::hex_grid(5, 5, 10_000, pt(0, 0));
    let mut rng1 = RandomSource::from_seed(99);
    let mut rng2 = RandomSource::from_seed(99);
    let c1 = rng1.draw(g.tiles.len() + 1);
    let c2 = rng2.draw(g.tiles.len() + 1);
    assert_eq!(c1, c2);
    assert_eq!(g.cover_walks(&c1), g.cover_walks(&c2));
}

#[test]
fn random_walk_replays_identically_for_equal_seeds() {
    let g = Grid::hex_grid(6, 4, 10_000, pt(0, 0));
    let p = params(3, 900, 500);
    let mut rng1 = RandomSource::from_seed(1234);
    let mut rng2 = RandomSource::from_seed(1234);
    let w1 = g.random_walk(p, &mut rng1);
    let w2 = g.random_walk(p, &mut rng2);
    assert_eq!(w1, w2);
}

#[test]
fn random_walk_on_two_cell_grid_draws_one_stroke() {
    let g = Grid::hex_grid(1, 2, 10_000, pt(0, 0));
    let p = params(0, 500, 0);
    let mut rng = RandomSource::from_seed(5);
    let walks = g.random_walk(p, &mut rng);
    assert_eq!(walks.len(), 1);
    // the single walk joins the two cell centers in some order
    let centers = [g.tiles[0].position, g.tiles[1].position];
    assert_eq!(walks[0].len(), 2);
    assert!(walks[0] == vec![centers[0], centers[1]] || walks[0] == vec![centers[1], centers[0]]);
    let instrs = InstructionBuilder::build(&walks);
    assert_eq!(instrs.len(), 2);
    assert!(matches!(instrs[0], Instruction::MoveTo(_)));
    assert!(matches!(instrs[1], Instruction::LineTo(_)));
}

#[test]
fn walk_order_is_shortest_first_then_descending_x_then_y() {
    let short = vec![pt(0, 0), pt(1, 0)];
    let long = vec![pt(0, 0), pt(1, 0), pt(2, 0)];
    let long_right = vec![pt(5, 0), pt(6, 0), pt(7, 0)];
    let long_up = vec![pt(5, 9), pt(6, 9), pt(7, 9)];
    assert!(walk_before(&short, &long));
    assert!(!walk_before(&long, &short));
    assert!(walk_before(&long_right, &long));
    assert!(walk_before(&long_up, &long_right));
    let sorted = sort_walks(vec![long.clone(), short.clone(), long_up.clone(), long_right.clone()]);
    assert_eq!(sorted, vec![short, long_up, long_right, long]);
}

#[test]
fn sort_is_stable_for_equal_walks() {
    let a = vec![pt(0, 0), pt(1, 1)];
    let sorted = sort_walks(vec![a.clone(), a.clone()]);
    assert_eq!(sorted, vec![a.clone(), a]);
}

#[test]
fn slice_drops_the_shortest_rounded() {
    let w1 = vec![pt(0, 0)];
    let w2 = vec![pt(0, 0), pt(1, 0)];
    let w3 = vec![pt(0, 0), pt(1, 0), pt(2, 0)];
    // 3 walks, 500 thousandths: drop round(1.5) = 2
    let kept = slice_walks(vec![w1.clone(), w2.clone(), w3.clone()], 500);
    assert_eq!(kept, vec![w3.clone()]);
    // keep everything
    let all = slice_walks(vec![w1.clone(), w2.clone(), w3.clone()], 0);
    assert_eq!(all.len(), 3);
    // drop everything
    let none = slice_walks(vec![w1, w2, w3], 1000);
    assert!(none.is_empty());
}

#[test]
fn walk_positions_map_indices_to_centers() {
    let g = Grid::hex_grid(3, 2, 10_000, pt(7, 7));
    let mut rng = RandomSource::from_seed(3);
    let choices = rng.draw(g.tiles.len() + 1);
    let walks = g.cover_walks(&choices);
    let polys = g.walk_positions(&walks);
    assert_eq!(polys.len(), walks.len());
    for (w, p) in walks.iter().zip(polys.iter()) {
        assert_eq!(w.len(), p.len());
        for (&c, &q) in w.iter().zip(p.iter()) {
            assert_eq!(q, g.tiles[c].position);
        }
    }
}

#[test]
fn pipeline_never_repeats_a_segment() {
    let g = Grid::hex_grid(6, 6, 10_000, pt(0, 0));
    let p = params(2, 700, 300);
    let mut rng = RandomSource::from_seed(2024);
    let walks = g.random_walk(p, &mut rng);
    let instrs = InstructionBuilder::build(&walks);
    // replay the cursor and collect each stroke's undirected segment
    let mut segments: Vec<((i64, i64), (i64, i64))> = Vec::new();
    let mut cur = pt(0, 0);
    for i in &instrs {
        match i {
            Instruction::MoveTo(p) => cur = *p,
            Instruction::LineTo(p) => {
                let a = (cur.x, cur.y);
                let b = (p.x, p.y);
                let key = if a <= b { (a, b) } else { (b, a) };
                assert!(!segments.contains(&key), "segment drawn twice");
                segments.push(key);
                cur = *p;
            }
        }
    }
    assert!(!segments.is_empty());
}
