use hexwalk::geometry::Point;
use hexwalk::instructions::Instruction;
use hexwalk::instructions::InstructionBuilder;
use hexwalk::instructions::OrderedPair;
use hexwalk::instructions::collect_polylines;

fn pt(x: i64, y: i64) -> Point {
    Point::new(x, y)
}

#[test]
fn ordered_pair_is_direction_independent() {
    let a = pt(3, 4);
    let b = pt(-1, 7);
    assert_eq!(OrderedPair::new(a, b), OrderedPair::new(b, a));
}

#[test]
fn ordered_pair_orders_by_y_when_x_equal() {
    let a = pt(5, 9);
    let b = pt(5, 2);
    assert_eq!(OrderedPair::new(a, b), OrderedPair::new(b, a));
    assert_ne!(OrderedPair::new(a, b), OrderedPair::new(a, pt(5, 3)));
}

#[test]
fn builder_draws_fresh_segments() {
    let walks = vec![vec![pt(0, 0), pt(10, 0), pt(10, 10)]];
    let instrs = InstructionBuilder::build(&walks);
    assert_eq!(
        instrs,
        vec![
            Instruction::MoveTo(pt(0, 0)),
            Instruction::LineTo(pt(10, 0)),
            Instruction::LineTo(pt(10, 10)),
        ]
    );
}

#[test]
fn builder_skips_reversed_segment() {
    // Two walks covering the same segment in opposite directions: the
    // second walk must be all pen-up moves.
    let walks = vec![vec![pt(0, 0), pt(10, 0)], vec![pt(10, 0), pt(0, 0)]];
    let instrs = InstructionBuilder::build(&walks);
    assert_eq!(
        instrs,
        vec![
            Instruction::MoveTo(pt(0, 0)),
            Instruction::LineTo(pt(10, 0)),
            Instruction::MoveTo(pt(10, 0)),
            Instruction::MoveTo(pt(0, 0)),
        ]
    );
}

#[test]
fn builder_skips_repeat_within_one_walk() {
    let walks = vec![vec![pt(0, 0), pt(10, 0), pt(0, 0), pt(10, 0)]];
    let instrs = InstructionBuilder::build(&walks);
    assert_eq!(
        instrs,
        vec![
            Instruction::MoveTo(pt(0, 0)),
            Instruction::LineTo(pt(10, 0)),
            Instruction::MoveTo(pt(0, 0)),
            Instruction::MoveTo(pt(10, 0)),
        ]
    );
}

#[test]
fn builder_single_point_walk_is_one_move() {
    let walks = vec![vec![pt(5, 5)]];
    let instrs = InstructionBuilder::build(&walks);
    assert_eq!(instrs, vec![Instruction::MoveTo(pt(5, 5))]);
}

#[test]
fn second_build_adds_no_strokes() {
    // Dedup state is kept across builds: feeding the same walks again
    // yields pen-up moves only.
    let walks = vec![
        vec![pt(0, 0), pt(10, 0), pt(10, 10)],
        vec![pt(50, 50), pt(60, 50)],
    ];
    let mut b = InstructionBuilder::new();
    b.add_walks(&walks);
    let first_len = {
        let mut probe = InstructionBuilder::new();
        probe.add_walks(&walks);
        probe.into_instructions().len()
    };
    b.add_walks(&walks);
    let instrs = b.into_instructions();
    let second_pass = &instrs[first_len..];
    assert_eq!(second_pass.len(), 5);
    for i in second_pass {
        assert!(matches!(i, Instruction::MoveTo(_)));
    }
}

#[test]
fn collect_polylines_splits_runs() {
    let instrs = vec![
        Instruction::MoveTo(pt(0, 0)),
        Instruction::LineTo(pt(1, 0)),
        Instruction::LineTo(pt(2, 0)),
        Instruction::MoveTo(pt(5, 5)),
        Instruction::LineTo(pt(6, 5)),
    ];
    let runs = collect_polylines(&instrs, -1);
    assert_eq!(
        runs,
        vec![
            vec![pt(0, 0), pt(1, 0), pt(2, 0)],
            vec![pt(5, 5), pt(6, 5)],
        ]
    );
}

#[test]
fn collect_polylines_drops_single_points() {
    let instrs = vec![
        Instruction::MoveTo(pt(0, 0)),
        Instruction::MoveTo(pt(1, 1)),
        Instruction::LineTo(pt(2, 1)),
    ];
    let runs = collect_polylines(&instrs, -1);
    assert_eq!(runs, vec![vec![pt(1, 1), pt(2, 1)]]);
}

#[test]
fn collect_polylines_caps_points_per_run() {
    let instrs = vec![
        Instruction::MoveTo(pt(0, 0)),
        Instruction::LineTo(pt(1, 0)),
        Instruction::LineTo(pt(2, 0)),
        Instruction::LineTo(pt(3, 0)),
    ];
    let runs = collect_polylines(&instrs, 2);
    assert_eq!(runs, vec![vec![pt(0, 0), pt(1, 0)]]);
}
