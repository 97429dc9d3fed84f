//! Pen instructions, undirected segment keys, and the deduplicating
//! instruction builder.
//!
//! The builder consumes polylines ("walks") and emits `MoveTo`/`LineTo`
//! instructions, skipping the stroke for any segment whose undirected key
//! has already been drawn in the same session: the pen is lifted (a
//! `MoveTo` is emitted) but the cursor still advances.

use vstd::prelude::*;

use crate::geometry::Point;
use crate::seq_util::lemma_push_contains;

verus! {

/// One plotter drawing command.  The active pen position is always the
/// destination of the most recently appended instruction.
#[derive(Clone, Copy, PartialEq, Eq, Structural, Debug)]
pub enum Instruction {
    /// Pen-up relocation.
    MoveTo(Point),
    /// Pen-down stroke to the given point.
    LineTo(Point),
}

/// The destination of an instruction: where the cursor sits after it.
pub open spec fn dest(i: Instruction) -> Point {
    match i {
        Instruction::MoveTo(p) => p,
        Instruction::LineTo(p) => p,
    }
}

/// Canonical, unordered key of the segment between two points.  Two
/// segments get the same key exactly when they join the same two points,
/// in either direction.
#[derive(Clone, Copy, PartialEq, Eq, Structural, Hash, Debug)]
pub struct OrderedPair {
    pub p1x: i64,
    pub p1y: i64,
    pub p2x: i64,
    pub p2y: i64,
}

/// The canonical key of the undirected segment from `p` to `q`: the two
/// endpoints, lexicographically ordered.
pub open spec fn edge_key(p: Point, q: Point) -> OrderedPair {
    if p.x > q.x || (p.x == q.x && p.y > q.y) {
        OrderedPair { p1x: q.x, p1y: q.y, p2x: p.x, p2y: p.y }
    } else {
        OrderedPair { p1x: p.x, p1y: p.y, p2x: q.x, p2y: q.y }
    }
}

/// The key of a segment does not depend on its direction.
pub proof fn lemma_edge_key_symmetric(p: Point, q: Point)
    ensures
        edge_key(p, q) == edge_key(q, p),
{
}

impl OrderedPair {
    /// The canonical key of the undirected segment from `p1` to `p2`.
    pub fn new(p1: Point, p2: Point) -> (r: OrderedPair)
        ensures
            r == edge_key(p1, p2),
    {
        if p1.x > p2.x || (p1.x == p2.x && p1.y > p2.y) {
            OrderedPair { p1x: p2.x, p1y: p2.y, p2x: p1.x, p2y: p1.y }
        } else {
            OrderedPair { p1x: p1.x, p1y: p1.y, p2x: p2.x, p2y: p2.y }
        }
    }
}

/// The keys of the segments actually drawn by an instruction sequence:
/// one key for each `LineTo`, joining the previous instruction's
/// destination to the stroke's endpoint.
pub open spec fn line_keys(instrs: Seq<Instruction>) -> Seq<OrderedPair>
    decreases instrs.len(),
{
    if instrs.len() <= 1 {
        Seq::empty()
    } else {
        let prior = line_keys(instrs.drop_last());
        match instrs.last() {
            Instruction::MoveTo(_) => prior,
            Instruction::LineTo(p) => prior.push(
                edge_key(dest(instrs[instrs.len() - 2]), p),
            ),
        }
    }
}

/// Appending a pen-up move draws no new segment.
proof fn lemma_line_keys_push_move(instrs: Seq<Instruction>, p: Point)
    ensures
        line_keys(instrs.push(Instruction::MoveTo(p))) == line_keys(instrs),
{
    let pushed = instrs.push(Instruction::MoveTo(p));
    if pushed.len() <= 1 {
        assert(instrs.len() == 0);
    } else {
        assert(pushed.drop_last() =~= instrs);
    }
}

/// Appending a stroke draws exactly one new segment, keyed from the
/// previous destination.
proof fn lemma_line_keys_push_line(instrs: Seq<Instruction>, p: Point)
    requires
        instrs.len() >= 1,
    ensures
        line_keys(instrs.push(Instruction::LineTo(p))) == line_keys(instrs).push(
            edge_key(dest(instrs.last()), p),
        ),
{
    let pushed = instrs.push(Instruction::LineTo(p));
    assert(pushed.drop_last() =~= instrs);
}

/// One deduplication step: the cursor sits at `cur` and the pen is asked
/// to stroke to `p`.  A fresh segment is drawn and recorded; a repeated
/// one is skipped with a pen-up move.  Either way the cursor advances.
pub open spec fn dedup_step(
    seen: Seq<OrderedPair>,
    out: Seq<Instruction>,
    cur: Point,
    p: Point,
) -> (Seq<OrderedPair>, Seq<Instruction>) {
    let k = edge_key(cur, p);
    if seen.contains(k) {
        (seen, out.push(Instruction::MoveTo(p)))
    } else {
        (seen.push(k), out.push(Instruction::LineTo(p)))
    }
}

/// The builder state after processing the points of `walk` from index `j`
/// on, with the cursor at `walk[j - 1]`.
pub open spec fn walk_steps(
    seen: Seq<OrderedPair>,
    out: Seq<Instruction>,
    walk: Seq<Point>,
    j: int,
) -> (Seq<OrderedPair>, Seq<Instruction>)
    decreases walk.len() - j,
{
    if j < 1 || j >= walk.len() {
        (seen, out)
    } else {
        let stepped = dedup_step(seen, out, walk[j - 1], walk[j]);
        walk_steps(stepped.0, stepped.1, walk, j + 1)
    }
}

/// The builder state after processing one whole walk: a pen-up move to
/// its first point, then one deduplication step per further point.
pub open spec fn add_walk_spec(
    seen: Seq<OrderedPair>,
    out: Seq<Instruction>,
    walk: Seq<Point>,
) -> (Seq<OrderedPair>, Seq<Instruction>) {
    if walk.len() == 0 {
        (seen, out)
    } else {
        walk_steps(seen, out.push(Instruction::MoveTo(walk[0])), walk, 1)
    }
}

/// The builder state after processing the walks from index `w` on.
pub open spec fn add_walks_spec(
    seen: Seq<OrderedPair>,
    out: Seq<Instruction>,
    walks: Seq<Seq<Point>>,
    w: int,
) -> (Seq<OrderedPair>, Seq<Instruction>)
    decreases walks.len() - w,
{
    if w < 0 || w >= walks.len() {
        (seen, out)
    } else {
        let added = add_walk_spec(seen, out, walks[w]);
        add_walks_spec(added.0, added.1, walks, w + 1)
    }
}

/// Whether every segment of `walk` is already recorded in `seen`.
pub open spec fn walk_covered(seen: Seq<OrderedPair>, walk: Seq<Point>) -> bool {
    forall|i: int|
        0 <= i < walk.len() - 1 ==> seen.contains(#[trigger] edge_key(walk[i], walk[i + 1]))
}

/// Whether every segment of every walk is already recorded in `seen`.
pub open spec fn walks_covered(seen: Seq<OrderedPair>, walks: Seq<Seq<Point>>) -> bool {
    forall|w: int| 0 <= w < walks.len() ==> walk_covered(seen, #[trigger] walks[w])
}

/// The pen-up moves tracing out one walk without drawing anything.
pub open spec fn walk_moves(walk: Seq<Point>) -> Seq<Instruction> {
    walk.map_values(|p: Point| Instruction::MoveTo(p))
}

/// The pen-up moves tracing out the walks from index `w` on.
pub open spec fn all_moves(walks: Seq<Seq<Point>>, w: int) -> Seq<Instruction>
    decreases walks.len() - w,
{
    if w < 0 || w >= walks.len() {
        Seq::empty()
    } else {
        walk_moves(walks[w]) + all_moves(walks, w + 1)
    }
}

/// Processing a walk never forgets a recorded key.
proof fn lemma_walk_steps_monotone(
    seen: Seq<OrderedPair>,
    out: Seq<Instruction>,
    walk: Seq<Point>,
    j: int,
)
    ensures
        forall|y: OrderedPair|
            seen.contains(y) ==> #[trigger] walk_steps(seen, out, walk, j).0.contains(y),
    decreases walk.len() - j,
{
    if j < 1 || j >= walk.len() {
    } else {
        let stepped = dedup_step(seen, out, walk[j - 1], walk[j]);
        lemma_push_contains(seen, edge_key(walk[j - 1], walk[j]));
        lemma_walk_steps_monotone(stepped.0, stepped.1, walk, j + 1);
        assert forall|y: OrderedPair| seen.contains(y) implies #[trigger] walk_steps(
            seen,
            out,
            walk,
            j,
        ).0.contains(y) by {
            assert(stepped.0.contains(y));
            assert(walk_steps(stepped.0, stepped.1, walk, j + 1).0.contains(y));
        }
    }
}

/// After processing a walk from index `j` on, every one of its segments
/// from index `j - 1` on is recorded.
proof fn lemma_walk_steps_covers(
    seen: Seq<OrderedPair>,
    out: Seq<Instruction>,
    walk: Seq<Point>,
    j: int,
)
    requires
        1 <= j,
    ensures
        forall|i: int|
            j - 1 <= i < walk.len() - 1 ==> walk_steps(seen, out, walk, j).0.contains(
                #[trigger] edge_key(walk[i], walk[i + 1]),
            ),
    decreases walk.len() - j,
{
    if j >= walk.len() {
    } else {
        let k = edge_key(walk[j - 1], walk[j]);
        let stepped = dedup_step(seen, out, walk[j - 1], walk[j]);
        lemma_push_contains(seen, k);
        assert(stepped.0.contains(k));
        lemma_walk_steps_covers(stepped.0, stepped.1, walk, j + 1);
        lemma_walk_steps_monotone(stepped.0, stepped.1, walk, j + 1);
        let rest = walk_steps(stepped.0, stepped.1, walk, j + 1);
        assert forall|i: int| j - 1 <= i < walk.len() - 1 implies walk_steps(
            seen,
            out,
            walk,
            j,
        ).0.contains(#[trigger] edge_key(walk[i], walk[i + 1])) by {
            if i == j - 1 {
                assert(rest.0.contains(k));
            } else {
                assert(rest.0.contains(edge_key(walk[i], walk[i + 1])));
            }
        }
    }
}

/// After one walk is processed, all of its segments are recorded, and no
/// previously recorded key is lost.
proof fn lemma_add_walk_covers(seen: Seq<OrderedPair>, out: Seq<Instruction>, walk: Seq<Point>)
    ensures
        walk_covered(add_walk_spec(seen, out, walk).0, walk),
        forall|y: OrderedPair|
            seen.contains(y) ==> #[trigger] add_walk_spec(seen, out, walk).0.contains(y),
{
    if walk.len() == 0 {
    } else {
        let out1 = out.push(Instruction::MoveTo(walk[0]));
        lemma_walk_steps_covers(seen, out1, walk, 1);
        lemma_walk_steps_monotone(seen, out1, walk, 1);
    }
}

/// After every walk is processed, all of their segments are recorded, and
/// no previously recorded key is lost.
proof fn lemma_add_walks_covers(
    seen: Seq<OrderedPair>,
    out: Seq<Instruction>,
    walks: Seq<Seq<Point>>,
    w: int,
)
    requires
        0 <= w,
    ensures
        forall|v: int|
            w <= v < walks.len() ==> walk_covered(
                add_walks_spec(seen, out, walks, w).0,
                #[trigger] walks[v],
            ),
        forall|y: OrderedPair|
            seen.contains(y) ==> #[trigger] add_walks_spec(seen, out, walks, w).0.contains(y),
    decreases walks.len() - w,
{
    if w >= walks.len() {
    } else {
        let added = add_walk_spec(seen, out, walks[w]);
        lemma_add_walk_covers(seen, out, walks[w]);
        lemma_add_walks_covers(added.0, added.1, walks, w + 1);
        let rest = add_walks_spec(added.0, added.1, walks, w + 1);
        assert(add_walks_spec(seen, out, walks, w) == rest);
        assert forall|v: int| w <= v < walks.len() implies walk_covered(
            add_walks_spec(seen, out, walks, w).0,
            #[trigger] walks[v],
        ) by {
            assert forall|i: int|
                0 <= i < walks[v].len() - 1 implies add_walks_spec(
                seen,
                out,
                walks,
                w,
            ).0.contains(#[trigger] edge_key(walks[v][i], walks[v][i + 1])) by {
                let k = edge_key(walks[v][i], walks[v][i + 1]);
                if v == w {
                    assert(walk_covered(added.0, walks[w]));
                    assert(added.0.contains(edge_key(walks[w][i], walks[w][i + 1])));
                    assert(rest.0.contains(k));
                } else {
                    assert(walk_covered(rest.0, walks[v]));
                    assert(rest.0.contains(k));
                }
            }
        }
    }
}

/// Processing a walk whose segments are all recorded already draws
/// nothing: it only traces the walk with pen-up moves.
proof fn lemma_walk_steps_all_seen(
    seen: Seq<OrderedPair>,
    out: Seq<Instruction>,
    walk: Seq<Point>,
    j: int,
)
    requires
        1 <= j,
        walk_covered(seen, walk),
    ensures
        walk_steps(seen, out, walk, j).0 == seen,
        walk_steps(seen, out, walk, j).1 == out + Seq::new(
            if j <= walk.len() {
                (walk.len() - j) as nat
            } else {
                0
            },
            |i: int| Instruction::MoveTo(walk[j + i]),
        ),
    decreases walk.len() - j,
{
    if j >= walk.len() {
        assert(walk_steps(seen, out, walk, j).1 =~= out + Seq::new(
            0,
            |i: int| Instruction::MoveTo(walk[j + i]),
        ));
    } else {
        let i = j - 1;
        let k = edge_key(walk[i], walk[i + 1]);
        assert(seen.contains(k));
        let out1 = out.push(Instruction::MoveTo(walk[j]));
        lemma_walk_steps_all_seen(seen, out1, walk, j + 1);
        assert(out1 + Seq::new(
            if j + 1 <= walk.len() {
                (walk.len() - (j + 1)) as nat
            } else {
                0
            },
            |i: int| Instruction::MoveTo(walk[j + 1 + i]),
        ) =~= out + Seq::new((walk.len() - j) as nat, |i: int| Instruction::MoveTo(walk[j + i])));
    }
}

/// Adding a fully covered walk appends exactly its pen-up trace.
proof fn lemma_add_walk_all_seen(seen: Seq<OrderedPair>, out: Seq<Instruction>, walk: Seq<Point>)
    requires
        walk_covered(seen, walk),
    ensures
        add_walk_spec(seen, out, walk).0 == seen,
        add_walk_spec(seen, out, walk).1 == out + walk_moves(walk),
{
    if walk.len() == 0 {
        assert(add_walk_spec(seen, out, walk).1 =~= out + walk_moves(walk));
    } else {
        let out1 = out.push(Instruction::MoveTo(walk[0]));
        lemma_walk_steps_all_seen(seen, out1, walk, 1);
        assert(out1 + Seq::new((walk.len() - 1) as nat, |i: int| Instruction::MoveTo(walk[1 + i]))
            =~= out + walk_moves(walk));
    }
}

/// Adding a fully covered walk set appends exactly its pen-up traces.
proof fn lemma_add_walks_all_seen(
    seen: Seq<OrderedPair>,
    out: Seq<Instruction>,
    walks: Seq<Seq<Point>>,
    w: int,
)
    requires
        walks_covered(seen, walks),
    ensures
        add_walks_spec(seen, out, walks, w).0 == seen,
        add_walks_spec(seen, out, walks, w).1 == out + all_moves(walks, w),
    decreases walks.len() - w,
{
    if w < 0 || w >= walks.len() {
        assert(add_walks_spec(seen, out, walks, w).1 =~= out + all_moves(walks, w));
    } else {
        lemma_add_walk_all_seen(seen, out, walks[w]);
        let added = add_walk_spec(seen, out, walks[w]);
        lemma_add_walks_all_seen(added.0, added.1, walks, w + 1);
        assert((out + walk_moves(walks[w])) + all_moves(walks, w + 1) =~= out + all_moves(
            walks,
            w,
        ));
    }
}

/// Deduplication is idempotent: running the same walk set through the
/// builder a second time, without clearing the recorded keys in between,
/// draws no segment at all.  The second pass leaves the key set unchanged
/// and appends only the walks' pen-up traces, so no `LineTo` is ever
/// emitted again for a segment drawn in the first pass.
pub proof fn lemma_dedup_idempotent(
    seen: Seq<OrderedPair>,
    out: Seq<Instruction>,
    walks: Seq<Seq<Point>>,
)
    ensures
        ({
            let first = add_walks_spec(seen, out, walks, 0);
            let second = add_walks_spec(first.0, first.1, walks, 0);
            second.0 == first.0 && second.1 == first.1 + all_moves(walks, 0)
        }),
{
    let first = add_walks_spec(seen, out, walks, 0);
    lemma_add_walks_covers(seen, out, walks, 0);
    lemma_add_walks_all_seen(first.0, first.1, walks, 0);
}

/// A well-formed builder state: the recorded keys are exactly the keys of
/// the strokes emitted so far, and no segment has been drawn twice.
pub open spec fn builder_wf(seen: Seq<OrderedPair>, out: Seq<Instruction>) -> bool {
    &&& seen == line_keys(out)
    &&& line_keys(out).no_duplicates()
}

/// The state of the polyline collector after a prefix of the
/// instruction stream: the finished strokes and the run of points being
/// accumulated.  A pen-up move closes the run (runs of fewer than two
/// points draw nothing and are dropped); a stroke extends it, but only
/// up to `maxp` points when `maxp` is non-negative.
pub open spec fn collect_state(instrs: Seq<Instruction>, maxp: int) -> (
    Seq<Seq<Point>>,
    Seq<Point>,
)
    decreases instrs.len(),
{
    if instrs.len() == 0 {
        (Seq::empty(), Seq::empty())
    } else {
        let prior = collect_state(instrs.drop_last(), maxp);
        match instrs.last() {
            Instruction::LineTo(p) => {
                if maxp < 0 || prior.1.len() < maxp {
                    (prior.0, prior.1.push(p))
                } else {
                    prior
                }
            },
            Instruction::MoveTo(p) => {
                if prior.1.len() > 1 {
                    (prior.0.push(prior.1), seq![p])
                } else {
                    (prior.0, seq![p])
                }
            },
        }
    }
}

/// The polylines an incremental renderer strokes for a prefix of the
/// instruction stream.
pub open spec fn spec_collect_polylines(instrs: Seq<Instruction>, maxp: int) -> Seq<Seq<Point>> {
    let st = collect_state(instrs, maxp);
    if st.1.len() > 1 {
        st.0.push(st.1)
    } else {
        st.0
    }
}

/// Splits an instruction stream into the polylines to stroke: each run
/// of consecutive strokes becomes one polyline, runs of fewer than two
/// points are dropped, and a non-negative `max_segment_points` caps how
/// many stroke points a run accumulates — the hook for rendering a
/// bounded prefix of the drawing.
pub fn collect_polylines(instructions: &Vec<Instruction>, max_segment_points: i32) -> (r: Vec<
    Vec<Point>,
>)
    ensures
        r@.map_values(|v: Vec<Point>| v@) == spec_collect_polylines(
            instructions@,
            max_segment_points as int,
        ),
        forall|i: int| 0 <= i < r@.len() ==> (#[trigger] r@[i])@.len() >= 2,
{
    let ghost maxp = max_segment_points as int;
    let mut runs: Vec<Vec<Point>> = Vec::new();
    let mut vertices: Vec<Point> = Vec::new();
    let mut i: usize = 0;
    while i < instructions.len()
        invariant
            0 <= i <= instructions@.len(),
            maxp == max_segment_points as int,
            (runs@.map_values(|v: Vec<Point>| v@), vertices@) == collect_state(
                instructions@.take(i as int),
                maxp,
            ),
            forall|m: int| 0 <= m < runs@.len() ==> (#[trigger] runs@[m])@.len() >= 2,
        decreases instructions@.len() - i,
    {
        proof {
            assert(instructions@.take(i as int + 1).drop_last() =~= instructions@.take(i as int));
            assert(instructions@.take(i as int + 1).last() == instructions@[i as int]);
        }
        let ghost runs_pre = runs@.map_values(|v: Vec<Point>| v@);
        match instructions[i] {
            Instruction::LineTo(pos) => {
                if max_segment_points < 0 || vertices.len() < max_segment_points as usize {
                    vertices.push(pos);
                }
            },
            Instruction::MoveTo(pos) => {
                if vertices.len() > 1 {
                    let full = vertices;
                    runs.push(full);
                    vertices = Vec::new();
                    proof {
                        assert(runs@.map_values(|v: Vec<Point>| v@) =~= runs_pre.push(full@));
                    }
                } else {
                    vertices.clear();
                }
                vertices.push(pos);
            },
        }
        i = i + 1;
    }
    proof {
        assert(instructions@.take(instructions@.len() as int) =~= instructions@);
    }
    if vertices.len() > 1 {
        let ghost runs_pre = runs@.map_values(|v: Vec<Point>| v@);
        let ghost full = vertices@;
        runs.push(vertices);
        proof {
            assert(runs@.map_values(|v: Vec<Point>| v@) =~= runs_pre.push(full));
        }
    }
    runs
}

/// Builds a deduplicated instruction stream from walks.  The recorded
/// segment keys are shared across every walk added to the same builder,
/// so a later walk never redraws a segment an earlier one already drew.
pub struct InstructionBuilder {
    seen: Vec<OrderedPair>,
    instructions: Vec<Instruction>,
}

impl InstructionBuilder {
    /// The keys of the segments drawn so far.
    pub closed spec fn seen_keys(&self) -> Seq<OrderedPair> {
        self.seen@
    }

    /// The instructions emitted so far.
    pub closed spec fn output(&self) -> Seq<Instruction> {
        self.instructions@
    }

    /// A builder whose recorded keys match its emitted strokes.
    pub open spec fn wf(&self) -> bool {
        builder_wf(self.seen_keys(), self.output())
    }

    /// An empty drawing session.
    pub fn new() -> (r: InstructionBuilder)
        ensures
            r.seen_keys() == Seq::<OrderedPair>::empty(),
            r.output() == Seq::<Instruction>::empty(),
            r.wf(),
    {
        let r = InstructionBuilder { seen: Vec::new(), instructions: Vec::new() };
        proof {
            assert(r.seen@ =~= line_keys(r.instructions@));
        }
        r
    }

    /// Whether the undirected segment `k` has already been drawn.
    fn knows(&self, k: &OrderedPair) -> (r: bool)
        ensures
            r == self.seen_keys().contains(*k),
    {
        let mut i: usize = 0;
        while i < self.seen.len()
            invariant
                0 <= i <= self.seen@.len(),
                forall|m: int| 0 <= m < i ==> self.seen@[m] != *k,
            decreases self.seen@.len() - i,
        {
            if self.seen[i] == *k {
                return true;
            }
            i = i + 1;
        }
        false
    }

    /// Processes one walk: a pen-up move to its first point, then one
    /// stroke per further point, each stroke elided (replaced by a pen-up
    /// move) when its segment was already drawn in this session.
    pub fn add_walk(&mut self, walk: &Vec<Point>)
        requires
            walk@.len() >= 1,
            old(self).wf(),
        ensures
            final(self).wf(),
            (final(self).seen_keys(), final(self).output()) == add_walk_spec(
                old(self).seen_keys(),
                old(self).output(),
                walk@,
            ),
    {
        let ghost seen0 = self.seen@;
        let ghost out0 = self.instructions@;
        self.instructions.push(Instruction::MoveTo(walk[0]));
        proof {
            lemma_line_keys_push_move(out0, walk@[0]);
        }
        let mut j: usize = 1;
        while j < walk.len()
            invariant
                1 <= j <= walk@.len(),
                builder_wf(self.seen@, self.instructions@),
                self.instructions@.len() >= 1,
                dest(self.instructions@.last()) == walk@[j - 1],
                walk_steps(self.seen@, self.instructions@, walk@, j as int) == add_walk_spec(
                    seen0,
                    out0,
                    walk@,
                ),
            decreases walk@.len() - j,
        {
            let ghost seen_j = self.seen@;
            let ghost out_j = self.instructions@;
            let cur = walk[j - 1];
            let p = walk[j];
            let k = OrderedPair::new(cur, p);
            if self.knows(&k) {
                self.instructions.push(Instruction::MoveTo(p));
                proof {
                    lemma_line_keys_push_move(out_j, p);
                }
            } else {
                self.seen.push(k);
                self.instructions.push(Instruction::LineTo(p));
                proof {
                    lemma_line_keys_push_line(out_j, p);
                }
            }
            j = j + 1;
        }
    }

    /// Processes a sequence of walks in drawing order, sharing the
    /// deduplication state across all of them.
    pub fn add_walks(&mut self, walks: &Vec<Vec<Point>>)
        requires
            forall|w: int| 0 <= w < walks@.len() ==> #[trigger] walks@[w]@.len() >= 1,
            old(self).wf(),
        ensures
            final(self).wf(),
            (final(self).seen_keys(), final(self).output()) == add_walks_spec(
                old(self).seen_keys(),
                old(self).output(),
                walks@.map_values(|v: Vec<Point>| v@),
                0,
            ),
    {
        let ghost seen0 = self.seen@;
        let ghost out0 = self.instructions@;
        let ghost wseq = walks@.map_values(|v: Vec<Point>| v@);
        let mut w: usize = 0;
        while w < walks.len()
            invariant
                0 <= w <= walks@.len(),
                wseq == walks@.map_values(|v: Vec<Point>| v@),
                forall|m: int| 0 <= m < walks@.len() ==> #[trigger] walks@[m]@.len() >= 1,
                builder_wf(self.seen@, self.instructions@),
                add_walks_spec(self.seen@, self.instructions@, wseq, w as int) == add_walks_spec(
                    seen0,
                    out0,
                    wseq,
                    0,
                ),
            decreases walks@.len() - w,
        {
            self.add_walk(&walks[w]);
            w = w + 1;
        }
    }

    /// Hands the finished instruction stream out.
    pub fn into_instructions(self) -> (r: Vec<Instruction>)
        ensures
            r@ == self.output(),
    {
        self.instructions
    }

    /// Builds the whole deduplicated instruction stream for a drawing
    /// session from the walks to draw, in order.  No two strokes of the
    /// result cover the same undirected segment.
    pub fn build(walks: &Vec<Vec<Point>>) -> (r: Vec<Instruction>)
        requires
            forall|w: int| 0 <= w < walks@.len() ==> #[trigger] walks@[w]@.len() >= 1,
        ensures
            r@ == add_walks_spec(
                Seq::empty(),
                Seq::empty(),
                walks@.map_values(|v: Vec<Point>| v@),
                0,
            ).1,
            line_keys(r@).no_duplicates(),
    {
        let mut b = InstructionBuilder::new();
        b.add_walks(walks);
        b.into_instructions()
    }
}

} // verus!
