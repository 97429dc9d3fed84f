//! The randomized space-filling traversal: a drunkard's walk over the
//! grid's adjacency graph that visits every cell exactly once, restarting
//! from a random unvisited cell whenever it gets stuck, followed by the
//! deterministic post-processing of the walks (sorting, dropping the
//! shortest, mapping to cell centers).
//!
//! The traversal itself is a pure function of the grid and of a sequence
//! of random draws, so replaying the same draws reproduces the same
//! walks.

use vstd::prelude::*;

use crate::geometry::Point;
use crate::grid::Grid;
use crate::grid::TileInfo;
use crate::randsrc::RandomSource;
use crate::seq_util::lemma_push_contains;

verus! {

/// Configuration of one generation run: how many samples the smoothing
/// step inserts per corner, how sharply it hugs the corners (in
/// thousandths), and which fraction of the sorted walks is dropped (in
/// thousandths, from the shortest end).
#[derive(Clone, Copy)]
pub struct RandomWalkParameters {
    pub smooth_number_of_points: usize,
    pub smooth_sharpness: i64,
    pub slice_percentage: i64,
}

/// The adjacency lists of a grid, cell by cell.
pub open spec fn grid_adj(g: Grid) -> Seq<Seq<usize>> {
    g.tiles@.map_values(|t: TileInfo| t.neighbors@)
}

/// The state of the traversal: which cells are visited, the pool of
/// unvisited cells, the cell the walk sits on, the walk being built, and
/// the finished walks.
pub struct WalkState {
    pub visited: Seq<bool>,
    pub unused: Seq<usize>,
    pub current: usize,
    pub walk: Seq<usize>,
    pub walks: Seq<Seq<usize>>,
}

/// The members of `ns` not yet visited, in their original order.
pub open spec fn unvisited_of(ns: Seq<usize>, visited: Seq<bool>) -> Seq<usize>
    decreases ns.len(),
{
    if ns.len() == 0 {
        Seq::empty()
    } else {
        let prior = unvisited_of(ns.drop_last(), visited);
        let n = ns.last();
        if n < visited.len() && !visited[n as int] {
            prior.push(n)
        } else {
            prior
        }
    }
}

/// The first index of `v` in `s`, or `-1` if `s` does not hold it.
pub open spec fn find_first(s: Seq<usize>, v: usize) -> int
    decreases s.len(),
{
    if s.len() == 0 {
        -1
    } else if s[0] == v {
        0
    } else {
        let r = find_first(s.drop_first(), v);
        if r < 0 {
            -1
        } else {
            r + 1
        }
    }
}

/// `find_first` returns the index of the first occurrence.
proof fn lemma_find_first_characterizes(s: Seq<usize>, v: usize, i: int)
    requires
        0 <= i < s.len(),
        s[i] == v,
        forall|m: int| 0 <= m < i ==> s[m] != v,
    ensures
        find_first(s, v) == i,
    decreases i,
{
    if i == 0 {
    } else {
        assert(s[0] != v);
        let t = s.drop_first();
        assert(t[i - 1] == v);
        assert forall|m: int| 0 <= m < i - 1 implies t[m] != v by {
            assert(t[m] == s[m + 1]);
        }
        lemma_find_first_characterizes(t, v, i - 1);
    }
}

/// Removing the element at index `i` by swapping the last element into
/// its place: the length shrinks by one, no duplicate appears, and the
/// removed value is exactly the one that disappears.
proof fn lemma_swap_remove_props(s: Seq<usize>, i: int)
    requires
        0 <= i < s.len(),
        s.no_duplicates(),
    ensures
        ({
            let r = s.update(i, s.last()).drop_last();
            &&& r.len() == s.len() - 1
            &&& r.no_duplicates()
            &&& forall|x: usize| #[trigger] r.contains(x) <==> (s.contains(x) && x != s[i])
        }),
{
    let r = s.update(i, s.last()).drop_last();
    let n = s.len() as int;
    assert(forall|j: int|
        0 <= j < n - 1 ==> #[trigger] r[j] == (if j == i {
            s[n - 1]
        } else {
            s[j]
        }));
    assert forall|j1: int, j2: int| 0 <= j1 < j2 < r.len() implies r[j1] != r[j2] by {
        if j1 == i {
            assert(r[j1] == s[n - 1] && r[j2] == s[j2]);
        } else if j2 == i {
            assert(r[j1] == s[j1] && r[j2] == s[n - 1]);
        }
    }
    assert forall|x: usize| #[trigger] r.contains(x) implies (s.contains(x) && x != s[i]) by {
        let j = choose|j: int| 0 <= j < r.len() && r[j] == x;
        if j == i {
            assert(s[n - 1] == x);
        } else {
            assert(s[j] == x);
        }
    }
    assert forall|x: usize| s.contains(x) && x != s[i] implies #[trigger] r.contains(x) by {
        let m = choose|m: int| 0 <= m < s.len() && s[m] == x;
        if m == n - 1 {
            assert(i != n - 1);
            assert(r[i] == x);
        } else {
            assert(r[m] == x);
        }
    }
}

/// One traversal iteration: the current cell is marked visited and taken
/// out of the pool; then the walk either moves to a random unvisited
/// neighbor, or — when stuck with cells still unvisited — closes the walk
/// and restarts from a random cell of the pool, or — when everything is
/// visited — stops.
pub open spec fn walk_step(adj: Seq<Seq<usize>>, st: WalkState, choice: u64) -> WalkState {
    let visited = st.visited.update(st.current as int, true);
    let unused = st.unused.update(find_first(st.unused, st.current), st.unused.last()).drop_last();
    let vn = unvisited_of(adj[st.current as int], visited);
    if vn.len() > 0 {
        let nxt = vn[(choice as int) % (vn.len() as int)];
        WalkState { visited, unused, current: nxt, walk: st.walk.push(nxt), walks: st.walks }
    } else if unused.len() > 0 {
        let nxt = unused[(choice as int) % (unused.len() as int)];
        WalkState {
            visited,
            unused,
            current: nxt,
            walk: seq![nxt],
            walks: st.walks.push(st.walk),
        }
    } else {
        WalkState { visited, unused, current: st.current, walk: st.walk, walks: st.walks }
    }
}

/// The traversal's starting state: nothing visited, every cell in the
/// pool, and the walk sitting on a random starting cell.
pub open spec fn walk_init(n: nat, choice: u64) -> WalkState {
    let start = ((choice as int) % (n as int)) as usize;
    WalkState {
        visited: Seq::new(n, |i: int| false),
        unused: Seq::new(n, |i: int| i as usize),
        current: start,
        walk: seq![start],
        walks: Seq::empty(),
    }
}

/// The traversal state after `k` iterations; iteration `k` consumes the
/// random draw `choices[k]`, and draw 0 picks the starting cell.
pub open spec fn walk_state_at(adj: Seq<Seq<usize>>, choices: Seq<u64>, k: nat) -> WalkState
    decreases k,
{
    if k == 0 {
        walk_init(adj.len(), choices[0])
    } else {
        walk_step(adj, walk_state_at(adj, choices, (k - 1) as nat), choices[k as int])
    }
}

/// The complete traversal: one iteration per cell, then the walk under
/// construction is closed as the last walk.
pub open spec fn spec_cover_walks(adj: Seq<Seq<usize>>, choices: Seq<u64>) -> Seq<Seq<usize>> {
    let fin = walk_state_at(adj, choices, adj.len());
    fin.walks.push(fin.walk)
}

/// All the cells of a sequence of walks, in visiting order.
pub open spec fn flat_walks(ws: Seq<Seq<usize>>) -> Seq<usize>
    decreases ws.len(),
{
    if ws.len() == 0 {
        Seq::empty()
    } else {
        flat_walks(ws.drop_last()) + ws.last()
    }
}

/// Closing one more walk appends its cells to the flattened traversal.
proof fn lemma_flat_walks_push(ws: Seq<Seq<usize>>, w: Seq<usize>)
    ensures
        flat_walks(ws.push(w)) == flat_walks(ws) + w,
{
    assert(ws.push(w).drop_last() =~= ws);
}

/// The view of a sequence of walks.
pub open spec fn walks_view(ws: Seq<Vec<usize>>) -> Seq<Seq<usize>> {
    ws.map_values(|w: Vec<usize>| w@)
}

/// The view of a sequence of polylines.
pub open spec fn polys_view(ws: Seq<Vec<Point>>) -> Seq<Seq<Point>> {
    ws.map_values(|w: Vec<Point>| w@)
}

/// The cell centers visited by one walk of cell indices.
pub open spec fn positions_of(g: Grid, w: Seq<usize>) -> Seq<Point> {
    w.map_values(|i: usize| g.tiles@[i as int].position)
}

/// Whether `a` is drawn strictly before `b`: fewer points first; among
/// walks of equal point count, the larger first-point x first, then the
/// larger first-point y.
pub open spec fn walk_lt(a: Seq<Point>, b: Seq<Point>) -> bool {
    ||| a.len() < b.len()
    ||| (a.len() == b.len() && a.len() > 0 && (a[0].x > b[0].x || (a[0].x == b[0].x && a[0].y
        > b[0].y)))
}

/// The drawing order is a strict order: asymmetric and transitive.
proof fn lemma_walk_lt_strict(a: Seq<Point>, b: Seq<Point>, c: Seq<Point>)
    ensures
        walk_lt(a, b) ==> !walk_lt(b, a),
        walk_lt(a, b) && walk_lt(b, c) ==> walk_lt(a, c),
{
}

/// A sequence of walks in drawing order: no later walk belongs strictly
/// before an earlier one.
pub open spec fn walks_sorted(s: Seq<Seq<Point>>) -> bool {
    forall|i: int, j: int| 0 <= i < j < s.len() ==> !walk_lt(#[trigger] s[j], #[trigger] s[i])
}

/// `w` inserted into `s` before the first element it is strictly before.
pub open spec fn insert_sorted(s: Seq<Seq<Point>>, w: Seq<Point>) -> Seq<Seq<Point>>
    decreases s.len(),
{
    if s.len() == 0 {
        seq![w]
    } else if walk_lt(w, s[0]) {
        seq![w] + s
    } else {
        seq![s[0]] + insert_sorted(s.drop_first(), w)
    }
}

/// The walks in drawing order, by repeated insertion.
pub open spec fn sort_walks_spec(s: Seq<Seq<Point>>) -> Seq<Seq<Point>>
    decreases s.len(),
{
    if s.len() == 0 {
        Seq::empty()
    } else {
        insert_sorted(sort_walks_spec(s.drop_last()), s.last())
    }
}

/// Where the insertion lands: `w` goes in front of the first element it
/// is strictly before, and everything else keeps its order.
proof fn lemma_insert_sorted_at(s: Seq<Seq<Point>>, w: Seq<Point>, idx: int)
    requires
        0 <= idx <= s.len(),
        forall|m: int| 0 <= m < idx ==> !walk_lt(w, #[trigger] s[m]),
        idx < s.len() ==> walk_lt(w, s[idx]),
    ensures
        insert_sorted(s, w) == s.take(idx) + seq![w] + s.skip(idx),
    decreases idx,
{
    if s.len() == 0 {
        assert(insert_sorted(s, w) =~= s.take(idx) + seq![w] + s.skip(idx));
    } else if idx == 0 {
        assert(insert_sorted(s, w) =~= s.take(0) + seq![w] + s.skip(0));
    } else {
        let t = s.drop_first();
        assert forall|m: int| 0 <= m < idx - 1 implies !walk_lt(w, #[trigger] t[m]) by {
            assert(t[m] == s[m + 1]);
        }
        lemma_insert_sorted_at(t, w, idx - 1);
        assert(seq![s[0]] + (t.take(idx - 1) + seq![w] + t.skip(idx - 1)) =~= s.take(idx) + seq![w]
            + s.skip(idx));
    }
}

/// How many of the sorted walks are dropped from the shortest end for a
/// given keep configuration, rounding to the nearest whole walk.
pub open spec fn drop_count(len: int, pct: int) -> int {
    (len * pct + 500) / 1000
}

impl Grid {
    /// The centers of the cells each walk visits, walk by walk.
    pub fn walk_positions(&self, walks: &Vec<Vec<usize>>) -> (r: Vec<Vec<Point>>)
        requires
            crate::grid::grid_wf(*self),
            forall|w: int, j: int|
                0 <= w < walks@.len() && 0 <= j < walks@[w]@.len() ==> (#[trigger] walks@[w]@[j])
                    < self.tiles@.len(),
        ensures
            polys_view(r@) == walks_view(walks@).map_values(
                |w: Seq<usize>| positions_of(*self, w),
            ),
            r@.len() == walks@.len(),
            forall|w: int| 0 <= w < r@.len() ==> (#[trigger] r@[w])@.len() == walks@[w]@.len(),
            forall|w: int, j: int|
                0 <= w < r@.len() && 0 <= j < r@[w]@.len() ==> crate::geometry::in_bounds(
                    #[trigger] r@[w]@[j],
                ),
    {
        let ghost target = walks_view(walks@).map_values(|w: Seq<usize>| positions_of(*self, w));
        let mut r: Vec<Vec<Point>> = Vec::new();
        let mut w: usize = 0;
        while w < walks.len()
            invariant
                crate::grid::grid_wf(*self),
                0 <= w <= walks@.len(),
                target == walks_view(walks@).map_values(|ww: Seq<usize>| positions_of(*self, ww)),
                forall|a: int, j: int|
                    0 <= a < walks@.len() && 0 <= j < walks@[a]@.len() ==> (
                    #[trigger] walks@[a]@[j]) < self.tiles@.len(),
                r@.len() == w,
                forall|a: int| 0 <= a < w ==> (#[trigger] r@[a])@ == target[a],
                forall|a: int| 0 <= a < w ==> (#[trigger] r@[a])@.len() == walks@[a]@.len(),
                forall|a: int, j: int|
                    0 <= a < w && 0 <= j < r@[a]@.len() ==> crate::geometry::in_bounds(
                        #[trigger] r@[a]@[j],
                    ),
            decreases walks@.len() - w,
        {
            let iw = &walks[w];
            let mut pw: Vec<Point> = Vec::new();
            let mut j: usize = 0;
            while j < iw.len()
                invariant
                    crate::grid::grid_wf(*self),
                    0 <= j <= iw@.len(),
                    forall|m: int| 0 <= m < iw@.len() ==> (#[trigger] iw@[m]) < self.tiles@.len(),
                    pw@.len() == j,
                    forall|m: int|
                        0 <= m < j ==> #[trigger] pw@[m] == self.tiles@[iw@[m] as int].position,
                decreases iw@.len() - j,
            {
                pw.push(self.tiles[iw[j]].position);
                j = j + 1;
            }
            proof {
                assert(pw@ =~= positions_of(*self, iw@));
            }
            r.push(pw);
            w = w + 1;
        }
        proof {
            assert(polys_view(r@) =~= target);
        }
        r
    }
}

/// Whether `a` is drawn strictly before `b`, decided on the walks'
/// contents.
pub fn walk_before(a: &Vec<Point>, b: &Vec<Point>) -> (r: bool)
    ensures
        r == walk_lt(a@, b@),
{
    if a.len() < b.len() {
        true
    } else if a.len() > b.len() {
        false
    } else if a.len() == 0 {
        false
    } else if a[0].x > b[0].x {
        true
    } else if a[0].x < b[0].x {
        false
    } else {
        a[0].y > b[0].y
    }
}

/// Sorts the walks into drawing order: ascending point count, ties
/// broken by descending x and then descending y of the first point.  The
/// result is the deterministic insertion sort of the input, it is a
/// rearrangement of the input, and it is in drawing order.
pub fn sort_walks(walks: Vec<Vec<Point>>) -> (r: Vec<Vec<Point>>)
    ensures
        polys_view(r@) == sort_walks_spec(polys_view(walks@)),
        r@.len() == walks@.len(),
        walks_sorted(polys_view(r@)),
        polys_view(r@).to_multiset() == polys_view(walks@).to_multiset(),
        forall|i: int|
            0 <= i < r@.len() ==> polys_view(walks@).contains(#[trigger] polys_view(r@)[i]),
{
    let ghost input = polys_view(walks@);
    let mut rest = walks;
    let mut out: Vec<Vec<Point>> = Vec::new();
    let ghost done: int = 0;
    proof {
        assert(polys_view(out@) =~= input.take(0));
    }
    while rest.len() > 0
        invariant
            input == polys_view(walks@),
            0 <= done <= input.len(),
            rest@.len() == input.len() - done,
            polys_view(rest@) == input.skip(done),
            polys_view(out@) == sort_walks_spec(input.take(done)),
            polys_view(out@).to_multiset() == input.take(done).to_multiset(),
            out@.len() == done,
            walks_sorted(polys_view(out@)),
            forall|i: int|
                0 <= i < out@.len() ==> input.contains(#[trigger] polys_view(out@)[i]),
        decreases rest@.len(),
    {
        let ghost rest_pre = rest@;
        let w = rest.remove(0);
        proof {
            assert(w == rest_pre[0]);
            assert(polys_view(rest_pre)[0] == input.skip(done)[0]);
            assert(w@ == input[done]);
            assert forall|m: int| 0 <= m < rest@.len() implies polys_view(rest@)[m] == input.skip(
                done + 1,
            )[m] by {
                assert(rest@[m] == rest_pre[m + 1]);
                assert(polys_view(rest_pre)[m + 1] == input.skip(done)[m + 1]);
            }
            assert(polys_view(rest@) =~= input.skip(done + 1));
        }
        let mut idx: usize = 0;
        while idx < out.len() && !walk_before(&w, &out[idx])
            invariant
                0 <= idx <= out@.len(),
                forall|m: int| 0 <= m < idx ==> !walk_lt(w@, #[trigger] polys_view(out@)[m]),
            decreases out@.len() - idx,
        {
            idx = idx + 1;
        }
        let ghost out_pre = polys_view(out@);
        out.insert(idx, w);
        proof {
            lemma_insert_sorted_at(out_pre, w@, idx as int);
            assert(polys_view(out@) =~= out_pre.take(idx as int) + seq![w@] + out_pre.skip(
                idx as int,
            ));
            assert(input.take(done + 1).drop_last() =~= input.take(done));
            assert(input.take(done + 1).last() == input[done]);
            assert(polys_view(out@) == insert_sorted(sort_walks_spec(input.take(done)), w@));
            // the inserted sequence is still in drawing order
            let outn = polys_view(out@);
            assert forall|i: int, j: int| 0 <= i < j < outn.len() implies !walk_lt(
                #[trigger] outn[j],
                #[trigger] outn[i],
            ) by {
                let ii = idx as int;
                if i < ii && j == ii {
                    assert(outn[i] == out_pre[i] && outn[j] == w@);
                    lemma_walk_lt_strict(w@, out_pre[i], out_pre[i]);
                } else if i == ii && j > ii {
                    assert(outn[i] == w@ && outn[j] == out_pre[j - 1]);
                    if walk_lt(out_pre[j - 1], w@) {
                        assert(walk_lt(w@, out_pre[ii]));
                        assert(!walk_lt(out_pre[j - 1], out_pre[ii]));
                        lemma_walk_lt_strict(out_pre[j - 1], w@, out_pre[ii]);
                    }
                } else if i < ii && j > ii {
                    assert(outn[i] == out_pre[i] && outn[j] == out_pre[j - 1]);
                } else if j < ii {
                    assert(outn[i] == out_pre[i] && outn[j] == out_pre[j]);
                } else if i > ii {
                    assert(outn[i] == out_pre[i - 1] && outn[j] == out_pre[j - 1]);
                }
            }
            // the insertion only rearranges: one more copy of `w`
            broadcast use vstd::seq_lib::group_to_multiset_ensures;

            let ins = out_pre.insert(idx as int, w@);
            assert(outn =~= ins);
            assert(ins.remove(idx as int) =~= out_pre);
            assert(ins.remove(idx as int).to_multiset() =~= ins.to_multiset().remove(
                ins[idx as int],
            ));
            assert(ins[idx as int] == w@);
            assert(ins.contains(w@));
            assert(ins.to_multiset().count(w@) > 0);
            assert(ins.to_multiset() =~= out_pre.to_multiset().insert(w@)) by {
                assert(ins.to_multiset().remove(w@) =~= out_pre.to_multiset());
                assert forall|x: Seq<Point>|
                    ins.to_multiset().count(x) == #[trigger] out_pre.to_multiset().insert(
                    w@,
                ).count(x) by {
                    if x == w@ {
                        assert(ins.to_multiset().remove(w@).count(x) == ins.to_multiset().count(x)
                            - 1);
                    } else {
                        assert(ins.to_multiset().remove(w@).count(x) == ins.to_multiset().count(
                            x,
                        ));
                    }
                }
            }
            assert(input.take(done + 1) =~= input.take(done).push(input[done]));
            assert(input.take(done).push(input[done]).to_multiset() =~= input.take(
                done,
            ).to_multiset().insert(input[done]));
            assert(outn.to_multiset() =~= input.take(done + 1).to_multiset());
            // membership carries over
            assert forall|i: int| 0 <= i < outn.len() implies input.contains(
                #[trigger] outn[i],
            ) by {
                let ii = idx as int;
                if i == ii {
                    assert(input[done] == w@);
                } else if i < ii {
                    assert(outn[i] == out_pre[i]);
                } else {
                    assert(outn[i] == out_pre[i - 1]);
                }
            }
        }
        proof {
            done = done + 1;
        }
    }
    proof {
        assert(input.take(done) =~= input);
    }
    out
}

/// Drops the shortest `slice_percentage` thousandths of the sorted walks
/// (rounded to the nearest whole walk) and keeps the rest: the walks
/// with the most points survive.
pub fn slice_walks(walks: Vec<Vec<Point>>, slice_percentage: i64) -> (r: Vec<Vec<Point>>)
    requires
        0 <= slice_percentage <= 1000,
    ensures
        polys_view(r@) == polys_view(walks@).skip(
            drop_count(polys_view(walks@).len() as int, slice_percentage as int),
        ),
        0 <= drop_count(polys_view(walks@).len() as int, slice_percentage as int)
            <= polys_view(walks@).len(),
        r@.len() == walks@.len() - drop_count(
            polys_view(walks@).len() as int,
            slice_percentage as int,
        ),
{
    let ghost input = polys_view(walks@);
    let len = walks.len() as u128;
    proof {
        assert(0 <= len * (slice_percentage as u128)) by (nonlinear_arith)
            requires
                0 <= len,
                0 <= slice_percentage,
        ;
        assert(len * (slice_percentage as u128) <= len * 1000) by (nonlinear_arith)
            requires
                0 <= len,
                0 <= slice_percentage <= 1000,
        ;
        assert(len * 1000 + 500 < u128::MAX) by (nonlinear_arith)
            requires
                len < 0x1_0000_0000_0000_0000,
        ;
        vstd::arithmetic::div_mod::lemma_div_is_ordered(
            0,
            len * (slice_percentage as u128) + 500,
            1000,
        );
        vstd::arithmetic::div_mod::lemma_div_is_ordered(
            len * (slice_percentage as u128) + 500,
            len * 1000 + 500,
            1000,
        );
        assert((len * 1000 + 500) / 1000 == len) by (nonlinear_arith)
            requires
                0 <= len,
        ;
        assert(0int / 1000 == 0) by (nonlinear_arith);
    }
    let drop = ((len * (slice_percentage as u128) + 500) / 1000) as usize;
    proof {
        assert(drop as int == drop_count(input.len() as int, slice_percentage as int));
    }
    let mut rest = walks;
    let tail = rest.split_off(drop);
    proof {
        assert(tail@.len() == walks@.len() - drop);
        assert(polys_view(tail@) =~= input.skip(drop as int));
    }
    tail
}

impl Grid {
    /// Covers the grid with randomized walks, one draw of `choices` per
    /// iteration: the walk repeatedly moves to a random unvisited
    /// neighbor, and when stuck it closes the walk and restarts from a
    /// random unvisited cell.  The result is a pure function of the grid
    /// and the draws — replaying the same draws reproduces the same
    /// walks — and together the walks visit every cell exactly once.
    #[verifier::rlimit(100)]
    pub fn cover_walks(&self, choices: &Vec<u64>) -> (walks: Vec<Vec<usize>>)
        requires
            crate::grid::grid_wf(*self),
            self.tiles@.len() >= 1,
            choices@.len() >= self.tiles@.len() + 1,
        ensures
            walks_view(walks@) == spec_cover_walks(grid_adj(*self), choices@),
            walks@.len() >= 1,
            forall|w: int| 0 <= w < walks@.len() ==> (#[trigger] walks@[w])@.len() >= 1,
            forall|w: int, j: int|
                0 <= w < walks@.len() && 0 <= j < walks@[w]@.len() ==> (#[trigger] walks@[w]@[j])
                    < self.tiles@.len(),
            flat_walks(walks_view(walks@)).len() == self.tiles@.len(),
            flat_walks(walks_view(walks@)).no_duplicates(),
            forall|c: usize|
                #[trigger] flat_walks(walks_view(walks@)).contains(c) <==> c
                    < self.tiles@.len(),
    {
        let n = self.tiles.len();
        let ghost tn = self.tiles@.len() as int;
        let ghost adj = grid_adj(*self);

        let mut visited: Vec<bool> = vec![false; n];
        let mut unused: Vec<usize> = Vec::new();
        let mut i0: usize = 0;
        while i0 < n
            invariant
                0 <= i0 <= n,
                unused@.len() == i0,
                forall|j: int| 0 <= j < i0 ==> #[trigger] unused@[j] == j as usize,
            decreases n - i0,
        {
            unused.push(i0);
            i0 = i0 + 1;
        }

        let mut remaining = n;
        let mut step: usize = 1;
        let c0 = choices[0];
        let mut current = (c0 % (n as u64)) as usize;
        let mut walks: Vec<Vec<usize>> = Vec::new();
        let mut current_walk: Vec<usize> = Vec::new();
        current_walk.push(current);

        proof {
            vstd::std_specs::vec::axiom_spec_len(choices);
            let init = walk_init(tn as nat, c0);
            assert(visited@ =~= init.visited);
            assert(unused@ =~= init.unused);
            assert((c0 % (n as u64)) as int == (c0 as int) % tn);
            assert(current_walk@ =~= init.walk);
            assert(walks_view(walks@) =~= init.walks);
            assert(flat_walks(walks_view(walks@)) + current_walk@ =~= seq![current]);
            assert forall|u: usize| (flat_walks(walks_view(walks@))
                + current_walk@).contains(u) implies u == current by {
                let jj = choose|jj: int|
                    0 <= jj < (flat_walks(walks_view(walks@)) + current_walk@).len() && (flat_walks(
                        walks_view(walks@),
                    ) + current_walk@)[jj] == u;
            }
            assert((flat_walks(walks_view(walks@)) + current_walk@)[0] == current);
            assert forall|u: usize| unused@.contains(u) implies ((u as int) < tn && !visited@[u as int]) by {
                let j = choose|j: int| 0 <= j < unused@.len() && unused@[j] == u;
            }
            assert forall|u: usize| (u as int) < tn && !visited@[u as int] implies unused@.contains(
                u,
            ) by {
                assert(unused@[u as int] == u);
            }
        }

        while remaining > 0
            invariant
                crate::grid::grid_wf(*self),
                tn == self.tiles@.len(),
                tn >= 1,
                adj == grid_adj(*self),
                choices@.len() >= tn + 1,
                tn + 1 <= usize::MAX,
                0 <= remaining <= tn,
                step == tn - remaining + 1,
                visited@.len() == tn,
                unused@.len() == remaining,
                unused@.no_duplicates(),
                forall|u: usize|
                    #[trigger] unused@.contains(u) <==> ((u as int) < tn && !visited@[u as int]),
                (current as int) < tn,
                remaining > 0 ==> !visited@[current as int] && unused@.contains(current),
                (WalkState {
                    visited: visited@,
                    unused: unused@,
                    current: current,
                    walk: current_walk@,
                    walks: walks_view(walks@),
                }) == walk_state_at(adj, choices@, (tn - remaining) as nat),
                current_walk@.len() >= 1,
                forall|w: int| 0 <= w < walks@.len() ==> (#[trigger] walks@[w])@.len() >= 1,
                forall|w: int, j: int|
                    0 <= w < walks@.len() && 0 <= j < walks@[w]@.len() ==> ((
                    #[trigger] walks@[w]@[j]) as int) < tn,
                forall|j: int| 0 <= j < current_walk@.len() ==> ((#[trigger] current_walk@[j]) as int) < tn,
                flat_walks(walks_view(walks@) ).no_duplicates(),
                (flat_walks(walks_view(walks@)) + current_walk@).no_duplicates(),
                remaining > 0 ==> (flat_walks(walks_view(walks@)) + current_walk@).len() == tn
                    - remaining + 1,
                remaining == 0 ==> (flat_walks(walks_view(walks@)) + current_walk@).len() == tn,
                remaining > 0 ==> (forall|u: usize|
                    #[trigger] (flat_walks(walks_view(walks@)) + current_walk@).contains(u) <==> (
                    (u as int) < tn && (visited@[u as int] || u == current))),
                remaining == 0 ==> (forall|u: usize|
                    #[trigger] (flat_walks(walks_view(walks@)) + current_walk@).contains(u) <==> (
                    (u as int) < tn && visited@[u as int])),
            decreases remaining,
        {
            let ghost st_pre = WalkState {
                visited: visited@,
                unused: unused@,
                current: current,
                walk: current_walk@,
                walks: walks_view(walks@),
            };
            let ghost cov_pre = flat_walks(walks_view(walks@)) + current_walk@;
            let ghost visited_pre = visited@;
            let ghost unused_pre = unused@;

            visited[current] = true;

            let ghost w0 = choose|m: int|
                0 <= m < unused@.len() && unused@[m] == current;
            let mut fi: usize = 0;
            while unused[fi] != current
                invariant
                    0 <= fi <= w0,
                    w0 < unused@.len(),
                    unused@.len() <= usize::MAX,
                    unused@[w0] == current,
                    forall|m: int| 0 <= m < fi ==> unused@[m] != current,
                decreases w0 - fi,
            {
                fi = fi + 1;
            }
            proof {
                lemma_find_first_characterizes(unused@, current, fi as int);
                lemma_swap_remove_props(unused@, fi as int);
            }
            unused.swap_remove(fi);
            remaining = remaining - 1;

            let ns = &self.tiles[current].neighbors;
            let mut vn: Vec<usize> = Vec::new();
            let mut j: usize = 0;
            while j < ns.len()
                invariant
                    0 <= j <= ns@.len(),
                    visited@.len() == tn,
                    forall|m: int|
                        0 <= m < ns@.len() ==> ((#[trigger] ns@[m]) as int) < tn,
                    vn@ == unvisited_of(ns@.take(j as int), visited@),
                    forall|m: int|
                        0 <= m < vn@.len() ==> ((#[trigger] vn@[m]) as int) < tn && !visited@[vn@[m] as int],
                decreases ns@.len() - j,
            {
                let nb = ns[j];
                proof {
                    assert(ns@.take(j as int + 1).drop_last() =~= ns@.take(j as int));
                    assert(ns@.take(j as int + 1).last() == ns@[j as int]);
                }
                if !visited[nb] {
                    vn.push(nb);
                }
                j = j + 1;
            }
            proof {
                assert(ns@.take(ns@.len() as int) =~= ns@);
                assert(adj[current as int] == self.tiles@[current as int].neighbors@);
            }

            let ghost choice = choices@[step as int];
            let ghost st_mid_unused = unused@;

            if vn.len() > 0 {
                let c = choices[step];
                let pick = (c % (vn.len() as u64)) as usize;
                proof {
                    assert((c % (vn.len() as u64)) as int == (c as int) % (vn@.len() as int));
                }
                current = vn[pick];
                current_walk.push(current);
            } else if remaining > 0 {
                let c = choices[step];
                let pick = (c % (unused.len() as u64)) as usize;
                proof {
                    assert((c % (unused.len() as u64)) as int == (c as int) % (unused@.len() as int));
                }
                current = unused[pick];
                walks.push(current_walk);
                current_walk = Vec::new();
                current_walk.push(current);
            }

            proof {
                let stepped = walk_step(adj, st_pre, choice);
                let vis1 = st_pre.visited.update(st_pre.current as int, true);
                assert(visited@ == vis1);
                let un1 = st_pre.unused.update(
                    find_first(st_pre.unused, st_pre.current),
                    st_pre.unused.last(),
                ).drop_last();
                assert(unused@ == un1);
                let vnspec = unvisited_of(adj[st_pre.current as int], vis1);
                assert(vnspec == unvisited_of(ns@, visited@));
                assert forall|u: usize| #[trigger] unused@.contains(u) implies ((u as int) < tn
                    && !visited@[u as int]) by {
                    assert(unused_pre.contains(u) && u != st_pre.current);
                }
                assert forall|u: usize| (u as int) < tn && !visited@[u as int] implies
                    #[trigger] unused@.contains(u) by {
                    assert(!visited_pre[u as int] && u != st_pre.current);
                    assert(unused_pre.contains(u));
                }
                if vnspec.len() > 0 {
                    if remaining == 0 {
                        let nb0 = vnspec[(choice as int) % (vnspec.len() as int)];
                        assert(vn@.contains(nb0));
                        let mm = choose|mm: int| 0 <= mm < vn@.len() && vn@[mm] == nb0;
                        assert((nb0 as int) < tn && !visited@[nb0 as int]);
                        assert(unused@.contains(nb0));
                        assert(false);
                    }
                    let nxt = vnspec[(choice as int) % (vnspec.len() as int)];
                    assert(current == nxt);
                    assert(current_walk@ == st_pre.walk.push(nxt));
                    assert(walks_view(walks@) == st_pre.walks);
                    // coverage bookkeeping
                    lemma_push_contains(cov_pre, nxt);
                    assert(flat_walks(walks_view(walks@)) + current_walk@ =~= cov_pre.push(nxt));
                    assert(!cov_pre.contains(nxt));
                } else if un1.len() > 0 {
                    let nxt = un1[(choice as int) % (un1.len() as int)];
                    assert(current == nxt);
                    assert(current_walk@ =~= seq![nxt]);
                    assert(walks_view(walks@) =~= st_pre.walks.push(st_pre.walk));
                    lemma_flat_walks_push(st_pre.walks, st_pre.walk);
                    lemma_push_contains(cov_pre, nxt);
                    assert(flat_walks(walks_view(walks@)) + current_walk@ =~= cov_pre.push(nxt));
                    assert(un1.contains(nxt));
                    assert(!cov_pre.contains(nxt));
                } else {
                    assert(remaining == 0);
                    assert(current == st_pre.current);
                    assert(flat_walks(walks_view(walks@)) + current_walk@ == cov_pre);
                }
                assert((WalkState {
                    visited: visited@,
                    unused: unused@,
                    current: current,
                    walk: current_walk@,
                    walks: walks_view(walks@),
                }) == stepped);
                assert(walk_state_at(adj, choices@, (tn - remaining) as nat) == stepped);
            }
            step = step + 1;
        }

        walks.push(current_walk);
        proof {
            let ghost st_fin = walk_state_at(adj, choices@, tn as nat);
            lemma_flat_walks_push(st_fin.walks, st_fin.walk);
            assert(walks_view(walks@) =~= st_fin.walks.push(st_fin.walk));
            assert(flat_walks(walks_view(walks@)) == flat_walks(st_fin.walks) + st_fin.walk);
            assert forall|c: usize| #[trigger] flat_walks(walks_view(walks@)).contains(c) implies (c
                as int) < tn by {}
            assert forall|c: usize| (c as int) < tn implies #[trigger] flat_walks(
                walks_view(walks@),
            ).contains(c) by {
                assert(!unused@.contains(c));
            }
        }
        walks
    }
}


/// The whole generation pipeline as a function of the grid, the
/// configuration and the random draws: cover the grid with walks, map
/// them to cell centers, sort them into drawing order, drop the shortest
/// ones, and smooth each survivor.
pub open spec fn spec_random_walk(
    g: Grid,
    parameters: RandomWalkParameters,
    choices: Seq<u64>,
) -> Seq<Seq<Point>> {
    let idx_walks = spec_cover_walks(grid_adj(g), choices);
    let pos = idx_walks.map_values(|w: Seq<usize>| positions_of(g, w));
    let sorted = sort_walks_spec(pos);
    let kept = sorted.skip(drop_count(sorted.len() as int, parameters.slice_percentage as int));
    kept.map_values(
        |w: Seq<Point>| crate::smoothing::smooth_spec(
            w,
            parameters.smooth_number_of_points as nat,
            parameters.smooth_sharpness as int,
        ),
    )
}

impl Grid {
    /// Generates one drawing's worth of walks: a randomized cover of the
    /// grid, sorted into drawing order, thinned to the longest walks,
    /// and smoothed.  The result is a pure function of the grid, the
    /// configuration and the draws taken from the random source, so a
    /// seeded source reproduces the same walks.
    pub fn random_walk(
        &self,
        parameters: RandomWalkParameters,
        rng: &mut RandomSource,
    ) -> (walks: Vec<Vec<Point>>)
        requires
            crate::grid::grid_wf(*self),
            1 <= self.tiles@.len() <= 1_000_000,
            0 <= parameters.smooth_sharpness <= crate::smoothing::SHARPNESS_DEN,
            0 <= parameters.slice_percentage <= 1000,
            parameters.smooth_number_of_points <= crate::geometry::MAX_LERP_DEN,
        ensures
            exists|choices: Seq<u64>|
                #[trigger] spec_random_walk(*self, parameters, choices) == polys_view(walks@)
                    && choices.len() == self.tiles@.len() + 1,
            forall|w: int| 0 <= w < walks@.len() ==> (#[trigger] walks@[w])@.len() >= 1,
            forall|w: int, j: int|
                0 <= w < walks@.len() && 0 <= j < walks@[w]@.len() ==> crate::geometry::in_bounds(
                    #[trigger] walks@[w]@[j],
                ),
    {
        let n = self.tiles.len();
        let choices = rng.draw(n + 1);
        let idx_walks = self.cover_walks(&choices);
        let pos = self.walk_positions(&idx_walks);
        let ghost pos_v = polys_view(pos@);
        proof {
            assert forall|i: int|
                0 <= i < pos_v.len() implies #[trigger] pos_v[i] == walks_view(
                idx_walks@,
            ).map_values(|w: Seq<usize>| positions_of(*self, w))[i] by {}
        }
        let sorted = sort_walks(pos);
        let ghost sorted_v = polys_view(sorted@);
        proof {
            // every sorted walk is one of the position walks: non-empty,
            // in-bounds points
            assert forall|i: int| 0 <= i < sorted_v.len() implies ((#[trigger] sorted_v[i]).len()
                >= 1 && forall|j: int|
                0 <= j < sorted_v[i].len() ==> crate::geometry::in_bounds(
                    #[trigger] sorted_v[i][j],
                )) by {
                assert(pos_v.contains(sorted_v[i]));
                let m = choose|m: int| 0 <= m < pos_v.len() && pos_v[m] == sorted_v[i];
                assert(pos@[m]@ == sorted_v[i]);
                assert(idx_walks@[m]@.len() >= 1);
            }
        }
        let kept = slice_walks(sorted, parameters.slice_percentage);
        let ghost kept_v = polys_view(kept@);
        let ghost drop = drop_count(sorted_v.len() as int, parameters.slice_percentage as int);
        proof {
            assert(kept_v == sorted_v.skip(drop));
            assert forall|i: int| 0 <= i < kept_v.len() implies ((#[trigger] kept_v[i]).len() >= 1
                && forall|j: int|
                0 <= j < kept_v[i].len() ==> crate::geometry::in_bounds(
                    #[trigger] kept_v[i][j],
                )) by {
                assert(kept_v[i] == sorted_v[drop + i]);
            }
        }
        let mut rest = kept;
        let mut out: Vec<Vec<Point>> = Vec::new();
        let ghost done: int = 0;
        while rest.len() > 0
            invariant
                0 <= done <= kept_v.len(),
                rest@.len() == kept_v.len() - done,
                polys_view(rest@) == kept_v.skip(done),
                out@.len() == done,
                0 <= parameters.smooth_sharpness <= crate::smoothing::SHARPNESS_DEN,
                parameters.smooth_number_of_points <= crate::geometry::MAX_LERP_DEN,
                forall|i: int| 0 <= i < kept_v.len() ==> (#[trigger] kept_v[i]).len() >= 1,
                forall|i: int, j: int|
                    0 <= i < kept_v.len() && 0 <= j < kept_v[i].len()
                        ==> crate::geometry::in_bounds(#[trigger] kept_v[i][j]),
                forall|i: int|
                    0 <= i < done ==> (#[trigger] out@[i])@ == crate::smoothing::smooth_spec(
                        kept_v[i],
                        parameters.smooth_number_of_points as nat,
                        parameters.smooth_sharpness as int,
                    ),
                forall|i: int| 0 <= i < done ==> (#[trigger] out@[i])@.len() >= 1,
                forall|i: int, j: int|
                    0 <= i < done && 0 <= j < out@[i]@.len() ==> crate::geometry::in_bounds(
                        #[trigger] out@[i]@[j],
                    ),
            decreases rest@.len(),
        {
            let ghost rest_pre = rest@;
            let w = rest.remove(0);
            proof {
                assert(w == rest_pre[0]);
                assert(polys_view(rest_pre)[0] == kept_v.skip(done)[0]);
                assert(w@ == kept_v[done]);
                assert forall|m: int|
                    0 <= m < rest@.len() implies polys_view(rest@)[m] == kept_v.skip(
                    done + 1,
                )[m] by {
                    assert(rest@[m] == rest_pre[m + 1]);
                    assert(polys_view(rest_pre)[m + 1] == kept_v.skip(done)[m + 1]);
                }
                assert(polys_view(rest@) =~= kept_v.skip(done + 1));
            }
            let sw = crate::smoothing::smooth(
                w,
                parameters.smooth_number_of_points,
                parameters.smooth_sharpness,
            );
            out.push(sw);
            proof {
                done = done + 1;
            }
        }
        proof {
            let ghost cv = choices@;
            assert(polys_view(out@) =~= spec_random_walk(*self, parameters, cv));
            assert(spec_random_walk(*self, parameters, cv) == polys_view(out@) && cv.len()
                == self.tiles@.len() + 1);
        }
        out
    }
}

} // verus!
