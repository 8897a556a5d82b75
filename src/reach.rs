//! Breadth-first reachability over the grid, respecting wall segments and,
//! where asked, the opposing pawn.
use vstd::prelude::*;
use std::collections::VecDeque;
use crate::board::{
    count_true, flat_index, lemma_count_true_bound, lemma_count_true_mark, lemma_count_true_none,
    lemma_flat_index, lemma_flat_index_injective, Board, Cell,
};
use crate::geometry::{direction_from_index, direction_at, in_grid, Coordinate, Direction};

verus! {

/// Grid sizes the engine handles: at most a million cells, so that every
/// coordinate, cell count and distance fits in an `i32`.
pub open spec fn grid_ok(w: int, h: int) -> bool {
    1 <= w <= 1000000 && 1 <= h <= 1000000 && w * h <= 1000000
}

/// The walls of a `w` by `h` board: `hw` holds the segments between a cell
/// and the one below it (`w` by `h - 1`), `vw` those between a cell and the
/// one to its right (`w - 1` by `h`).
pub struct Terrain {
    pub w: int,
    pub h: int,
    pub hw: Seq<Cell>,
    pub vw: Seq<Cell>,
}

pub open spec fn terrain_of(w: i32, h: i32, hw: &Board<Cell>, vw: &Board<Cell>) -> Terrain {
    Terrain { w: w as int, h: h as int, hw: hw@, vw: vw@ }
}

/// Both wall boards are well formed and sized for a `w` by `h` grid.
pub open spec fn walls_fit(w: i32, h: i32, hw: &Board<Cell>, vw: &Board<Cell>) -> bool {
    &&& grid_ok(w as int, h as int)
    &&& hw.wf()
    &&& vw.wf()
    &&& hw.width == w
    &&& hw.height == h - 1
    &&& vw.width == w - 1
    &&& vw.height == h
}

/// A scratch board sized for a `w` by `h` grid.
pub open spec fn scratch_fits<T: Copy>(w: i32, h: i32, b: &Board<T>) -> bool {
    b.wf() && b.width == w && b.height == h
}

impl Terrain {
    pub open spec fn h_at(self, x: int, y: int) -> Cell {
        self.hw[flat_index(self.w, x, y)]
    }

    pub open spec fn v_at(self, x: int, y: int) -> Cell {
        self.vw[flat_index(self.w - 1, x, y)]
    }

    pub open spec fn inside(self, c: Coordinate) -> bool {
        in_grid(c.x as int, c.y as int, self.w, self.h)
    }

    /// No wall segment stands between `c` and its neighbour in direction `d`.
    pub open spec fn edge_open(self, c: Coordinate, d: Direction) -> bool {
        let n = c.spec_move_to(d);
        match d {
            Direction::Right => self.v_at(c.x as int, c.y as int) == Cell::Empty,
            Direction::Left => self.v_at(n.x as int, n.y as int) == Cell::Empty,
            Direction::Down => self.h_at(c.x as int, c.y as int) == Cell::Empty,
            Direction::Up => self.h_at(n.x as int, n.y as int) == Cell::Empty,
        }
    }

    /// A pawn may step from `c` in direction `d`: both cells are on the
    /// board, no wall is in the way, and the target is not the opposing pawn
    /// unless that pawn is ignored.
    pub open spec fn step_ok(
        self,
        other: Coordinate,
        ignore: bool,
        c: Coordinate,
        d: Direction,
    ) -> bool {
        let n = c.spec_move_to(d);
        &&& self.inside(c)
        &&& self.inside(n)
        &&& (ignore || n != other)
        &&& self.edge_open(c, d)
    }

    /// `n` is one passable step away from `c`.
    pub open spec fn hop(self, other: Coordinate, ignore: bool, c: Coordinate, n: Coordinate) -> bool {
        ||| (n == c.spec_move_to(Direction::Up) && self.step_ok(other, ignore, c, Direction::Up))
        ||| (n == c.spec_move_to(Direction::Down) && self.step_ok(other, ignore, c, Direction::Down))
        ||| (n == c.spec_move_to(Direction::Left) && self.step_ok(other, ignore, c, Direction::Left))
        ||| (n == c.spec_move_to(Direction::Right) && self.step_ok(
            other,
            ignore,
            c,
            Direction::Right,
        ))
    }

    /// The last step of a path into `c` is taken in direction `d`, from a
    /// cell reached within `k` steps.
    pub open spec fn arrives(
        self,
        start: Coordinate,
        other: Coordinate,
        ignore: bool,
        k: nat,
        c: Coordinate,
        d: Direction,
    ) -> bool
        decreases k + 1, 0nat,
    {
        let p = c.spec_move_to(opposite(d));
        &&& self.reach_within(start, other, ignore, k, p)
        &&& self.step_ok(other, ignore, p, d)
        &&& p.spec_move_to(d) == c
    }

    /// `c` is reached from `start` by a path of at most `k` passable steps.
    pub open spec fn reach_within(
        self,
        start: Coordinate,
        other: Coordinate,
        ignore: bool,
        k: nat,
        c: Coordinate,
    ) -> bool
        decreases k, 1nat,
    {
        if k == 0 {
            c == start
        } else {
            let j = (k - 1) as nat;
            ||| self.reach_within(start, other, ignore, j, c)
            ||| self.arrives(start, other, ignore, j, c, Direction::Up)
            ||| self.arrives(start, other, ignore, j, c, Direction::Down)
            ||| self.arrives(start, other, ignore, j, c, Direction::Left)
            ||| self.arrives(start, other, ignore, j, c, Direction::Right)
        }
    }
}

/// The direction that undoes `d`.
pub open spec fn opposite(d: Direction) -> Direction {
    match d {
        Direction::Up => Direction::Down,
        Direction::Down => Direction::Up,
        Direction::Left => Direction::Right,
        Direction::Right => Direction::Left,
    }
}

/// A path of at most `k` steps is also one of at most `m >= k` steps.
pub proof fn lemma_reach_within_mono(
    t: Terrain,
    start: Coordinate,
    other: Coordinate,
    ignore: bool,
    k: nat,
    m: nat,
    c: Coordinate,
)
    requires
        k <= m,
        t.reach_within(start, other, ignore, k, c),
    ensures
        t.reach_within(start, other, ignore, m, c),
    decreases m - k,
{
    if k < m {
        lemma_reach_within_mono(t, start, other, ignore, k, (m - 1) as nat, c);
    }
}

/// Extending a path of at most `k` steps by one passable step.
pub proof fn lemma_reach_within_step(
    t: Terrain,
    start: Coordinate,
    other: Coordinate,
    ignore: bool,
    k: nat,
    p: Coordinate,
    c: Coordinate,
)
    requires
        grid_ok(t.w, t.h),
        t.reach_within(start, other, ignore, k, p),
        t.hop(other, ignore, p, c),
    ensures
        t.reach_within(start, other, ignore, k + 1, c),
{
    let k1 = (k + 1) as nat;
    assert((k1 - 1) as nat == k);
    if c == p.spec_move_to(Direction::Up) && t.step_ok(other, ignore, p, Direction::Up) {
        assert(c.spec_move_to(Direction::Down) == p);
        assert(t.arrives(start, other, ignore, k, c, Direction::Up));
    } else if c == p.spec_move_to(Direction::Down) && t.step_ok(other, ignore, p, Direction::Down) {
        assert(c.spec_move_to(Direction::Up) == p);
        assert(t.arrives(start, other, ignore, k, c, Direction::Down));
    } else if c == p.spec_move_to(Direction::Left) && t.step_ok(other, ignore, p, Direction::Left) {
        assert(c.spec_move_to(Direction::Right) == p);
        assert(t.arrives(start, other, ignore, k, c, Direction::Left));
    } else {
        assert(c.spec_move_to(Direction::Left) == p);
        assert(t.arrives(start, other, ignore, k, c, Direction::Right));
    }
}

/// Whether the wall segment between `current` and its neighbour in
/// `direction` is absent. Both cells must lie on the board.
pub fn edge_is_open(
    w: i32,
    h: i32,
    hw: &Board<Cell>,
    vw: &Board<Cell>,
    current: Coordinate,
    direction: Direction,
) -> (r: bool)
    requires
        walls_fit(w, h, hw, vw),
        current.spec_inside(w as int, h as int),
        current.spec_move_to(direction).spec_inside(w as int, h as int),
    ensures
        r == terrain_of(w, h, hw, vw).edge_open(current, direction),
{
    let next = current.move_to(direction);
    match direction {
        Direction::Right => vw.get(current).is_empty(),
        Direction::Left => vw.get(next).is_empty(),
        Direction::Down => hw.get(current).is_empty(),
        Direction::Up => hw.get(next).is_empty(),
    }
}

/// The coordinate `(x, y)`.
pub open spec fn at_xy(x: int, y: int) -> Coordinate {
    Coordinate { x: x as i32, y: y as i32 }
}

/// Every passable step out of `c` leads to a marked cell whose level is at
/// most one more than that of `c`.
pub open spec fn expanded(
    t: Terrain,
    other: Coordinate,
    ignore: bool,
    marked: Board<bool>,
    lvl: spec_fn(Coordinate) -> int,
    c: Coordinate,
) -> bool {
    forall|d: Direction|
        #[trigger] t.step_ok(other, ignore, c, d) ==> {
            let n = c.spec_move_to(d);
            &&& marked.at(n.x as int, n.y as int)
            &&& lvl(n) <= lvl(c) + 1
        }
}

/// Once every marked cell below level `s` is expanded, every cell reached
/// within `j <= s` steps is marked at level at most `j`.
pub proof fn lemma_bfs_complete(
    t: Terrain,
    w: i32,
    h: i32,
    start: Coordinate,
    other: Coordinate,
    ignore: bool,
    s: nat,
    marked: Board<bool>,
    lvl: spec_fn(Coordinate) -> int,
    j: nat,
    c: Coordinate,
)
    requires
        grid_ok(w as int, h as int),
        t.w == w,
        t.h == h,
        start.spec_inside(w as int, h as int),
        marked.at(start.x as int, start.y as int),
        lvl(start) == 0,
        forall|x: int, y: int|
            #![trigger marked.at(x, y)]
            in_grid(x, y, w as int, h as int) && marked.at(x, y) && lvl(at_xy(x, y)) < s ==> expanded(
                t,
                other,
                ignore,
                marked,
                lvl,
                at_xy(x, y),
            ),
        j <= s,
        t.reach_within(start, other, ignore, j, c),
    ensures
        c.spec_inside(w as int, h as int),
        marked.at(c.x as int, c.y as int),
        lvl(c) <= j,
    decreases j,
{
    if j == 0 {
        assert(c == start);
    } else {
        let i = (j - 1) as nat;
        assert(t.reach_within(start, other, ignore, i, c) || t.arrives(start, other, ignore, i, c, Direction::Up) || t.arrives(start, other, ignore, i, c, Direction::Down) || t.arrives(start, other, ignore, i, c, Direction::Left) || t.arrives(start, other, ignore, i, c, Direction::Right));
        if t.reach_within(start, other, ignore, i, c) {
            lemma_bfs_complete(t, w, h, start, other, ignore, s, marked, lvl, i, c);
        } else {
            let d = if t.arrives(start, other, ignore, i, c, Direction::Up) {
                Direction::Up
            } else if t.arrives(start, other, ignore, i, c, Direction::Down) {
                Direction::Down
            } else if t.arrives(start, other, ignore, i, c, Direction::Left) {
                Direction::Left
            } else {
                Direction::Right
            };
            let p = c.spec_move_to(opposite(d));
            lemma_bfs_complete(t, w, h, start, other, ignore, s, marked, lvl, i, p);
            assert(p == Coordinate { x: p.x as int as i32, y: p.y as int as i32 });
            assert(marked.at(p.x as int, p.y as int));
            assert(expanded(t, other, ignore, marked, lvl, p));
            assert(t.step_ok(other, ignore, p, d));
        }
    }
}

/// Marks in `reachable` (cleared first) exactly the cells that a path of at
/// most `step` passable steps joins to `start`, by breadth-first search. The
/// cell `other` is not entered unless `ignore_other_player` is set.
pub fn reachable_from(
    w: i32,
    h: i32,
    hw: &Board<Cell>,
    vw: &Board<Cell>,
    start: Coordinate,
    other: Coordinate,
    step: i32,
    ignore_other_player: bool,
    reachable: &mut Board<bool>,
)
    requires
        walls_fit(w, h, hw, vw),
        scratch_fits(w, h, old(reachable)),
        start.spec_inside(w as int, h as int),
        0 <= step,
    ensures
        scratch_fits(w, h, final(reachable)),
        final(reachable).at(start.x as int, start.y as int),
        forall|x: int, y: int|
            #![trigger final(reachable).at(x, y)]
            in_grid(x, y, w as int, h as int) ==> (final(reachable).at(x, y) <==> terrain_of(
                w,
                h,
                hw,
                vw,
            ).reach_within(
                start,
                other,
                ignore_other_player,
                step as nat,
                at_xy(x, y),
            )),
{
    let ghost t = terrain_of(w, h, hw, vw);
    let ghost n = (w * h) as nat;
    let ghost ig = ignore_other_player;
    reachable.clear();
    let mut queue: VecDeque<(Coordinate, i32)> = VecDeque::new();
    queue.push_back((start, 0));
    proof {
        lemma_flat_index(w as int, h as int, start.x as int, start.y as int);
        lemma_count_true_mark(reachable@, flat_index(w as int, start.x as int, start.y as int));
    }
    let ghost cleared = *reachable;
    reachable.set(start, true);
    let ghost mut lvl: spec_fn(Coordinate) -> int = |c: Coordinate| 0int;
    let ghost mut inq: Set<Coordinate> = Set::empty().insert(start);
    proof {
        assert(t.reach_within(start, other, ig, 0, start));
        lemma_reach_within_mono(t, start, other, ig, 0, step as nat, start);
        assert forall|x: int, y: int|
            #![trigger reachable.at(x, y)]
            in_grid(x, y, w as int, h as int) && reachable.at(x, y) implies x == start.x && y
                == start.y by {
            lemma_flat_index(w as int, h as int, x, y);
            if !(x == start.x && y == start.y) {
                assert(!cleared.at(x, y));
            }
        }
    }
    let ghost mut popped: nat = 0;
    while queue.len() > 0
        invariant
            walls_fit(w, h, hw, vw),
            scratch_fits(w, h, reachable),
            t == terrain_of(w, h, hw, vw),
            n == w * h,
            ig == ignore_other_player,
            start.spec_inside(w as int, h as int),
            0 <= step,
            reachable.at(start.x as int, start.y as int),
            lvl(start) == 0,
            inq.finite(),
            inq.len() == queue@.len(),
            forall|k: int|
                #![trigger queue@[k]]
                0 <= k < queue@.len() ==> {
                    &&& queue@[k].0.spec_inside(w as int, h as int)
                    &&& 0 <= queue@[k].1 <= step
                    &&& t.reach_within(start, other, ig, queue@[k].1 as nat, queue@[k].0)
                    &&& inq.contains(queue@[k].0)
                    &&& lvl(queue@[k].0) == queue@[k].1
                },
            forall|a: int, b: int|
                0 <= a < b < queue@.len() ==> queue@[a].1 <= queue@[b].1 && queue@[a].0
                    != queue@[b].0,
            forall|c: Coordinate| #[trigger] inq.contains(c) ==> c.spec_inside(w as int, h as int) && reachable.at(c.x as int, c.y as int),
            queue@.len() > 0 ==> forall|x: int, y: int|
                #![trigger reachable.at(x, y)]
                in_grid(x, y, w as int, h as int) && reachable.at(x, y) ==> lvl(at_xy(x, y))
                    <= queue@[0].1 + 1,
            forall|x: int, y: int|
                #![trigger reachable.at(x, y)]
                in_grid(x, y, w as int, h as int) && reachable.at(x, y) ==> t.reach_within(
                    start,
                    other,
                    ig,
                    step as nat,
                    at_xy(x, y),
                ),
            forall|x: int, y: int|
                #![trigger reachable.at(x, y)]
                in_grid(x, y, w as int, h as int) && reachable.at(x, y) && !inq.contains(at_xy(x, y))
                    && lvl(at_xy(x, y)) < step ==> expanded(t, other, ig, *reachable, lvl, at_xy(x, y)),
            queue@.len() + popped == count_true(reachable@),
        decreases n - popped,
    {
        proof {
            lemma_count_true_bound(reachable@);
        }
        let ghost q0 = queue@;
        let (current, current_step) = match queue.pop_front() {
            Some(e) => e,
            None => (start, step),
        };
        proof {
            popped = popped + 1;
            inq = inq.remove(current);
            assert forall|k: int|
                #![trigger queue@[k]]
                0 <= k < queue@.len() implies inq.contains(queue@[k].0) && current_step
                    <= queue@[k].1 by {
                assert(queue@[k] == q0[k + 1]);
                assert(q0[0].0 != q0[k + 1].0);
            }
            assert forall|a: int, b: int|
                0 <= a < b < queue@.len() implies queue@[a].1 <= queue@[b].1 && queue@[a].0
                    != queue@[b].0 by {
                assert(queue@[a] == q0[a + 1]);
                assert(queue@[b] == q0[b + 1]);
            }
        }
        let mut i: usize = 0;
        while i < 4 && current_step < step
            invariant
                walls_fit(w, h, hw, vw),
                scratch_fits(w, h, reachable),
                t == terrain_of(w, h, hw, vw),
                n == w * h,
                ig == ignore_other_player,
                start.spec_inside(w as int, h as int),
                0 <= current_step <= step,
                current.spec_inside(w as int, h as int),
                t.reach_within(start, other, ig, current_step as nat, current),
                reachable.at(start.x as int, start.y as int),
                reachable.at(current.x as int, current.y as int),
                lvl(start) == 0,
                lvl(current) == current_step,
                !inq.contains(current),
                inq.finite(),
                inq.len() == queue@.len(),
                i <= 4,
                forall|k: int|
                    #![trigger queue@[k]]
                    0 <= k < queue@.len() ==> {
                        &&& queue@[k].0.spec_inside(w as int, h as int)
                        &&& 0 <= queue@[k].1 <= step
                        &&& t.reach_within(start, other, ig, queue@[k].1 as nat, queue@[k].0)
                        &&& inq.contains(queue@[k].0)
                        &&& lvl(queue@[k].0) == queue@[k].1
                        &&& current_step <= queue@[k].1
                    },
                forall|a: int, b: int|
                    0 <= a < b < queue@.len() ==> queue@[a].1 <= queue@[b].1 && queue@[a].0
                        != queue@[b].0,
                forall|c: Coordinate| #[trigger] inq.contains(c) ==> c.spec_inside(w as int, h as int) && reachable.at(c.x as int, c.y as int),
                forall|x: int, y: int|
                    #![trigger reachable.at(x, y)]
                    in_grid(x, y, w as int, h as int) && reachable.at(x, y) ==> lvl(at_xy(x, y))
                        <= current_step + 1,
                forall|x: int, y: int|
                    #![trigger reachable.at(x, y)]
                    in_grid(x, y, w as int, h as int) && reachable.at(x, y) ==> t.reach_within(
                        start,
                        other,
                        ig,
                        step as nat,
                        at_xy(x, y),
                    ),
                forall|x: int, y: int|
                    #![trigger reachable.at(x, y)]
                    in_grid(x, y, w as int, h as int) && reachable.at(x, y) && !inq.contains(
                        at_xy(x, y),
                    ) && lvl(at_xy(x, y)) < step && at_xy(x, y) != current ==> expanded(
                        t,
                        other,
                        ig,
                        *reachable,
                        lvl,
                        at_xy(x, y),
                    ),
                forall|j: int|
                    0 <= j < i && #[trigger] t.step_ok(other, ig, current, direction_at(j)) ==> {
                        let nb = current.spec_move_to(direction_at(j));
                        &&& reachable.at(nb.x as int, nb.y as int)
                        &&& lvl(nb) <= current_step + 1
                    },
                queue@.len() + popped == count_true(reachable@),
            decreases 4 - i,
        {
            let direction = direction_from_index(i);
            let next = current.move_to(direction);
            if next.inside(w, h) && (ignore_other_player || next != other) && !*reachable.get(
                next,
            ) && edge_is_open(w, h, hw, vw, current, direction) {
                let ghost before = *reachable;
                let ghost q1 = queue@;
                let ghost lvl_b = lvl;
                proof {
                    assert(t.hop(other, ignore_other_player, current, next));
                    lemma_reach_within_step(t, start, other, ig, current_step as nat, current, next);
                    lemma_reach_within_mono(
                        t,
                        start,
                        other,
                        ig,
                        (current_step + 1) as nat,
                        step as nat,
                        next,
                    );
                    lemma_flat_index(w as int, h as int, next.x as int, next.y as int);
                    lemma_count_true_mark(reachable@, flat_index(w as int, next.x as int, next.y as int));
                    assert(!inq.contains(next));
                    inq = inq.insert(next);
                    lvl = |c: Coordinate| if c == next {
                        (current_step + 1) as int
                    } else {
                        lvl_b(c)
                    };
                }
                reachable.set(next, true);
                queue.push_back((next, current_step + 1));
                proof {
                    assert forall|k: int|
                        #![trigger queue@[k]]
                        0 <= k < queue@.len() implies {
                            &&& queue@[k].0.spec_inside(w as int, h as int)
                            &&& 0 <= queue@[k].1 <= step
                            &&& t.reach_within(start, other, ig, queue@[k].1 as nat, queue@[k].0)
                            &&& inq.contains(queue@[k].0)
                            &&& lvl(queue@[k].0) == queue@[k].1
                            &&& current_step <= queue@[k].1
                        } by {
                        if k < q1.len() {
                            assert(queue@[k] == q1[k]);
                            let c = q1[k].0;
                            assert(before.at(c.x as int, c.y as int));
                        }
                    }
                    assert forall|a: int, b: int|
                        0 <= a < b < queue@.len() implies queue@[a].1 <= queue@[b].1
                            && queue@[a].0 != queue@[b].0 by {
                        assert(queue@[a] == q1[a]);
                        if b < q1.len() {
                            assert(queue@[b] == q1[b]);
                        } else {
                            let c = q1[a].0;
                            assert(before.at(c.x as int, c.y as int));
                            assert(at_xy(c.x as int, c.y as int) == c);
                        }
                    }
                    assert forall|c: Coordinate| #[trigger] inq.contains(c) implies c.spec_inside(w as int, h as int) && reachable.at(c.x as int, c.y as int) by {
                        if c != next {
                            assert(before.at(c.x as int, c.y as int));
                        }
                    }
                }
            }
            i = i + 1;
        }
        proof {
            if current_step < step {
                assert forall|d: Direction| #[trigger]
                    t.step_ok(other, ig, current, d) implies {
                        let nb = current.spec_move_to(d);
                        &&& reachable.at(nb.x as int, nb.y as int)
                        &&& lvl(nb) <= lvl(current) + 1
                    } by {
                    let j: int = match d {
                        Direction::Up => 0,
                        Direction::Down => 1,
                        Direction::Left => 2,
                        Direction::Right => 3,
                    };
                    assert(direction_at(j) == d);
                }
            }
        }
    }
    proof {
        lemma_count_true_bound(reachable@);
        vstd::set_lib::lemma_set_empty_equivalency_len(inq);
        assert forall|x: int, y: int|
            #![trigger reachable.at(x, y)]
            in_grid(x, y, w as int, h as int) && t.reach_within(
                start,
                other,
                ig,
                step as nat,
                at_xy(x, y),
            ) implies reachable.at(x, y) by {
            lemma_bfs_complete(
                t,
                w,
                h,
                start,
                other,
                ig,
                step as nat,
                *reachable,
                lvl,
                step as nat,
                at_xy(x, y),
            );
        }
    }
}

/// Every passable step out of `c` (the pawn `other` blocking) leads to a
/// cell of `dist` at most one more than that of `c`.
pub open spec fn dist_expanded(t: Terrain, other: Coordinate, dist: Board<i32>, c: Coordinate) -> bool {
    forall|d: Direction|
        #[trigger] t.step_ok(other, false, c, d) ==> {
            let n = c.spec_move_to(d);
            &&& 0 <= dist.at(n.x as int, n.y as int)
            &&& dist.at(n.x as int, n.y as int) <= dist.at(c.x as int, c.y as int) + 1
        }
}

/// Once every reached cell is expanded, a cell reached within `j` steps has
/// a step count of at most `j`.
pub proof fn lemma_dist_complete(
    t: Terrain,
    w: i32,
    h: i32,
    start: Coordinate,
    other: Coordinate,
    dist: Board<i32>,
    j: nat,
    c: Coordinate,
)
    requires
        grid_ok(w as int, h as int),
        t.w == w,
        t.h == h,
        start.spec_inside(w as int, h as int),
        dist.at(start.x as int, start.y as int) == 0,
        forall|x: int, y: int|
            #![trigger dist.at(x, y)]
            in_grid(x, y, w as int, h as int) && 0 <= dist.at(x, y) ==> dist_expanded(
                t,
                other,
                dist,
                at_xy(x, y),
            ),
        t.reach_within(start, other, false, j, c),
    ensures
        c.spec_inside(w as int, h as int),
        0 <= dist.at(c.x as int, c.y as int) <= j,
    decreases j,
{
    if j == 0 {
        assert(c == start);
    } else {
        let i = (j - 1) as nat;
        assert(t.reach_within(start, other, false, i, c) || t.arrives(start, other, false, i, c, Direction::Up) || t.arrives(start, other, false, i, c, Direction::Down) || t.arrives(start, other, false, i, c, Direction::Left) || t.arrives(start, other, false, i, c, Direction::Right));
        if t.reach_within(start, other, false, i, c) {
            lemma_dist_complete(t, w, h, start, other, dist, i, c);
        } else {
            let d = if t.arrives(start, other, false, i, c, Direction::Up) {
                Direction::Up
            } else if t.arrives(start, other, false, i, c, Direction::Down) {
                Direction::Down
            } else if t.arrives(start, other, false, i, c, Direction::Left) {
                Direction::Left
            } else {
                Direction::Right
            };
            let p = c.spec_move_to(opposite(d));
            lemma_dist_complete(t, w, h, start, other, dist, i, p);
            assert(at_xy(p.x as int, p.y as int) == p);
            assert(dist_expanded(t, other, dist, p));
            assert(t.step_ok(other, false, p, d));
        }
    }
}

/// Fills `dist` (cleared to -1 first) with the breadth-first step count
/// from `start` to every cell, -1 where no path leads; the cell `other` is
/// never entered. Each count is the length of a shortest path.
pub fn distances_from(
    w: i32,
    h: i32,
    hw: &Board<Cell>,
    vw: &Board<Cell>,
    start: Coordinate,
    other: Coordinate,
    dist: &mut Board<i32>,
)
    requires
        walls_fit(w, h, hw, vw),
        scratch_fits(w, h, old(dist)),
        start.spec_inside(w as int, h as int),
    ensures
        scratch_fits(w, h, final(dist)),
        final(dist).at(start.x as int, start.y as int) == 0,
        forall|x: int, y: int|
            #![trigger final(dist).at(x, y)]
            in_grid(x, y, w as int, h as int) ==> {
                &&& -1 <= final(dist).at(x, y)
                &&& 0 <= final(dist).at(x, y) ==> terrain_of(w, h, hw, vw).reach_within(
                    start,
                    other,
                    false,
                    final(dist).at(x, y) as nat,
                    at_xy(x, y),
                )
                &&& forall|j: nat|
                    #[trigger] terrain_of(w, h, hw, vw).reach_within(start, other, false, j, at_xy(x, y))
                        ==> 0 <= final(dist).at(x, y) <= j
            },
{
    let ghost t = terrain_of(w, h, hw, vw);
    let ghost n = (w * h) as nat;
    dist.clear();
    let ghost cleared = *dist;
    let ghost mut marked: Seq<bool> = Seq::new(n, |i: int| false);
    proof {
        lemma_count_true_none(marked);
        lemma_flat_index(w as int, h as int, start.x as int, start.y as int);
        lemma_count_true_mark(marked, flat_index(w as int, start.x as int, start.y as int));
        marked = marked.update(flat_index(w as int, start.x as int, start.y as int), true);
        assert(w * h <= 1000000) by (nonlinear_arith)
            requires
                    w * h <= 1000000,
                1 <= w,
                1 <= h,
        ;
    }
    dist.set(start, 0);
    let mut queue: VecDeque<(Coordinate, i32)> = VecDeque::new();
    queue.push_back((start, 0));
    let ghost mut inq: Set<Coordinate> = Set::empty().insert(start);
    proof {
        assert forall|x: int, y: int|
            #![trigger dist.at(x, y)]
            in_grid(x, y, w as int, h as int) implies {
                &&& -1 <= dist.at(x, y)
                &&& 0 <= dist.at(x, y) ==> x == start.x && y == start.y
            } by {
            lemma_flat_index(w as int, h as int, x, y);
            if !(x == start.x && y == start.y) {
                assert(cleared.at(x, y) == -1);
            }
        }
        assert(t.reach_within(start, other, false, 0, start));
        assert forall|i: int| 0 <= i < n implies marked[i] == (dist@[i] != -1) by {
            if i != flat_index(w as int, start.x as int, start.y as int) {
                assert(cleared@[i] == -1);
            }
        }
    }
    let ghost mut popped: nat = 0;
    while queue.len() > 0
        invariant
            walls_fit(w, h, hw, vw),
            scratch_fits(w, h, dist),
            t == terrain_of(w, h, hw, vw),
            n == w * h,
            n <= 1000000,
            marked.len() == n,
            forall|i: int| 0 <= i < n ==> marked[i] == (dist@[i] != -1),
            start.spec_inside(w as int, h as int),
            dist.at(start.x as int, start.y as int) == 0,
            inq.finite(),
            inq.len() == queue@.len(),
            forall|k: int|
                #![trigger queue@[k]]
                0 <= k < queue@.len() ==> {
                    &&& queue@[k].0.spec_inside(w as int, h as int)
                    &&& 0 <= queue@[k].1 <= count_true(marked)
                    &&& dist.at(queue@[k].0.x as int, queue@[k].0.y as int) == queue@[k].1
                    &&& inq.contains(queue@[k].0)
                },
            forall|a: int, b: int|
                0 <= a < b < queue@.len() ==> queue@[a].1 <= queue@[b].1 && queue@[a].0
                    != queue@[b].0,
            forall|c: Coordinate|
                #[trigger] inq.contains(c) ==> c.spec_inside(w as int, h as int) && 0 <= dist.at(
                    c.x as int,
                    c.y as int,
                ),
            queue@.len() > 0 ==> forall|x: int, y: int|
                #![trigger dist.at(x, y)]
                in_grid(x, y, w as int, h as int) ==> dist.at(x, y) <= queue@[0].1 + 1,
            forall|x: int, y: int|
                #![trigger dist.at(x, y)]
                in_grid(x, y, w as int, h as int) ==> {
                    &&& -1 <= dist.at(x, y)
                    &&& 0 <= dist.at(x, y) ==> t.reach_within(
                        start,
                        other,
                        false,
                        dist.at(x, y) as nat,
                        at_xy(x, y),
                    )
                },
            forall|x: int, y: int|
                #![trigger dist.at(x, y)]
                in_grid(x, y, w as int, h as int) && 0 <= dist.at(x, y) && !inq.contains(at_xy(x, y))
                    ==> dist_expanded(t, other, *dist, at_xy(x, y)),
            queue@.len() + popped == count_true(marked),
        decreases n - popped,
    {
        proof {
            lemma_count_true_bound(marked);
        }
        let ghost q0 = queue@;
        let (current, d) = match queue.pop_front() {
            Some(e) => e,
            None => (start, 0),
        };
        proof {
            popped = popped + 1;
            inq = inq.remove(current);
            assert forall|k: int|
                #![trigger queue@[k]]
                0 <= k < queue@.len() implies inq.contains(queue@[k].0) && d <= queue@[k].1 by {
                assert(queue@[k] == q0[k + 1]);
                assert(q0[0].0 != q0[k + 1].0);
            }
            assert forall|a: int, b: int|
                0 <= a < b < queue@.len() implies queue@[a].1 <= queue@[b].1 && queue@[a].0
                    != queue@[b].0 by {
                assert(queue@[a] == q0[a + 1]);
                assert(queue@[b] == q0[b + 1]);
            }
        }
        let mut i: usize = 0;
        while i < 4
            invariant
                walls_fit(w, h, hw, vw),
                scratch_fits(w, h, dist),
                t == terrain_of(w, h, hw, vw),
                n == w * h,
                n <= 1000000,
                marked.len() == n,
                forall|i: int| 0 <= i < n ==> marked[i] == (dist@[i] != -1),
                start.spec_inside(w as int, h as int),
                dist.at(start.x as int, start.y as int) == 0,
                current.spec_inside(w as int, h as int),
                0 <= d <= count_true(marked),
                dist.at(current.x as int, current.y as int) == d,
                !inq.contains(current),
                inq.finite(),
                inq.len() == queue@.len(),
                i <= 4,
                forall|k: int|
                    #![trigger queue@[k]]
                    0 <= k < queue@.len() ==> {
                        &&& queue@[k].0.spec_inside(w as int, h as int)
                        &&& 0 <= queue@[k].1 <= count_true(marked)
                        &&& dist.at(queue@[k].0.x as int, queue@[k].0.y as int) == queue@[k].1
                        &&& inq.contains(queue@[k].0)
                        &&& d <= queue@[k].1
                    },
                forall|a: int, b: int|
                    0 <= a < b < queue@.len() ==> queue@[a].1 <= queue@[b].1 && queue@[a].0
                        != queue@[b].0,
                forall|c: Coordinate|
                    #[trigger] inq.contains(c) ==> c.spec_inside(w as int, h as int) && 0
                        <= dist.at(c.x as int, c.y as int),
                forall|x: int, y: int|
                    #![trigger dist.at(x, y)]
                    in_grid(x, y, w as int, h as int) ==> dist.at(x, y) <= d + 1,
                forall|x: int, y: int|
                    #![trigger dist.at(x, y)]
                    in_grid(x, y, w as int, h as int) ==> {
                        &&& -1 <= dist.at(x, y)
                        &&& 0 <= dist.at(x, y) ==> t.reach_within(
                            start,
                            other,
                            false,
                            dist.at(x, y) as nat,
                            at_xy(x, y),
                        )
                    },
                forall|x: int, y: int|
                    #![trigger dist.at(x, y)]
                    in_grid(x, y, w as int, h as int) && 0 <= dist.at(x, y) && !inq.contains(
                        at_xy(x, y),
                    ) && at_xy(x, y) != current ==> dist_expanded(t, other, *dist, at_xy(x, y)),
                forall|j: int|
                    0 <= j < i && #[trigger] t.step_ok(other, false, current, direction_at(j)) ==> {
                        let nb = current.spec_move_to(direction_at(j));
                        &&& 0 <= dist.at(nb.x as int, nb.y as int)
                        &&& dist.at(nb.x as int, nb.y as int) <= d + 1
                    },
                queue@.len() + popped == count_true(marked),
            decreases 4 - i,
        {
            proof {
                lemma_count_true_bound(marked);
                assert(at_xy(current.x as int, current.y as int) == current);
            }
            let dir = direction_from_index(i);
            let next = current.move_to(dir);
            if next.inside(w, h) && next != other && *dist.get(next) == -1 && edge_is_open(
                w,
                h,
                hw,
                vw,
                current,
                dir,
            ) {
                let ghost before = *dist;
                let ghost q1 = queue@;
                proof {
                    assert(t.hop(other, false, current, next));
                    lemma_reach_within_step(t, start, other, false, d as nat, current, next);
                    lemma_flat_index(w as int, h as int, next.x as int, next.y as int);
                    let fi = flat_index(w as int, next.x as int, next.y as int);
                    lemma_count_true_mark(marked, fi);
                    marked = marked.update(fi, true);
                    assert(!inq.contains(next));
                    inq = inq.insert(next);
                }
                dist.set(next, d + 1);
                queue.push_back((next, d + 1));
                proof {
                    assert forall|i: int| 0 <= i < n implies marked[i] == (dist@[i] != -1) by {
                        assert(before@[i] == dist@[i] || i == flat_index(
                            w as int,
                            next.x as int,
                            next.y as int,
                        ));
                    }
                    assert forall|k: int|
                        #![trigger queue@[k]]
                        0 <= k < queue@.len() implies {
                            &&& queue@[k].0.spec_inside(w as int, h as int)
                            &&& 0 <= queue@[k].1 <= count_true(marked)
                            &&& dist.at(queue@[k].0.x as int, queue@[k].0.y as int)
                                == queue@[k].1
                            &&& inq.contains(queue@[k].0)
                            &&& d <= queue@[k].1
                        } by {
                        if k < q1.len() {
                            assert(queue@[k] == q1[k]);
                            let q = q1[k].0;
                            assert(before.at(q.x as int, q.y as int) != -1);
                        }
                    }
                    assert forall|a: int, b: int|
                        0 <= a < b < queue@.len() implies queue@[a].1 <= queue@[b].1
                            && queue@[a].0 != queue@[b].0 by {
                        assert(queue@[a] == q1[a]);
                        if b < q1.len() {
                            assert(queue@[b] == q1[b]);
                        } else {
                            let c = q1[a].0;
                            assert(0 <= before.at(c.x as int, c.y as int));
                        }
                    }
                    assert forall|c: Coordinate|
                        #[trigger] inq.contains(c) implies c.spec_inside(w as int, h as int) && 0
                            <= dist.at(c.x as int, c.y as int) by {
                        if c != next {
                            assert(0 <= before.at(c.x as int, c.y as int));
                        }
                    }
                }
            }
            i = i + 1;
        }
        proof {
            assert forall|dd: Direction| #[trigger]
                t.step_ok(other, false, current, dd) implies {
                    let nb = current.spec_move_to(dd);
                    &&& 0 <= dist.at(nb.x as int, nb.y as int)
                    &&& dist.at(nb.x as int, nb.y as int) <= dist.at(current.x as int, current.y as int) + 1
                } by {
                let j: int = match dd {
                    Direction::Up => 0,
                    Direction::Down => 1,
                    Direction::Left => 2,
                    Direction::Right => 3,
                };
                assert(direction_at(j) == dd);
            }
        }
    }
    proof {
        vstd::set_lib::lemma_set_empty_equivalency_len(inq);
        assert forall|x: int, y: int|
            #![trigger dist.at(x, y)]
            in_grid(x, y, w as int, h as int) implies forall|j: nat|
                #[trigger] t.reach_within(start, other, false, j, at_xy(x, y)) ==> 0 <= dist.at(
                    x,
                    y,
                ) <= j by {
            assert forall|j: nat|
                #[trigger] t.reach_within(start, other, false, j, at_xy(x, y)) implies 0 <= dist.at(
                    x,
                    y,
                ) <= j by {
                lemma_dist_complete(t, w, h, start, other, *dist, j, at_xy(x, y));
            }
        }
    }
}

} // verus!
