//! The game state: pawns, wall boards, turn, move history and the history
//! cursor, with the moves that change them.
use vstd::prelude::*;
use crate::board::{count_true, flat_index, lemma_count_true_bound, lemma_flat_index, Board, Cell};
use crate::geometry::{in_grid, Coordinate, Direction};
use crate::moves::Move;
use crate::reach::{at_xy, grid_ok, scratch_fits, terrain_of, walls_fit, Terrain};

verus! {

/// The live part of a game: what history navigation replays.
pub struct Position {
    pub blue: Coordinate,
    pub green: Coordinate,
    pub hw: Seq<Cell>,
    pub vw: Seq<Cell>,
    pub blue_turn: bool,
}

/// Whether a wall placed by `mv` lies in the horizontal wall board (between
/// rows) rather than the vertical one.
pub open spec fn wall_is_horizontal(mv: Move) -> bool {
    mv.place_wall == Direction::Up || mv.place_wall == Direction::Down
}

/// The wall-board entry that `mv` fills: the edge beside the destination,
/// named by the cell above it or to its left.
pub open spec fn wall_slot(mv: Move) -> Coordinate {
    match mv.place_wall {
        Direction::Up => mv.destination.spec_move_to(Direction::Up),
        Direction::Left => mv.destination.spec_move_to(Direction::Left),
        _ => mv.destination,
    }
}

/// The move's destination is on a `w` by `h` board and its wall slot on the
/// matching wall board.
pub open spec fn move_fits(w: int, h: int, mv: Move) -> bool {
    let s = wall_slot(mv);
    &&& mv.destination.spec_inside(w, h)
    &&& if wall_is_horizontal(mv) {
        in_grid(s.x as int, s.y as int, w, h - 1)
    } else {
        in_grid(s.x as int, s.y as int, w - 1, h)
    }
}

/// The wall entry of `mv` in position `p` (of width `w`).
pub open spec fn slot_cell(p: Position, w: int, mv: Move) -> Cell {
    let s = wall_slot(mv);
    if wall_is_horizontal(mv) {
        p.hw[flat_index(w, s.x as int, s.y as int)]
    } else {
        p.vw[flat_index(w - 1, s.x as int, s.y as int)]
    }
}

/// `p` with the wall entry of `mv` set to `c`.
pub open spec fn with_slot(p: Position, w: int, mv: Move, c: Cell) -> Position {
    let s = wall_slot(mv);
    if wall_is_horizontal(mv) {
        Position { hw: p.hw.update(flat_index(w, s.x as int, s.y as int), c), ..p }
    } else {
        Position { vw: p.vw.update(flat_index(w - 1, s.x as int, s.y as int), c), ..p }
    }
}

/// The owner mark of the player to move.
pub open spec fn owner_of(blue_turn: bool) -> Cell {
    if blue_turn {
        Cell::Blue
    } else {
        Cell::Green
    }
}

/// The position after the player to move plays `mv`.
pub open spec fn apply_move(p: Position, w: int, mv: Move) -> Position {
    let q = with_slot(p, w, mv, owner_of(p.blue_turn));
    if p.blue_turn {
        Position { blue: mv.destination, blue_turn: false, ..q }
    } else {
        Position { green: mv.destination, blue_turn: true, ..q }
    }
}

/// The starting position: blue top-left, green bottom-right, no walls, blue
/// to move.
pub open spec fn initial_position(w: int, h: int) -> Position {
    Position {
        blue: Coordinate { x: 0, y: 0 },
        green: Coordinate { x: (w - 1) as i32, y: (h - 1) as i32 },
        hw: Seq::new((w * (h - 1)) as nat, |i: int| Cell::Empty),
        vw: Seq::new(((w - 1) * h) as nat, |i: int| Cell::Empty),
        blue_turn: true,
    }
}

/// The position reached by playing the first `n` moves of `hist`.
pub open spec fn replay(w: int, h: int, hist: Seq<Move>, n: nat) -> Position
    decreases n,
{
    if n == 0 {
        initial_position(w, h)
    } else {
        apply_move(replay(w, h, hist, (n - 1) as nat), w, hist[n - 1])
    }
}

/// Where the player who made the last move of `hist` stood before it:
/// their corner if it was their first move, else the destination of their
/// move before.
pub open spec fn previous_square(w: int, h: int, hist: Seq<Move>) -> Coordinate {
    let rest = hist.drop_last();
    if rest.len() == 0 {
        Coordinate { x: 0, y: 0 }
    } else if rest.len() == 1 {
        Coordinate { x: (w - 1) as i32, y: (h - 1) as i32 }
    } else {
        rest[rest.len() - 2].destination
    }
}

/// The position after taking back the last move of `hist` from `p`: its wall
/// entry is emptied, the pawn that made it returns to `previous_square`, and
/// the turn passes back.
pub open spec fn undo_position(p: Position, w: int, h: int, hist: Seq<Move>) -> Position {
    let q = with_slot(p, w, hist.last(), Cell::Empty);
    let back = previous_square(w, h, hist);
    if p.blue_turn {
        Position { green: back, blue_turn: false, ..q }
    } else {
        Position { blue: back, blue_turn: true, ..q }
    }
}

/// Result of a finished game, by reachable area.
#[derive(Clone, Copy, Debug, PartialEq, Eq, Structural)]
pub enum Winner {
    Blue,
    Green,
    Draw,
}

/// The two areas that decide a game.
#[derive(Clone, Copy, Debug, PartialEq, Eq, Structural)]
pub struct Score {
    pub blue: i32,
    pub green: i32,
}

/// A game in progress. The four scratch boards are working space of the
/// reachability searches; each search clears the one it uses first.
pub struct Game {
    pub width: i32,
    pub height: i32,
    pub blue_position: Coordinate,
    pub green_position: Coordinate,
    pub horizontal_walls: Board<Cell>,
    pub vertical_walls: Board<Cell>,
    pub blue_turn: bool,
    pub history: Vec<Move>,
    pub current_move_index: usize,
    pub blue_reachable_cache: Board<bool>,
    pub green_reachable_cache: Board<bool>,
    pub blue_steps_cache: Board<i32>,
    pub green_steps_cache: Board<i32>,
}

impl Game {
    pub open spec fn wf(&self) -> bool {
        &&& walls_fit(self.width, self.height, &self.horizontal_walls, &self.vertical_walls)
        &&& self.blue_position.spec_inside(self.width as int, self.height as int)
        &&& self.green_position.spec_inside(self.width as int, self.height as int)
        &&& self.current_move_index <= self.history@.len()
        &&& forall|i: int|
            0 <= i < self.history@.len() ==> move_fits(
                self.width as int,
                self.height as int,
                #[trigger] self.history@[i],
            )
        &&& scratch_fits(self.width, self.height, &self.blue_reachable_cache)
        &&& scratch_fits(self.width, self.height, &self.green_reachable_cache)
        &&& scratch_fits(self.width, self.height, &self.blue_steps_cache)
        &&& scratch_fits(self.width, self.height, &self.green_steps_cache)
    }

    /// Pawns, walls and turn.
    pub open spec fn position(&self) -> Position {
        Position {
            blue: self.blue_position,
            green: self.green_position,
            hw: self.horizontal_walls@,
            vw: self.vertical_walls@,
            blue_turn: self.blue_turn,
        }
    }

    pub open spec fn terrain(&self) -> Terrain {
        terrain_of(self.width, self.height, &self.horizontal_walls, &self.vertical_walls)
    }

    /// The live position is the replay of the whole history.
    pub open spec fn at_latest(&self) -> bool {
        &&& self.current_move_index == self.history@.len()
        &&& self.position() == replay(
            self.width as int,
            self.height as int,
            self.history@,
            self.history@.len() as nat,
        )
    }

    /// `after` is `before` moved to history entry `index`: same history,
    /// cursor at `index`, and the live position that of the first `index`
    /// moves.
    pub open spec fn cursor_moved(before: Game, after: Game, index: nat) -> bool {
        &&& after.wf()
        &&& after.width == before.width
        &&& after.height == before.height
        &&& after.history@ == before.history@
        &&& after.current_move_index == index
        &&& after.position() == replay(
            before.width as int,
            before.height as int,
            before.history@,
            index,
        )
    }

    /// Everything but the scratch boards is as in `other`.
    pub open spec fn same_state(&self, other: Game) -> bool {
        &&& self.wf()
        &&& self.width == other.width
        &&& self.height == other.height
        &&& self.position() == other.position()
        &&& self.history@ == other.history@
        &&& self.current_move_index == other.current_move_index
    }

    /// A new game on a `width` by `height` board.
    pub fn new(width: i32, height: i32) -> (r: Game)
        requires
            grid_ok(width as int, height as int),
        ensures
            r.wf(),
            r.width == width,
            r.height == height,
            r.position() == initial_position(width as int, height as int),
            r.history@.len() == 0,
            r.current_move_index == 0,
            r.at_latest(),
    {
        proof {
            assert(width * height <= 1000000) by (nonlinear_arith)
                requires
                    width * height <= 1000000,
                    1 <= width,
                    1 <= height,
            ;
            assert(width * (height - 1) <= width * height) by (nonlinear_arith)
                requires
                    1 <= width,
                    1 <= height,
            ;
            assert((width - 1) * height <= width * height) by (nonlinear_arith)
                requires
                    1 <= width,
                    1 <= height,
            ;
        }
        let g = Game {
            width,
            height,
            blue_position: Coordinate::new(0, 0),
            green_position: Coordinate::new(width - 1, height - 1),
            horizontal_walls: Board::new(width, height - 1, Cell::Empty),
            vertical_walls: Board::new(width - 1, height, Cell::Empty),
            blue_turn: true,
            history: Vec::new(),
            current_move_index: 0,
            blue_reachable_cache: Board::new(width, height, false),
            green_reachable_cache: Board::new(width, height, false),
            blue_steps_cache: Board::new(width, height, -1),
            green_steps_cache: Board::new(width, height, -1),
        };
        assert(g.horizontal_walls@ =~= initial_position(width as int, height as int).hw);
        assert(g.vertical_walls@ =~= initial_position(width as int, height as int).vw);
        g
    }

    /// Whether the live position is the last one of the history.
    pub fn is_showing_latest(&self) -> (r: bool)
        ensures
            r == (self.current_move_index == self.history@.len()),
    {
        self.current_move_index == self.history.len()
    }
}

/// `b` holds exactly the cells that a path of at most `step` passable steps
/// joins to `start`.
pub open spec fn reach_exact(
    b: &Board<bool>,
    t: Terrain,
    start: Coordinate,
    other: Coordinate,
    ignore: bool,
    step: nat,
) -> bool {
    &&& b.at(start.x as int, start.y as int)
    &&& forall|x: int, y: int|
        #![trigger b.at(x, y)]
        in_grid(x, y, t.w, t.h) ==> (b.at(x, y) <==> t.reach_within(
            start,
            other,
            ignore,
            step,
            at_xy(x, y),
        ))
}

/// For a move whose destination is on the board, its wall slot is on the
/// wall board exactly when the neighbour in the wall's direction is on the
/// board, and the slot is empty exactly when that edge is open.
pub proof fn lemma_slot_is_edge(g: Game, mv: Move)
    requires
        g.wf(),
        mv.destination.spec_inside(g.width as int, g.height as int),
    ensures
        move_fits(g.width as int, g.height as int, mv) == mv.destination.spec_move_to(
            mv.place_wall,
        ).spec_inside(g.width as int, g.height as int),
        move_fits(g.width as int, g.height as int, mv) ==> (slot_cell(
            g.position(),
            g.width as int,
            mv,
        ) == Cell::Empty) == g.terrain().edge_open(mv.destination, mv.place_wall),
{
}

/// `m1` comes before `m2` in row-major order of destinations, then in the
/// order up, down, left, right of walls.
pub open spec fn scanned_before(m1: Move, m2: Move) -> bool {
    ||| m1.destination.y < m2.destination.y
    ||| (m1.destination.y == m2.destination.y && m1.destination.x < m2.destination.x)
    ||| (m1.destination == m2.destination && crate::geometry::direction_rank(m1.place_wall)
        < crate::geometry::direction_rank(m2.place_wall))
}

impl Game {
    /// The pawn of the player to move.
    pub open spec fn active(&self) -> Coordinate {
        if self.blue_turn {
            self.blue_position
        } else {
            self.green_position
        }
    }

    /// The pawn of the player not to move.
    pub open spec fn passive(&self) -> Coordinate {
        if self.blue_turn {
            self.green_position
        } else {
            self.blue_position
        }
    }

    /// A move the generator may offer: the destination is within three
    /// passable steps of the active pawn, not entering the other pawn, and
    /// the wall slot is on its board and empty.
    pub open spec fn candidate(&self, mv: Move) -> bool {
        &&& move_fits(self.width as int, self.height as int, mv)
        &&& slot_cell(self.position(), self.width as int, mv) == Cell::Empty
        &&& self.terrain().reach_within(self.active(), self.passive(), false, 3, mv.destination)
    }

    /// Breadth-first search of at most `step` steps from `start` into the
    /// scratch board of the pawn standing on `start` (green's when `start`
    /// is not blue's square).
    fn reachable_with_cache(&mut self, start: Coordinate, step: i32, ignore_other_player: bool)
        requires
            old(self).wf(),
            start.spec_inside(old(self).width as int, old(self).height as int),
            0 <= step,
        ensures
            final(self).same_state(*old(self)),
            start == old(self).blue_position ==> reach_exact(
                &final(self).blue_reachable_cache,
                old(self).terrain(),
                start,
                old(self).green_position,
                ignore_other_player,
                step as nat,
            ) && final(self).green_reachable_cache == old(self).green_reachable_cache,
            start != old(self).blue_position ==> reach_exact(
                &final(self).green_reachable_cache,
                old(self).terrain(),
                start,
                old(self).blue_position,
                ignore_other_player,
                step as nat,
            ) && final(self).blue_reachable_cache == old(self).blue_reachable_cache,
            final(self).blue_steps_cache == old(self).blue_steps_cache,
            final(self).green_steps_cache == old(self).green_steps_cache,
    {
        if start == self.blue_position {
            crate::reach::reachable_from(
                self.width,
                self.height,
                &self.horizontal_walls,
                &self.vertical_walls,
                start,
                self.green_position,
                step,
                ignore_other_player,
                &mut self.blue_reachable_cache,
            );
        } else {
            crate::reach::reachable_from(
                self.width,
                self.height,
                &self.horizontal_walls,
                &self.vertical_walls,
                start,
                self.blue_position,
                step,
                ignore_other_player,
                &mut self.green_reachable_cache,
            );
        }
    }

    /// The moves available to the player to move: every cell within three
    /// steps of their pawn, each with every open wall slot beside it, in
    /// row-major order of the cells.
    pub fn possible_moves(&mut self) -> (r: Vec<Move>)
        requires
            old(self).wf(),
        ensures
            final(self).same_state(*old(self)),
            forall|i: int| 0 <= i < r@.len() ==> old(self).candidate(#[trigger] r@[i]),
            forall|m: Move| r@.contains(m) <==> old(self).candidate(m),
            r@.no_duplicates(),
            forall|a: int, b: int| 0 <= a < b < r@.len() ==> scanned_before(r@[a], r@[b]),
    {
        let ghost g0 = *self;
        let mut moves: Vec<Move> = Vec::new();
        let start = if self.blue_turn {
            self.blue_position
        } else {
            self.green_position
        };
        let use_blue = start == self.blue_position;
        self.reachable_with_cache(start, 3, false);
        let w = self.width;
        let h = self.height;
        let mut y: i32 = 0;
        while y < h
            invariant
                self.same_state(g0),
                g0.wf(),
                use_blue == (start == g0.blue_position),
                reach_exact(
                    if use_blue {
                        &self.blue_reachable_cache
                    } else {
                        &self.green_reachable_cache
                    },
                    g0.terrain(),
                    start,
                    g0.passive(),
                    false,
                    3,
                ),
                w == self.width,
                h == self.height,
                start == g0.active(),
                0 <= y <= h,
                forall|i: int| 0 <= i < moves@.len() ==> g0.candidate(#[trigger] moves@[i]),
                forall|m: Move|
                    #![trigger g0.candidate(m)]
                    m.destination.y < y && g0.candidate(m) ==> moves@.contains(m),
                moves@.no_duplicates(),
                forall|a: int, b: int| 0 <= a < b < moves@.len() ==> scanned_before(moves@[a], moves@[b]),
                forall|k: int| 0 <= k < moves@.len() ==> (#[trigger] moves@[k]).destination.y < y,
            decreases h - y,
        {
            let mut x: i32 = 0;
            while x < w
                invariant
                    self.same_state(g0),
                    g0.wf(),
                    use_blue == (start == g0.blue_position),
                    reach_exact(
                        if use_blue {
                            &self.blue_reachable_cache
                        } else {
                            &self.green_reachable_cache
                        },
                        g0.terrain(),
                        start,
                        g0.passive(),
                        false,
                        3,
                    ),
                    w == self.width,
                    h == self.height,
                    start == g0.active(),
                    0 <= y < h,
                    0 <= x <= w,
                    forall|i: int| 0 <= i < moves@.len() ==> g0.candidate(#[trigger] moves@[i]),
                    forall|m: Move|
                        #![trigger g0.candidate(m)]
                        (m.destination.y < y || (m.destination.y == y && m.destination.x < x))
                            && g0.candidate(m) ==> moves@.contains(m),
                    moves@.no_duplicates(),
                forall|a: int, b: int| 0 <= a < b < moves@.len() ==> scanned_before(moves@[a], moves@[b]),
                    forall|k: int|
                        0 <= k < moves@.len() ==> (#[trigger] moves@[k]).destination.y < y || (
                        moves@[k].destination.y == y && moves@[k].destination.x < x),
                decreases w - x,
            {
                let current = Coordinate::new(x, y);
                let marked = if use_blue {
                    *self.blue_reachable_cache.get(current)
                } else {
                    *self.green_reachable_cache.get(current)
                };
                proof {
                    assert(at_xy(x as int, y as int) == current);
                }
                if marked {
                    let mut i: usize = 0;
                    while i < 4
                        invariant
                            self.same_state(g0),
                            g0.wf(),
                            w == self.width,
                            h == self.height,
                            start == g0.active(),
                            0 <= y < h,
                            0 <= x < w,
                            current == (Coordinate { x, y }),
                            i <= 4,
                            g0.terrain().reach_within(g0.active(), g0.passive(), false, 3, current),
                            forall|i: int| 0 <= i < moves@.len() ==> g0.candidate(#[trigger] moves@[i]),
                            forall|m: Move|
                                #![trigger g0.candidate(m)]
                                (m.destination.y < y || (m.destination.y == y && m.destination.x
                                    < x)) && g0.candidate(m) ==> moves@.contains(m),
                            forall|j: int|
                                0 <= j < i && g0.candidate(
                                    Move { destination: current, place_wall: #[trigger] crate::geometry::direction_at(j) },
                                ) ==> moves@.contains(
                                    Move { destination: current, place_wall: crate::geometry::direction_at(j) },
                                ),
                            moves@.no_duplicates(),
                forall|a: int, b: int| 0 <= a < b < moves@.len() ==> scanned_before(moves@[a], moves@[b]),
                            forall|k: int|
                                0 <= k < moves@.len() ==> (#[trigger] moves@[k]).destination.y < y || (
                                moves@[k].destination.y == y && moves@[k].destination.x < x) || (
                                moves@[k].destination == current && crate::geometry::direction_rank(
                                    moves@[k].place_wall,
                                ) < i),
                        decreases 4 - i,
                    {
                        let direction = crate::geometry::direction_from_index(i);
                        let next = current.move_to(direction);
                        let mv = Move { destination: current, place_wall: direction };
                        proof {
                            lemma_slot_is_edge(g0, mv);
                        }
                        let ghost before = moves@;
                        if next.inside(w, h) && crate::reach::edge_is_open(
                            w,
                            h,
                            &self.horizontal_walls,
                            &self.vertical_walls,
                            current,
                            direction,
                        ) {
                            proof {
                                assert(crate::geometry::direction_rank(direction) == i);
                                assert forall|k: int| 0 <= k < before.len() implies before[k] != mv by {}
                            }
                            moves.push(mv);
                            proof {
                                assert(moves@[before.len() as int] == mv);
                                assert forall|a: int, b: int| 0 <= a < b < moves@.len() implies moves@[a] != moves@[b] by {
                                    if b < before.len() {
                                        assert(before[a] != before[b]);
                                    }
                                }
                                assert forall|a: int, b: int| 0 <= a < b < moves@.len() implies scanned_before(moves@[a], moves@[b]) by {
                                    if b < before.len() {
                                        assert(scanned_before(before[a], before[b]));
                                    }
                                }
                            }
                        }
                        proof {
                            assert forall|m: Move| #[trigger] before.contains(m) implies moves@.contains(m) by {
                                let k = choose|k: int| 0 <= k < before.len() && before[k] == m;
                                assert(moves@[k] == m);
                            }
                        }
                        i = i + 1;
                    }
                    proof {
                        assert forall|m: Move|
                            #![trigger g0.candidate(m)]
                            (m.destination.y < y || (m.destination.y == y && m.destination.x < x + 1))
                                && g0.candidate(m) implies moves@.contains(m) by {
                            if m.destination == current {
                                let j: int = match m.place_wall {
                                    Direction::Up => 0,
                                    Direction::Down => 1,
                                    Direction::Left => 2,
                                    Direction::Right => 3,
                                };
                                assert(crate::geometry::direction_at(j) == m.place_wall);
                            }
                        }
                    }
                } else {
                    proof {
                        assert forall|m: Move|
                            #![trigger g0.candidate(m)]
                            (m.destination.y < y || (m.destination.y == y && m.destination.x < x + 1))
                                && g0.candidate(m) implies moves@.contains(m) by {
                            if m.destination == current {
                                assert(false);
                            }
                        }
                    }
                }
                x = x + 1;
            }
            y = y + 1;
        }
        proof {
            assert forall|m: Move| moves@.contains(m) implies g0.candidate(m) by {
                let k = choose|k: int| 0 <= k < moves@.len() && moves@[k] == m;
            }
        }
        moves
    }
}

/// Whether `mv` occurs in `moves`.
fn moves_contain(moves: &Vec<Move>, mv: Move) -> (r: bool)
    ensures
        r == moves@.contains(mv),
{
    let mut i: usize = 0;
    while i < moves.len()
        invariant
            i <= moves@.len(),
            forall|j: int| 0 <= j < i ==> moves@[j] != mv,
        decreases moves@.len() - i,
    {
        if moves[i] == mv {
            return true;
        }
        i = i + 1;
    }
    false
}

/// Replaying depends only on the moves replayed.
pub proof fn lemma_replay_prefix(w: int, h: int, a: Seq<Move>, b: Seq<Move>, n: nat)
    requires
        n <= a.len(),
        n <= b.len(),
        forall|i: int| 0 <= i < n ==> a[i] == b[i],
    ensures
        replay(w, h, a, n) == replay(w, h, b, n),
    decreases n,
{
    if n > 0 {
        lemma_replay_prefix(w, h, a, b, (n - 1) as nat);
    }
}

/// After `n` moves it is blue's turn exactly when `n` is even; the player to
/// move stands where their last move put them (or on their corner), and so
/// does the other.
pub proof fn lemma_replay_squares(w: int, h: int, hist: Seq<Move>, n: nat)
    requires
        n <= hist.len(),
    ensures
        replay(w, h, hist, n).blue_turn == (n % 2 == 0),
        ({
            let p = replay(w, h, hist, n);
            let mover = if p.blue_turn {
                p.blue
            } else {
                p.green
            };
            let waiter = if p.blue_turn {
                p.green
            } else {
                p.blue
            };
            &&& mover == previous_square(w, h, hist.subrange(0, n as int).push(hist[0]))
            &&& n >= 1 ==> waiter == hist[n - 1].destination
            &&& n == 0 ==> waiter == (Coordinate { x: (w - 1) as i32, y: (h - 1) as i32 })
        }),
    decreases n,
{
    let pre = hist.subrange(0, n as int).push(hist[0]);
    assert(pre.drop_last() =~= hist.subrange(0, n as int));
    if n > 0 {
        lemma_replay_squares(w, h, hist, (n - 1) as nat);
        let pre1 = hist.subrange(0, n - 1).push(hist[0]);
        assert(pre1.drop_last() =~= hist.subrange(0, n - 1));
    }
}

/// Taking back a move just made restores the position, provided the
/// position is the replay of the history and the move's wall slot was
/// empty, as it is for every generated move.
pub proof fn make_then_undo_restores(g: Game, mv: Move)
    requires
        g.wf(),
        g.at_latest(),
        move_fits(g.width as int, g.height as int, mv),
        slot_cell(g.position(), g.width as int, mv) == Cell::Empty,
    ensures
        undo_position(
            apply_move(g.position(), g.width as int, mv),
            g.width as int,
            g.height as int,
            g.history@.push(mv),
        ) == g.position(),
        g.history@.push(mv).drop_last() == g.history@,
{
    let w = g.width as int;
    let h = g.height as int;
    let hist = g.history@;
    let n = hist.len();
    let p = g.position();
    let hp = hist.push(mv);
    assert(hp.drop_last() =~= hist);
    lemma_replay_squares(w, h, hist, n as nat);
    assert(hist.subrange(0, n as int).push(hist[0]).drop_last() =~= hist);
    assert(previous_square(w, h, hp) == previous_square(
        w,
        h,
        hist.subrange(0, n as int).push(hist[0]),
    ));
    let s = wall_slot(mv);
    if wall_is_horizontal(mv) {
        lemma_flat_index(w, h - 1, s.x as int, s.y as int);
        let i = flat_index(w, s.x as int, s.y as int);
        assert(p.hw.update(i, owner_of(p.blue_turn)).update(i, Cell::Empty) =~= p.hw);
    } else {
        lemma_flat_index(w - 1, h, s.x as int, s.y as int);
        let i = flat_index(w - 1, s.x as int, s.y as int);
        assert(p.vw.update(i, owner_of(p.blue_turn)).update(i, Cell::Empty) =~= p.vw);
    }
}

/// Moving the cursor to `n`, then to `m`, then back to `n` gives the same
/// position, history and cursor as the first move to `n`.
pub proof fn cursor_round_trip(g0: Game, g1: Game, g2: Game, g3: Game, n: nat, m: nat)
    requires
        Game::cursor_moved(g0, g1, n),
        Game::cursor_moved(g1, g2, m),
        Game::cursor_moved(g2, g3, n),
    ensures
        g3.position() == g1.position(),
        g3.history@ == g1.history@,
        g3.current_move_index == g1.current_move_index,
{
}

impl Game {
    /// Moves the active pawn, places its wall and passes the turn.
    fn play(&mut self, mv: Move)
        requires
            old(self).wf(),
            move_fits(old(self).width as int, old(self).height as int, mv),
        ensures
            final(self).wf(),
            final(self).width == old(self).width,
            final(self).height == old(self).height,
            final(self).position() == apply_move(old(self).position(), old(self).width as int, mv),
            final(self).history == old(self).history,
            final(self).current_move_index == old(self).current_move_index,
    {
        let cell = if self.blue_turn {
            Cell::Blue
        } else {
            Cell::Green
        };
        self.place_wall(mv, cell);
        if self.blue_turn {
            self.blue_position = mv.destination;
        } else {
            self.green_position = mv.destination;
        }
        self.blue_turn = !self.blue_turn;
    }

    /// Writes `cell` into the wall slot of `mv`.
    fn place_wall(&mut self, mv: Move, cell: Cell)
        requires
            old(self).wf(),
            move_fits(old(self).width as int, old(self).height as int, mv),
        ensures
            final(self).wf(),
            final(self).width == old(self).width,
            final(self).height == old(self).height,
            final(self).position() == with_slot(old(self).position(), old(self).width as int, mv, cell),
            final(self).history == old(self).history,
            final(self).current_move_index == old(self).current_move_index,
    {
        match mv.place_wall {
            Direction::Up => self.horizontal_walls.set(mv.destination.move_to(Direction::Up), cell),
            Direction::Down => self.horizontal_walls.set(mv.destination, cell),
            Direction::Left => self.vertical_walls.set(
                mv.destination.move_to(Direction::Left),
                cell,
            ),
            Direction::Right => self.vertical_walls.set(mv.destination, cell),
        }
    }

    /// Plays `mv` for the player to move. When `add_to_history` is set the
    /// move is appended to the history, and it is played only if the
    /// position shown is the latest; the cursor then follows. When `safe` is
    /// set the move must be one of `possible_moves` in the position shown,
    /// else nothing changes and the result is `false`.
    pub fn make_move(&mut self, mv: Move, safe: bool, add_to_history: bool) -> (r: bool)
        requires
            old(self).wf(),
            safe || move_fits(old(self).width as int, old(self).height as int, mv),
        ensures
            final(self).wf(),
            final(self).width == old(self).width,
            final(self).height == old(self).height,
            !safe ==> r,
            safe ==> (r <==> old(self).candidate(mv)),
            !r ==> final(self).position() == old(self).position() && final(self).history@
                == old(self).history@ && final(self).current_move_index
                == old(self).current_move_index,
            r && (!add_to_history || old(self).current_move_index == old(self).history@.len())
                ==> final(self).position() == apply_move(
                old(self).position(),
                old(self).width as int,
                mv,
            ),
            add_to_history && old(self).current_move_index < old(self).history@.len() ==> final(self).position() == old(self).position(),
            r && add_to_history ==> final(self).history@ == old(self).history@.push(mv),
            r && add_to_history ==> final(self).current_move_index == if old(self).current_move_index == old(self).history@.len() {
                old(self).current_move_index + 1
            } else {
                old(self).current_move_index as int
            },
            !add_to_history ==> final(self).history@ == old(self).history@
                && final(self).current_move_index == old(self).current_move_index,
            r && add_to_history && old(self).at_latest() ==> final(self).at_latest(),
    {
        if safe {
            let moves = self.possible_moves();
            if !moves_contain(&moves, mv) {
                return false;
            }
        }
        let latest = self.current_move_index == self.history.len();
        if latest || !add_to_history {
            if safe {
                let moves = self.possible_moves();
                if !moves_contain(&moves, mv) {
                    return false;
                }
            }
            self.play(mv);
        }
        if add_to_history {
            let ghost before = self.history@;
            self.history.push(mv);
            if latest {
                self.current_move_index = self.history.len();
            }
            proof {
                assert forall|i: int| 0 <= i < self.history@.len() implies move_fits(
                    self.width as int,
                    self.height as int,
                    #[trigger] self.history@[i],
                ) by {
                    if i < before.len() {
                        assert(self.history@[i] == before[i]);
                    }
                }
                if latest {
                    lemma_replay_prefix(
                        self.width as int,
                        self.height as int,
                        before,
                        self.history@,
                        before.len() as nat,
                    );
                }
            }
        }
        true
    }

    /// Takes back the last move of the history: its wall is removed, the
    /// pawn that made it goes back to where it stood, and the turn passes
    /// back. The cursor stays where it was unless that is past the end.
    pub fn undo_move(&mut self)
        requires
            old(self).wf(),
            old(self).history@.len() > 0,
        ensures
            final(self).wf(),
            final(self).width == old(self).width,
            final(self).height == old(self).height,
            final(self).history@ == old(self).history@.drop_last(),
            final(self).position() == undo_position(
                old(self).position(),
                old(self).width as int,
                old(self).height as int,
                old(self).history@,
            ),
            final(self).current_move_index == if old(self).current_move_index
                <= final(self).history@.len() {
                old(self).current_move_index as int
            } else {
                final(self).history@.len() as int
            },
    {
        let ghost hist = self.history@;
        let last_move = match self.history.pop() {
            Some(m) => m,
            None => {
                return;
            },
        };
        proof {
            assert(self.history@ =~= hist.drop_last());
            assert(last_move == hist[hist.len() - 1]);
        }
        let n = self.history.len();
        let last_position = if n == 0 {
            Coordinate { x: 0, y: 0 }
        } else if n == 1 {
            Coordinate { x: self.width - 1, y: self.height - 1 }
        } else {
            self.history[n - 2].destination
        };
        proof {
            if n >= 2 {
                assert(move_fits(self.width as int, self.height as int, hist[n - 2]));
            }
            assert(move_fits(self.width as int, self.height as int, hist[hist.len() - 1]));
        }
        if self.current_move_index > n {
            self.current_move_index = n;
        }
        self.place_wall(last_move, Cell::Empty);
        if self.blue_turn {
            self.green_position = last_position;
        } else {
            self.blue_position = last_position;
        }
        self.blue_turn = !self.blue_turn;
    }

    /// Puts pawns, walls and turn back to the start; the history is kept.
    fn reset_board(&mut self)
        requires
            old(self).wf(),
        ensures
            final(self).wf(),
            final(self).width == old(self).width,
            final(self).height == old(self).height,
            final(self).position() == initial_position(old(self).width as int, old(self).height as int),
            final(self).history == old(self).history,
            final(self).current_move_index == 0,
    {
        self.blue_position = Coordinate::new(0, 0);
        self.green_position = Coordinate::new(self.width - 1, self.height - 1);
        self.horizontal_walls.clear();
        self.vertical_walls.clear();
        self.current_move_index = 0;
        self.blue_turn = true;
        self.blue_reachable_cache.clear();
        self.green_reachable_cache.clear();
        self.blue_steps_cache.clear();
        self.green_steps_cache.clear();
        assert(self.horizontal_walls@ =~= initial_position(self.width as int, self.height as int).hw);
        assert(self.vertical_walls@ =~= initial_position(self.width as int, self.height as int).vw);
    }

    /// Shows the position after the first `index` moves of the history,
    /// which is left as it is.
    pub fn set_current_move_index(&mut self, index: usize)
        requires
            old(self).wf(),
            index <= old(self).history@.len(),
        ensures
            Game::cursor_moved(*old(self), *final(self), index as nat),
    {
        self.reset_board();
        let mut i: usize = 0;
        while i < index
            invariant
                self.wf(),
                self.width == old(self).width,
                self.height == old(self).height,
                self.history@ == old(self).history@,
                index <= self.history@.len(),
                i <= index,
                self.position() == replay(self.width as int, self.height as int, self.history@, i as nat),
            decreases index - i,
        {
            let mv = self.history[i];
            self.make_move(mv, false, false);
            i = i + 1;
        }
        self.current_move_index = index;
    }
}

/// `b` holds, for every cell, the length of a shortest path of passable
/// steps from `start` (never entering `other`), or -1 where there is none.
pub open spec fn dist_exact(b: &Board<i32>, t: Terrain, start: Coordinate, other: Coordinate) -> bool {
    &&& b.at(start.x as int, start.y as int) == 0
    &&& forall|x: int, y: int|
        #![trigger b.at(x, y)]
        in_grid(x, y, t.w, t.h) ==> {
            &&& -1 <= b.at(x, y)
            &&& 0 <= b.at(x, y) ==> t.reach_within(start, other, false, b.at(x, y) as nat, at_xy(x, y))
            &&& forall|j: nat|
                #[trigger] t.reach_within(start, other, false, j, at_xy(x, y)) ==> 0 <= b.at(x, y) <= j
        }
}

/// Two exact reach boards of the same search on the same board agree.
pub proof fn lemma_reach_exact_unique(
    b1: Board<bool>,
    b2: Board<bool>,
    t: Terrain,
    start: Coordinate,
    other: Coordinate,
    ignore: bool,
    step: nat,
)
    requires
        grid_ok(t.w, t.h),
        scratch_fits(t.w as i32, t.h as i32, &b1),
        scratch_fits(t.w as i32, t.h as i32, &b2),
        reach_exact(&b1, t, start, other, ignore, step),
        reach_exact(&b2, t, start, other, ignore, step),
    ensures
        b1@ == b2@,
{
    let w = t.w;
    let h = t.h;
    assert forall|i: int| 0 <= i < b1@.len() implies b1@[i] == b2@[i] by {
        vstd::arithmetic::div_mod::lemma_fundamental_div_mod(i, w);
        vstd::arithmetic::div_mod::lemma_mod_pos_bound(i, w);
        let x = i % w;
        let y = i / w;
        assert(0 <= y < h) by (nonlinear_arith)
            requires
                i == w * y + x,
                0 <= x < w,
                0 <= i < w * h,
                1 <= w,
        ;
        assert(flat_index(w, x, y) == i) by (nonlinear_arith)
            requires
                i == w * y + x,
        ;
        assert(b1.at(x, y) == b2.at(x, y));
    }
    assert(b1@ =~= b2@);
}

/// A search that may not enter `other`, started elsewhere, never ends on it.
pub proof fn lemma_reach_avoids_other(t: Terrain, start: Coordinate, other: Coordinate, k: nat, c: Coordinate)
    requires
        start != other,
        t.reach_within(start, other, false, k, c),
    ensures
        c != other,
    decreases k,
{
    if k > 0 {
        let i = (k - 1) as nat;
        assert(t.reach_within(start, other, false, i, c) || t.arrives(start, other, false, i, c, Direction::Up) || t.arrives(start, other, false, i, c, Direction::Down) || t.arrives(start, other, false, i, c, Direction::Left) || t.arrives(start, other, false, i, c, Direction::Right));
        if t.reach_within(start, other, false, i, c) {
            lemma_reach_avoids_other(t, start, other, i, c);
        }
    }
}

/// The static score of position `p` on a `w` by `h` board, pawns apart:
/// the area verdict when the board is partitioned, else the territory
/// difference of the shortest-distance maps.
pub open spec fn static_score(w: i32, h: i32, p: Position) -> int {
    (choose|g: Game| shows_scored(g, w, h, p)).cached_score()
}

/// `g` shows position `p` on a `w` by `h` board with exact scratch boards.
pub open spec fn shows_scored(g: Game, w: i32, h: i32, p: Position) -> bool {
    g.wf() && g.width == w && g.height == h && g.position() == p && g.scored_exactly()
}

/// The score read off exact scratch boards is the static score of the
/// position.
pub proof fn lemma_static_score(g: Game)
    requires
        g.wf(),
        g.scored_exactly(),
    ensures
        g.cached_score() == static_score(g.width, g.height, g.position()),
{
    let w = g.width;
    let h = g.height;
    let p = g.position();
    assert(shows_scored(g, w, h, p));
    let g2 = choose|g2: Game| shows_scored(g2, w, h, p);
    let t = g.terrain();
    assert(g2.terrain() == t);
    if g.partitioned() {
        lemma_reach_exact_unique(g.blue_reachable_cache, g2.blue_reachable_cache, t, g.blue_position, g.green_position, true, g.cell_count());
        lemma_reach_exact_unique(g.green_reachable_cache, g2.green_reachable_cache, t, g.green_position, g.blue_position, true, g.cell_count());
    } else {
        lemma_dist_exact_unique(g.blue_steps_cache, g2.blue_steps_cache, t, g.blue_position, g.green_position);
        lemma_dist_exact_unique(g.green_steps_cache, g2.green_steps_cache, t, g.green_position, g.blue_position);
    }
}

/// Two shortest-distance maps of the same search on the same board agree.
pub proof fn lemma_dist_exact_unique(
    b1: Board<i32>,
    b2: Board<i32>,
    t: Terrain,
    start: Coordinate,
    other: Coordinate,
)
    requires
        grid_ok(t.w, t.h),
        scratch_fits(t.w as i32, t.h as i32, &b1),
        scratch_fits(t.w as i32, t.h as i32, &b2),
        dist_exact(&b1, t, start, other),
        dist_exact(&b2, t, start, other),
    ensures
        b1@ == b2@,
{
    let w = t.w;
    let h = t.h;
    assert forall|i: int| 0 <= i < b1@.len() implies b1@[i] == b2@[i] by {
        vstd::arithmetic::div_mod::lemma_fundamental_div_mod(i, w);
        vstd::arithmetic::div_mod::lemma_mod_pos_bound(i, w);
        let x = i % w;
        let y = i / w;
        assert(0 <= y < h) by (nonlinear_arith)
            requires
                i == w * y + x,
                0 <= x < w,
                0 <= i < w * h,
                1 <= w,
        ;
        assert(flat_index(w, x, y) == i) by (nonlinear_arith)
            requires
                i == w * y + x,
        ;
        let v1 = b1.at(x, y);
        let v2 = b2.at(x, y);
        if 0 <= v1 {
            assert(t.reach_within(start, other, false, v1 as nat, at_xy(x, y)));
            assert(0 <= v2 <= v1);
            assert(t.reach_within(start, other, false, v2 as nat, at_xy(x, y)));
        } else if 0 <= v2 {
            assert(t.reach_within(start, other, false, v2 as nat, at_xy(x, y)));
        }
    }
    assert(b1@ =~= b2@);
}

/// A cell belongs to the side that reaches it in fewer steps; -1 marks a
/// cell not reached.
pub open spec fn closer(a: i32, b: i32) -> bool {
    a >= 0 && (b < 0 || a < b)
}

/// Cells among the first `n` that `da` reaches first, less those that `db`
/// reaches first.
pub open spec fn territory(da: Seq<i32>, db: Seq<i32>, n: nat) -> int
    decreases n,
{
    if n == 0 {
        0
    } else {
        territory(da, db, (n - 1) as nat) + if closer(da[n - 1], db[n - 1]) {
            1int
        } else if closer(db[n - 1], da[n - 1]) {
            -1int
        } else {
            0int
        }
    }
}

/// Swapping the two sides' distance maps negates the territory difference.
pub proof fn territory_antisymmetric(da: Seq<i32>, db: Seq<i32>, n: nat)
    ensures
        territory(da, db, n) == -territory(db, da, n),
    decreases n,
{
    if n > 0 {
        territory_antisymmetric(da, db, (n - 1) as nat);
    }
}

pub proof fn lemma_territory_bound(da: Seq<i32>, db: Seq<i32>, n: nat)
    ensures
        -n <= territory(da, db, n) <= n,
    decreases n,
{
    if n > 0 {
        lemma_territory_bound(da, db, (n - 1) as nat);
    }
}

/// Exchanging the two pawns negates the territory difference: for two
/// games on the same walls whose pawns stand on each other's squares, the
/// distance maps each holds give opposite differences.
pub proof fn territory_swap(g1: Game, g2: Game)
    requires
        g1.wf(),
        g2.wf(),
        g1.width == g2.width,
        g1.height == g2.height,
        g1.horizontal_walls@ == g2.horizontal_walls@,
        g1.vertical_walls@ == g2.vertical_walls@,
        g2.blue_position == g1.green_position,
        g2.green_position == g1.blue_position,
        g1.steps_exact(),
        g2.steps_exact(),
    ensures
        territory(g2.blue_steps_cache@, g2.green_steps_cache@, g2.cell_count()) == -territory(
            g1.blue_steps_cache@,
            g1.green_steps_cache@,
            g1.cell_count(),
        ),
{
    let t = g1.terrain();
    assert(g2.terrain() == t);
    lemma_dist_exact_unique(g2.blue_steps_cache, g1.green_steps_cache, t, g1.green_position, g1.blue_position);
    lemma_dist_exact_unique(g2.green_steps_cache, g1.blue_steps_cache, t, g1.blue_position, g1.green_position);
    territory_antisymmetric(g1.blue_steps_cache@, g1.green_steps_cache@, g1.cell_count());
}

/// The score of a finished game: 100 when blue's area is larger, -100 when
/// green's is, 0 when they are equal.
pub open spec fn area_verdict(blue: int, green: int) -> int {
    if blue > green {
        100
    } else if green > blue {
        -100
    } else {
        0
    }
}

/// Scores the engine produces: territory differences and the verdicts of
/// finished games on boards of at most a million cells.
pub open spec fn score_in_range(v: int) -> bool {
    -1000000 <= v <= 1000000
}

impl Game {
    /// No path of passable steps, pawns ignored, joins the two pawns.
    pub open spec fn walled_off(&self) -> bool {
        forall|k: nat|
            !#[trigger] self.terrain().reach_within(
                self.blue_position,
                self.green_position,
                true,
                k,
                self.green_position,
            )
    }

    /// No path of at most as many steps as there are cells, pawns ignored,
    /// joins the two pawns.
    pub open spec fn partitioned(&self) -> bool {
        !self.terrain().reach_within(
            self.blue_position,
            self.green_position,
            true,
            self.cell_count(),
            self.green_position,
        )
    }

    /// The static score as read off the scratch boards.
    pub open spec fn cached_score(&self) -> int {
        if self.partitioned() {
            area_verdict(
                count_true(self.blue_reachable_cache@) as int,
                count_true(self.green_reachable_cache@) as int,
            )
        } else {
            territory(self.blue_steps_cache@, self.green_steps_cache@, self.cell_count())
        }
    }

    /// The pawns stand apart and the scratch boards the static score reads
    /// are exact.
    pub open spec fn scored_exactly(&self) -> bool {
        &&& self.blue_position != self.green_position
        &&& self.partitioned() ==> self.areas_exact()
        &&& !self.partitioned() ==> self.steps_exact()
    }

    /// The static score after the player to move plays `mv`.
    pub open spec fn score_after(&self, mv: Move) -> int {
        static_score(self.width, self.height, apply_move(self.position(), self.width as int, mv))
    }

    /// The reach boards hold the cells each pawn reaches, pawns not
    /// blocking (green's board only when the pawns stand apart).
    pub open spec fn areas_exact(&self) -> bool {
        &&& reach_exact(
            &self.blue_reachable_cache,
            self.terrain(),
            self.blue_position,
            self.green_position,
            true,
            self.cell_count(),
        )
        &&& self.blue_position != self.green_position ==> reach_exact(
            &self.green_reachable_cache,
            self.terrain(),
            self.green_position,
            self.blue_position,
            true,
            self.cell_count(),
        )
    }

    /// Both distance maps hold shortest distances from the current pawns.
    pub open spec fn steps_exact(&self) -> bool {
        &&& dist_exact(&self.blue_steps_cache, self.terrain(), self.blue_position, self.green_position)
        &&& dist_exact(&self.green_steps_cache, self.terrain(), self.green_position, self.blue_position)
    }

    pub open spec fn cell_count(&self) -> nat {
        (self.width * self.height) as nat
    }

    /// Distance map from `start` into the scratch board of the pawn on
    /// `start` (green's when `start` is not blue's square).
    fn steps_with_cache(&mut self, start: Coordinate)
        requires
            old(self).wf(),
            start.spec_inside(old(self).width as int, old(self).height as int),
        ensures
            final(self).same_state(*old(self)),
            final(self).blue_reachable_cache == old(self).blue_reachable_cache,
            final(self).green_reachable_cache == old(self).green_reachable_cache,
            start == old(self).blue_position ==> dist_exact(
                &final(self).blue_steps_cache,
                old(self).terrain(),
                start,
                old(self).green_position,
            ) && final(self).green_steps_cache == old(self).green_steps_cache,
            start != old(self).blue_position ==> dist_exact(
                &final(self).green_steps_cache,
                old(self).terrain(),
                start,
                old(self).blue_position,
            ) && final(self).blue_steps_cache == old(self).blue_steps_cache,
    {
        if start == self.blue_position {
            crate::reach::distances_from(
                self.width,
                self.height,
                &self.horizontal_walls,
                &self.vertical_walls,
                start,
                self.green_position,
                &mut self.blue_steps_cache,
            );
        } else {
            crate::reach::distances_from(
                self.width,
                self.height,
                &self.horizontal_walls,
                &self.vertical_walls,
                start,
                self.blue_position,
                &mut self.green_steps_cache,
            );
        }
    }

    /// Cells blue reaches in fewer steps than green, less those green
    /// reaches in fewer steps than blue; each pawn blocks the other.
    pub fn territory_difference(&mut self) -> (r: i32)
        requires
            old(self).wf(),
        ensures
            final(self).same_state(*old(self)),
            r == territory(
                final(self).blue_steps_cache@,
                final(self).green_steps_cache@,
                old(self).cell_count(),
            ),
            -old(self).cell_count() <= r <= old(self).cell_count(),
            old(self).blue_position != old(self).green_position ==> final(self).steps_exact(),
            old(self).blue_position != old(self).green_position && !old(self).partitioned() ==> r
                == static_score(old(self).width, old(self).height, old(self).position()),
    {
        let ghost g0 = *self;
        self.steps_with_cache(self.blue_position);
        self.steps_with_cache(self.green_position);
        proof {
            assert(self.width * self.height <= 1000000) by (nonlinear_arith)
                requires
                    self.width * self.height <= 1000000,
                    1 <= self.width,
                    1 <= self.height,
            ;
        }
        let n = self.blue_steps_cache.cells.len();
        let mut blue_territory: i32 = 0;
        let mut green_territory: i32 = 0;
        let mut i: usize = 0;
        while i < n
            invariant
                self.wf(),
                n == self.cell_count(),
                n <= 1000000,
                i <= n,
                0 <= blue_territory <= i,
                0 <= green_territory <= i,
                blue_territory - green_territory == territory(
                    self.blue_steps_cache@,
                    self.green_steps_cache@,
                    i as nat,
                ),
            decreases n - i,
        {
            let bd = self.blue_steps_cache.cells[i];
            let gd = self.green_steps_cache.cells[i];
            if bd >= 0 && (gd < 0 || bd < gd) {
                blue_territory = blue_territory + 1;
            } else if gd >= 0 && (bd < 0 || gd < bd) {
                green_territory = green_territory + 1;
            }
            i = i + 1;
        }
        proof {
            lemma_territory_bound(self.blue_steps_cache@, self.green_steps_cache@, n as nat);
        }
        proof {
            if self.blue_position != self.green_position && !self.partitioned() {
                lemma_static_score(*self);
            }
        }
        blue_territory - green_territory
    }

    /// Whether the board is partitioned: green's pawn is not reachable from
    /// blue's, pawns not blocking.
    pub fn game_over(&mut self) -> (r: bool)
        requires
            old(self).wf(),
        ensures
            final(self).same_state(*old(self)),
            r == old(self).partitioned(),
            old(self).walled_off() ==> r,
            reach_exact(
                &final(self).blue_reachable_cache,
                old(self).terrain(),
                old(self).blue_position,
                old(self).green_position,
                true,
                (old(self).width * old(self).height) as nat,
            ),
    {
        proof {
            assert(0 <= self.width * self.height <= 1000000) by (nonlinear_arith)
                requires
                    self.width * self.height <= 1000000,
                    1 <= self.width,
                    1 <= self.height,
            ;
        }
        self.reachable_with_cache(self.blue_position, self.width * self.height, true);
        !*self.blue_reachable_cache.get(self.green_position)
    }

    /// The area each pawn reaches, pawns not blocking: blue's, then green's.
    pub(crate) fn reachable_areas(&mut self) -> (r: (i32, i32))
        requires
            old(self).wf(),
        ensures
            final(self).same_state(*old(self)),
            r.0 == count_true(final(self).blue_reachable_cache@),
            r.1 == count_true(final(self).green_reachable_cache@),
            0 <= r.0 <= old(self).cell_count(),
            0 <= r.1 <= old(self).cell_count(),
            final(self).areas_exact(),
            final(self).blue_steps_cache == old(self).blue_steps_cache,
            final(self).green_steps_cache == old(self).green_steps_cache,
    {
        proof {
            assert(0 <= self.width * self.height <= 1000000) by (nonlinear_arith)
                requires
                    self.width * self.height <= 1000000,
                    1 <= self.width,
                    1 <= self.height,
            ;
        }
        self.reachable_with_cache(self.blue_position, self.width * self.height, true);
        self.reachable_with_cache(self.green_position, self.width * self.height, true);
        proof {
            lemma_count_true_bound(self.blue_reachable_cache@);
            lemma_count_true_bound(self.green_reachable_cache@);
        }
        let blue_score = self.blue_reachable_cache.total() as i32;
        let green_score = self.green_reachable_cache.total() as i32;
        (blue_score, green_score)
    }

    /// The static score of the position: the area verdict when the board is
    /// partitioned, else the territory difference.
    pub fn evaluate(&mut self) -> (r: i32)
        requires
            old(self).wf(),
        ensures
            final(self).same_state(*old(self)),
            score_in_range(r as int),
            old(self).partitioned() ==> r == area_verdict(
                count_true(final(self).blue_reachable_cache@) as int,
                count_true(final(self).green_reachable_cache@) as int,
            ) && final(self).areas_exact(),
            !old(self).partitioned() ==> r == territory(
                final(self).blue_steps_cache@,
                final(self).green_steps_cache@,
                old(self).cell_count(),
            ),
            old(self).walled_off() ==> r == area_verdict(
                count_true(final(self).blue_reachable_cache@) as int,
                count_true(final(self).green_reachable_cache@) as int,
            ),
            !old(self).partitioned() && old(self).blue_position != old(self).green_position
                ==> final(self).steps_exact(),
            old(self).blue_position != old(self).green_position ==> r == static_score(
                old(self).width,
                old(self).height,
                old(self).position(),
            ),
    {
        proof {
            assert(self.width * self.height <= 1000000) by (nonlinear_arith)
                requires
                    self.width * self.height <= 1000000,
                    1 <= self.width,
                    1 <= self.height,
            ;
        }
        if self.game_over() {
            let (blue_score, green_score) = self.reachable_areas();
            proof {
                if self.blue_position != self.green_position {
                    lemma_static_score(*self);
                }
            }
            if blue_score > green_score {
                return 100;
            } else if green_score > blue_score {
                return -100;
            } else {
                return 0;
            }
        }
        let r = self.territory_difference();
        proof {
            if self.blue_position != self.green_position {
                lemma_static_score(*self);
            }
        }
        r
    }

    /// The areas that decide the game and who has the larger one.
    pub fn game_result(&mut self) -> (r: (Winner, Score))
        requires
            old(self).wf(),
        ensures
            final(self).same_state(*old(self)),
            r.1.blue == count_true(final(self).blue_reachable_cache@),
            r.1.green == count_true(final(self).green_reachable_cache@),
            final(self).areas_exact(),
            r.0 == if r.1.blue > r.1.green {
                Winner::Blue
            } else if r.1.blue < r.1.green {
                Winner::Green
            } else {
                Winner::Draw
            },
    {
        let (blue_score, green_score) = self.reachable_areas();
        let score = Score { blue: blue_score, green: green_score };
        if blue_score > green_score {
            (Winner::Blue, score)
        } else if blue_score < green_score {
            (Winner::Green, score)
        } else {
            (Winner::Draw, score)
        }
    }
}

} // verus!
