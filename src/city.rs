//! The operations a host application drives a game through.
use vstd::prelude::*;
use crate::board::Cell;
use crate::game::{move_fits, Game, Score, Winner};
use crate::geometry::Coordinate;
use crate::moves::Move;
use crate::reach::grid_ok;

verus! {

/// The outcome of a game: who has the larger area, and both areas.
#[derive(Clone, Copy, Debug, PartialEq, Eq, Structural)]
pub struct GameResult {
    pub winner: Winner,
    pub score: Score,
}

/// Whether `mv` lands on a `width` by `height` board with its wall slot on
/// the matching wall board.
pub fn move_fits_board(width: i32, height: i32, mv: Move) -> (r: bool)
    requires
        grid_ok(width as int, height as int),
    ensures
        r == move_fits(width as int, height as int, mv),
{
    let d = mv.destination;
    if !d.inside(width, height) {
        return false;
    }
    let next = d.move_to(mv.place_wall);
    next.inside(width, height)
}

/// A game together with the history view shown to the host.
pub struct City {
    pub inner: Game,
}

impl City {
    pub open spec fn wf(&self) -> bool {
        self.inner.wf()
    }

    pub fn new(width: i32, height: i32) -> (r: City)
        requires
            grid_ok(width as int, height as int),
        ensures
            r.wf(),
            r.inner.width == width,
            r.inner.height == height,
            r.inner.at_latest(),
            r.inner.history@.len() == 0,
    {
        City { inner: Game::new(width, height) }
    }

    pub fn get_blue_position(&self) -> (r: Coordinate)
        ensures
            r == self.inner.blue_position,
    {
        self.inner.blue_position
    }

    pub fn get_green_position(&self) -> (r: Coordinate)
        ensures
            r == self.inner.green_position,
    {
        self.inner.green_position
    }

    /// The vertical wall board, row by row.
    pub fn get_vertical_wall(&self) -> (r: Vec<Vec<Cell>>)
        requires
            self.wf(),
        ensures
            r@.len() == self.inner.vertical_walls.height,
            forall|y: int|
                0 <= y < self.inner.vertical_walls.height ==> (#[trigger] r@[y])@.len()
                    == self.inner.vertical_walls.width,
            forall|x: int, y: int|
                self.inner.vertical_walls.spec_inside(x, y) ==> r@[y]@[x]
                    == self.inner.vertical_walls.at(x, y),
    {
        self.inner.vertical_walls.to_rows()
    }

    /// The horizontal wall board, row by row.
    pub fn get_horizontal_wall(&self) -> (r: Vec<Vec<Cell>>)
        requires
            self.wf(),
        ensures
            r@.len() == self.inner.horizontal_walls.height,
            forall|y: int|
                0 <= y < self.inner.horizontal_walls.height ==> (#[trigger] r@[y])@.len()
                    == self.inner.horizontal_walls.width,
            forall|x: int, y: int|
                self.inner.horizontal_walls.spec_inside(x, y) ==> r@[y]@[x]
                    == self.inner.horizontal_walls.at(x, y),
    {
        self.inner.horizontal_walls.to_rows()
    }

    /// The moves recorded so far.
    pub fn get_history(&self) -> (r: Vec<Move>)
        ensures
            r@ == self.inner.history@,
    {
        let mut r: Vec<Move> = Vec::new();
        let mut i: usize = 0;
        while i < self.inner.history.len()
            invariant
                i <= self.inner.history@.len(),
                r@ == self.inner.history@.subrange(0, i as int),
            decreases self.inner.history@.len() - i,
        {
            r.push(self.inner.history[i]);
            i = i + 1;
            assert(r@ =~= self.inner.history@.subrange(0, i as int));
        }
        assert(r@ =~= self.inner.history@);
        r
    }

    pub fn blue_turn(&self) -> (r: bool)
        ensures
            r == self.inner.blue_turn,
    {
        self.inner.blue_turn
    }

    /// Plays and records `mv`, checked against the generated moves when
    /// `safe` is set. An unchecked move off the board is refused with
    /// `false`.
    pub fn make_move(&mut self, mv: Move, safe: bool) -> (r: bool)
        requires
            old(self).wf(),
        ensures
            final(self).wf(),
            !safe ==> (r <==> move_fits(old(self).inner.width as int, old(self).inner.height as int, mv)),
            safe ==> (r <==> old(self).inner.candidate(mv)),
            !r ==> final(self).inner.same_state(old(self).inner),
            r ==> final(self).inner.history@ == old(self).inner.history@.push(mv),
            r && old(self).inner.current_move_index == old(self).inner.history@.len()
                ==> final(self).inner.position() == crate::game::apply_move(
                old(self).inner.position(),
                old(self).inner.width as int,
                mv,
            ),
            r && old(self).inner.current_move_index < old(self).inner.history@.len()
                ==> final(self).inner.position() == old(self).inner.position(),
    {
        if !safe && !move_fits_board(self.inner.width, self.inner.height, mv) {
            return false;
        }
        self.inner.make_move(mv, safe, true)
    }

    pub fn possible_moves(&mut self) -> (r: Vec<Move>)
        requires
            old(self).wf(),
        ensures
            final(self).inner.same_state(old(self).inner),
            forall|m: Move| r@.contains(m) <==> old(self).inner.candidate(m),
    {
        self.inner.possible_moves()
    }

    /// Takes back the last recorded move; there must be one.
    pub fn undo_move(&mut self)
        requires
            old(self).wf(),
            old(self).inner.history@.len() > 0,
        ensures
            final(self).wf(),
            final(self).inner.history@ == old(self).inner.history@.drop_last(),
            final(self).inner.position() == crate::game::undo_position(
                old(self).inner.position(),
                old(self).inner.width as int,
                old(self).inner.height as int,
                old(self).inner.history@,
            ),
    {
        self.inner.undo_move();
    }

    pub fn game_over(&mut self) -> (r: bool)
        requires
            old(self).wf(),
        ensures
            final(self).inner.same_state(old(self).inner),
            r == old(self).inner.partitioned(),
            old(self).inner.walled_off() ==> r,
    {
        self.inner.game_over()
    }

    pub fn game_result(&mut self) -> (r: GameResult)
        requires
            old(self).wf(),
        ensures
            final(self).inner.same_state(old(self).inner),
            r.winner == if r.score.blue > r.score.green {
                Winner::Blue
            } else if r.score.blue < r.score.green {
                Winner::Green
            } else {
                Winner::Draw
            },
            r.score.blue == crate::board::count_true(final(self).inner.blue_reachable_cache@),
            r.score.green == crate::board::count_true(final(self).inner.green_reachable_cache@),
            final(self).inner.areas_exact(),
    {
        let (winner, score) = self.inner.game_result();
        GameResult { winner, score }
    }

    pub fn get_current_move_index(&self) -> (r: usize)
        ensures
            r == self.inner.current_move_index,
    {
        self.inner.current_move_index
    }

    /// Steps the view one move back, if not at the start.
    pub fn previous_move(&mut self)
        requires
            old(self).wf(),
        ensures
            old(self).inner.current_move_index > 0 ==> Game::cursor_moved(
                old(self).inner,
                final(self).inner,
                (old(self).inner.current_move_index - 1) as nat,
            ),
            old(self).inner.current_move_index == 0 ==> *final(self) == *old(self),
    {
        if self.inner.current_move_index > 0 {
            let i = self.inner.current_move_index - 1;
            self.inner.set_current_move_index(i);
        }
    }

    /// Steps the view one move forward, if not at the latest.
    pub fn next_move(&mut self)
        requires
            old(self).wf(),
        ensures
            old(self).inner.current_move_index < old(self).inner.history@.len() ==> Game::cursor_moved(
                old(self).inner,
                final(self).inner,
                (old(self).inner.current_move_index + 1) as nat,
            ),
            old(self).inner.current_move_index == old(self).inner.history@.len() ==> *final(self)
                == *old(self),
    {
        if self.inner.current_move_index < self.inner.history.len() {
            let i = self.inner.current_move_index + 1;
            self.inner.set_current_move_index(i);
        }
    }

    /// Shows the starting position.
    pub fn first_move(&mut self)
        requires
            old(self).wf(),
        ensures
            Game::cursor_moved(old(self).inner, final(self).inner, 0),
    {
        self.inner.set_current_move_index(0);
    }

    /// Shows the latest position.
    pub fn last_move(&mut self)
        requires
            old(self).wf(),
        ensures
            Game::cursor_moved(
                old(self).inner,
                final(self).inner,
                old(self).inner.history@.len() as nat,
            ),
    {
        let n = self.inner.history.len();
        self.inner.set_current_move_index(n);
    }

    /// Shows the position after `index` moves; an index past the history is
    /// ignored.
    pub fn jump_to_move(&mut self, index: usize)
        requires
            old(self).wf(),
        ensures
            index <= old(self).inner.history@.len() ==> Game::cursor_moved(
                old(self).inner,
                final(self).inner,
                index as nat,
            ),
            index > old(self).inner.history@.len() ==> *final(self) == *old(self),
    {
        if index <= self.inner.history.len() {
            self.inner.set_current_move_index(index);
        }
    }

    pub fn is_showing_latest(&self) -> (r: bool)
        ensures
            r == (self.inner.current_move_index == self.inner.history@.len()),
    {
        self.inner.is_showing_latest()
    }
}

} // verus!
