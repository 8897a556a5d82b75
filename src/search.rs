//! Move search: one-ply ordering, minimax with alpha-beta pruning, and
//! iterative deepening with aspiration windows.
use vstd::prelude::*;
use crate::board::count_true;
use crate::game::{area_verdict, score_in_range, static_score, territory, Game};
use crate::moves::{EvaluatedMove, Move};

verus! {

/// Scores ascend along `s`.
pub open spec fn ascending(s: Seq<EvaluatedMove>) -> bool {
    forall|a: int, b: int| 0 <= a < b < s.len() ==> s[a].ev <= s[b].ev
}

/// Scores descend along `s`.
pub open spec fn descending(s: Seq<EvaluatedMove>) -> bool {
    forall|a: int, b: int| 0 <= a < b < s.len() ==> s[a].ev >= s[b].ev
}

/// Best first for the player to move: descending for blue, who maximises;
/// ascending for green, who minimises.
pub open spec fn best_first(s: Seq<EvaluatedMove>, blue_turn: bool) -> bool {
    if blue_turn {
        descending(s)
    } else {
        ascending(s)
    }
}

/// Values a search returns: a score, or an extreme of `i32` for a side
/// that had no move.
pub open spec fn search_value(v: i32) -> bool {
    score_in_range(v as int) || v == i32::MIN || v == i32::MAX
}

/// Exchanges the entries at `j - 1` and `j`.
fn swap_down(v: &mut Vec<EvaluatedMove>, j: usize)
    requires
        0 < j < old(v)@.len(),
    ensures
        final(v)@ == old(v)@.update(j - 1, old(v)@[j as int]).update(j as int, old(v)@[j - 1]),
        final(v)@.to_multiset() == old(v)@.to_multiset(),
{
    let a = v[j - 1];
    let b = v[j];
    let ghost s0 = v@;
    v.set(j - 1, b);
    let ghost s1 = v@;
    v.set(j, a);
    proof {
        broadcast use vstd::multiset::group_multiset_axioms;

        vstd::seq_lib::to_multiset_update(s0, j - 1, b);
        vstd::seq_lib::to_multiset_update(s1, j as int, a);
        vstd::seq_lib::to_multiset_contains(s0, a);
        assert(s0.contains(a)) by {
            assert(s0[j - 1] == a);
        }
        assert(v@.to_multiset() =~= s0.to_multiset());
    }
}

/// Stable insertion sort by ascending score.
pub fn sort_by_score(v: &mut Vec<EvaluatedMove>)
    ensures
        final(v)@.len() == old(v)@.len(),
        final(v)@.to_multiset() == old(v)@.to_multiset(),
        ascending(final(v)@),
{
    let n = v.len();
    let mut i: usize = 1;
    while i < n
        invariant
            n == v@.len(),
            n == old(v)@.len(),
            1 <= i || n == 0,
            v@.to_multiset() == old(v)@.to_multiset(),
            forall|a: int, b: int| 0 <= a < b < i && b < n ==> v@[a].ev <= v@[b].ev,
        decreases n - i,
    {
        let mut j: usize = i;
        while j > 0 && v[j - 1].ev > v[j].ev
            invariant
                n == v@.len(),
                n == old(v)@.len(),
                0 <= j <= i < n,
                v@.to_multiset() == old(v)@.to_multiset(),
                forall|a: int, b: int|
                    0 <= a < b <= i && a != j && b != j ==> v@[a].ev <= v@[b].ev,
                forall|b: int| j < b <= i ==> v@[j as int].ev < v@[b].ev,
            decreases j,
        {
            swap_down(v, j);
            j = j - 1;
        }
        proof {
            assert forall|a: int, b: int| 0 <= a < b < i + 1 && b < n implies v@[a].ev <= v@[b].ev by {
                if a == j as int {
                } else if b == j as int {
                    assert(v@[a].ev <= v@[j - 1].ev || a == j - 1);
                }
            }
        }
        i = i + 1;
    }
}

/// `v` in reverse order.
pub fn reversed(v: &Vec<EvaluatedMove>) -> (r: Vec<EvaluatedMove>)
    ensures
        r@ == v@.reverse(),
{
    let mut r: Vec<EvaluatedMove> = Vec::new();
    let mut i: usize = v.len();
    while i > 0
        invariant
            i <= v@.len(),
            r@.len() == v@.len() - i,
            forall|k: int| 0 <= k < r@.len() ==> r@[k] == v@[v@.len() - 1 - k],
        decreases i,
    {
        i = i - 1;
        r.push(v[i]);
    }
    assert(r@ =~= v@.reverse());
    r
}

/// Sorts best first for the side to move: ascending then, for blue,
/// reversed (so that equal scores come out in reverse order of input).
pub fn order_for(v: Vec<EvaluatedMove>, blue_turn: bool) -> (r: Vec<EvaluatedMove>)
    ensures
        r@.to_multiset() == v@.to_multiset(),
        r@.len() == v@.len(),
        best_first(r@, blue_turn),
        forall|i: int| 0 <= i < r@.len() ==> v@.contains(#[trigger] r@[i]),
        forall|i: int| 0 <= i < v@.len() ==> r@.contains(#[trigger] v@[i]),
{
    let ghost v0 = v@;
    let mut v = v;
    sort_by_score(&mut v);
    let r = if blue_turn {
        let r = reversed(&v);
        proof {
            v@.lemma_reverse_to_multiset();
        }
        r
    } else {
        v
    };
    proof {
        assert forall|i: int| 0 <= i < r@.len() implies v0.contains(#[trigger] r@[i]) by {
            vstd::seq_lib::to_multiset_contains(r@, r@[i]);
            vstd::seq_lib::to_multiset_contains(v0, r@[i]);
            assert(r@.contains(r@[i])) by {
                assert(r@[i] == r@[i]);
            }
        }
        assert forall|i: int| 0 <= i < v0.len() implies r@.contains(#[trigger] v0[i]) by {
            vstd::seq_lib::to_multiset_contains(r@, v0[i]);
            vstd::seq_lib::to_multiset_contains(v0, v0[i]);
            assert(v0.contains(v0[i])) by {
                assert(v0[i] == v0[i]);
            }
        }
    }
    r
}

/// The moves that `scored` scores `best`, in order: the ties among which
/// the search draws its move.
pub fn tied_moves(scored: &Vec<EvaluatedMove>, best: i32) -> (r: Vec<Move>)
    ensures
        forall|i: int|
            0 <= i < r@.len() ==> scored@.contains(EvaluatedMove { mv: #[trigger] r@[i], ev: best }),
        forall|j: int| 0 <= j < scored@.len() && (#[trigger] scored@[j]).ev == best ==> r@.contains(scored@[j].mv),
{
    let mut r: Vec<Move> = Vec::new();
    let mut k: usize = 0;
    while k < scored.len()
        invariant
            k <= scored@.len(),
            forall|i: int|
                0 <= i < r@.len() ==> scored@.contains(EvaluatedMove { mv: #[trigger] r@[i], ev: best }),
            forall|j: int| 0 <= j < k && (#[trigger] scored@[j]).ev == best ==> r@.contains(scored@[j].mv),
        decreases scored@.len() - k,
    {
        let ghost before = r@;
        if scored[k].ev == best {
            r.push(scored[k].mv);
            proof {
                assert(scored@[k as int] == EvaluatedMove { mv: scored@[k as int].mv, ev: best });
                assert(r@[before.len() as int] == scored@[k as int].mv);
            }
        }
        proof {
            assert forall|j: int| 0 <= j < k + 1 && (#[trigger] scored@[j]).ev == best implies r@.contains(scored@[j].mv) by {
                if j < k {
                    let a = choose|a: int| 0 <= a < before.len() && before[a] == scored@[j].mv;
                    assert(r@[a] == scored@[j].mv);
                }
            }
            assert forall|i: int| 0 <= i < r@.len() implies scored@.contains(EvaluatedMove { mv: #[trigger] r@[i], ev: best }) by {
                if i < before.len() {
                    assert(r@[i] == before[i]);
                } else {
                    assert(scored@[k as int] == EvaluatedMove { mv: r@[i], ev: best });
                }
            }
        }
        k = k + 1;
    }
    r
}

/// `l` is a completed top-level search of `g`: every move `g` offers,
/// each with a score, best first for the side to move.
pub open spec fn root_search(g: Game, l: Seq<EvaluatedMove>) -> bool {
    &&& 0 < l.len()
    &&& best_first(l, g.blue_turn)
    &&& forall|i: int| 0 <= i < l.len() ==> g.candidate(#[trigger] l[i].mv)
    &&& forall|m: Move| g.candidate(m) ==> exists|i: int| 0 <= i < l.len() && #[trigger] l[i].mv == m
}

/// Relies on std::time::Instant, an opaque point of a monotonic clock.
#[verifier::external_type_specification]
#[verifier::external_body]
pub struct ExInstant(std::time::Instant);

/// Relies on std::time::Instant::now: the current instant.
#[verifier::external_body]
fn clock_now() -> (r: std::time::Instant) {
    std::time::Instant::now()
}

/// Relies on std::time::Instant::elapsed: whole seconds since `start`.
#[verifier::external_body]
fn seconds_since(start: &std::time::Instant) -> (r: u64) {
    start.elapsed().as_secs()
}

/// Relies on rand::random_range: a value drawn from `0..n`, which must not
/// be empty.
#[verifier::external_body]
fn random_below(n: usize) -> (r: usize)
    requires
        0 < n,
    ensures
        r < n,
{
    rand::random_range(0..n)
}

/// Largest aspiration half-window; a search that falls outside it is
/// accepted as it is.
pub const WINDOW_LIMIT: i32 = 4194304;

/// `v` limited to the range of `i32`.
fn clamp_to_i32(v: i64) -> (r: i32)
    ensures
        r == if v < i32::MIN {
            i32::MIN as int
        } else if v > i32::MAX {
            i32::MAX as int
        } else {
            v as int
        },
{
    if v < i32::MIN as i64 {
        i32::MIN
    } else if v > i32::MAX as i64 {
        i32::MAX
    } else {
        v as i32
    }
}

impl Game {
    /// The static score after `mv`, which is then taken back.
    fn evaluate_move(&mut self, mv: Move) -> (r: i32)
        requires
            old(self).wf(),
            old(self).at_latest(),
            old(self).candidate(mv),
        ensures
            final(self).same_state(*old(self)),
            score_in_range(r as int),
            old(self).blue_position != old(self).green_position ==> r == old(self).score_after(mv),
    {
        proof {
            crate::game::make_then_undo_restores(*self, mv);
            if self.blue_position != self.green_position {
                crate::game::lemma_reach_avoids_other(
                    self.terrain(),
                    self.active(),
                    self.passive(),
                    3,
                    mv.destination,
                );
            }
        }
        self.make_move(mv, false, true);
        let score = self.evaluate();
        self.undo_move();
        score
    }

    /// The generated moves ordered best first by their one-ply score for the
    /// side to move, cut to the first `cutoff` when `cutoff` is positive.
    pub fn evaluation_sorted_moves(&mut self, cutoff: i32) -> (r: Vec<Move>)
        requires
            old(self).wf(),
            old(self).at_latest(),
        ensures
            final(self).same_state(*old(self)),
            forall|i: int| 0 <= i < r@.len() ==> old(self).candidate(#[trigger] r@[i]),
            cutoff > 0 ==> r@.len() <= cutoff,
            cutoff <= 0 ==> forall|m: Move| old(self).candidate(m) ==> r@.contains(m),
            r@.no_duplicates(),
            cutoff > 0 ==> r@.len() == cutoff || forall|m: Move|
                old(self).candidate(m) ==> r@.contains(m),
            old(self).blue_position != old(self).green_position ==> forall|i: int, j: int|
                0 <= i < j < r@.len() ==> if old(self).blue_turn {
                    old(self).score_after(r@[i]) >= old(self).score_after(r@[j])
                } else {
                    old(self).score_after(r@[i]) <= old(self).score_after(r@[j])
                },
            old(self).blue_position != old(self).green_position ==> forall|m: Move, i: int|
                old(self).candidate(m) && !r@.contains(m) && 0 <= i < r@.len() ==> if old(
                    self,
                ).blue_turn {
                    old(self).score_after(r@[i]) >= old(self).score_after(m)
                } else {
                    old(self).score_after(r@[i]) <= old(self).score_after(m)
                },
    {
        let ghost g0 = *self;
        let ghost apart = g0.blue_position != g0.green_position;
        let moves = self.possible_moves();
        let mut scored: Vec<EvaluatedMove> = Vec::new();
        let mut i: usize = 0;
        while i < moves.len()
            invariant
                self.same_state(g0),
                g0.wf(),
                g0.at_latest(),
                apart == (g0.blue_position != g0.green_position),
                i <= moves@.len(),
                forall|k: int| 0 <= k < moves@.len() ==> g0.candidate(#[trigger] moves@[k]),
                forall|k: int|
                    0 <= k < scored@.len() ==> g0.candidate(#[trigger] scored@[k].mv) && (apart
                        ==> scored@[k].ev == g0.score_after(scored@[k].mv)),
                scored@.len() == i,
                forall|k: int| 0 <= k < i ==> (#[trigger] scored@[k]).mv == moves@[k],
                forall|m: Move| moves@.contains(m) <==> g0.candidate(m),
            decreases moves@.len() - i,
        {
            let mv = moves[i];
            let score = self.evaluate_move(mv);
            scored.push(EvaluatedMove::new(mv, score));
            i = i + 1;
        }
        let ghost unsorted = scored@;
        let scored = order_for(scored, self.blue_turn);
        let limit: usize = if cutoff > 0 && scored.len() > cutoff as usize {
            cutoff as usize
        } else {
            scored.len()
        };
        let mut out: Vec<Move> = Vec::new();
        let mut k: usize = 0;
        while k < limit
            invariant
                self.same_state(g0),
                limit <= scored@.len(),
                k <= limit,
                out@.len() == k,
                forall|j: int| 0 <= j < scored@.len() ==> unsorted.contains(#[trigger] scored@[j]),
                forall|j: int| 0 <= j < unsorted.len() ==> g0.candidate(#[trigger] unsorted[j].mv),
                forall|j: int| 0 <= j < out@.len() ==> g0.candidate(#[trigger] out@[j]),
                forall|j: int| 0 <= j < k ==> out@[j] == (#[trigger] scored@[j]).mv,
            decreases limit - k,
        {
            let e = scored[k];
            proof {
                assert(unsorted.contains(scored@[k as int]));
                let j = choose|j: int| 0 <= j < unsorted.len() && unsorted[j] == scored@[k as int];
                assert(g0.candidate(unsorted[j].mv));
            }
            out.push(e.mv);
            k = k + 1;
        }
        proof {
            assert forall|j: int| 0 <= j < scored@.len() implies apart ==> (#[trigger] scored@[j]).ev
                == g0.score_after(scored@[j].mv) by {
                assert(unsorted.contains(scored@[j]));
                let a = choose|a: int| 0 <= a < unsorted.len() && unsorted[a] == scored@[j];
            }
            assert(unsorted.no_duplicates()) by {
                assert forall|a: int, b: int|
                    0 <= a < unsorted.len() && 0 <= b < unsorted.len() && a != b implies unsorted[a]
                    != unsorted[b] by {
                    assert(unsorted[a].mv == moves@[a]);
                    assert(unsorted[b].mv == moves@[b]);
                }
            }
            unsorted.lemma_multiset_has_no_duplicates();
            scored@.lemma_multiset_has_no_duplicates_conv();
            assert forall|a: int, b: int|
                0 <= a < out@.len() && 0 <= b < out@.len() && a != b implies out@[a] != out@[b] by {
                assert(out@[a] == scored@[a].mv);
                assert(out@[b] == scored@[b].mv);
                assert(scored@[a] != scored@[b]);
                assert(unsorted.contains(scored@[a]));
                assert(unsorted.contains(scored@[b]));
                let a1 = choose|a1: int| 0 <= a1 < unsorted.len() && unsorted[a1] == scored@[a];
                let b1 = choose|b1: int| 0 <= b1 < unsorted.len() && unsorted[b1] == scored@[b];
                assert(unsorted[a1].mv == moves@[a1]);
                assert(unsorted[b1].mv == moves@[b1]);
            }
            if cutoff <= 0 || limit < cutoff {
                assert forall|m: Move| g0.candidate(m) implies out@.contains(m) by {
                    assert(moves@.contains(m));
                    let a = choose|a: int| 0 <= a < moves@.len() && moves@[a] == m;
                    assert(unsorted[a].mv == m);
                    assert(scored@.contains(unsorted[a]));
                    let b = choose|b: int| 0 <= b < scored@.len() && scored@[b] == unsorted[a];
                    assert(out@[b] == m);
                }
            }
            if apart {
                assert forall|i: int, j: int| 0 <= i < j < out@.len() implies if g0.blue_turn {
                    g0.score_after(out@[i]) >= g0.score_after(out@[j])
                } else {
                    g0.score_after(out@[i]) <= g0.score_after(out@[j])
                } by {
                    assert(out@[i] == scored@[i].mv);
                    assert(out@[j] == scored@[j].mv);
                }
                assert forall|m: Move, i: int|
                    g0.candidate(m) && !out@.contains(m) && 0 <= i < out@.len() implies if g0.blue_turn {
                    g0.score_after(out@[i]) >= g0.score_after(m)
                } else {
                    g0.score_after(out@[i]) <= g0.score_after(m)
                } by {
                    assert(moves@.contains(m));
                    let a = choose|a: int| 0 <= a < moves@.len() && moves@[a] == m;
                    assert(unsorted[a].mv == m);
                    assert(scored@.contains(unsorted[a]));
                    let b = choose|b: int| 0 <= b < scored@.len() && scored@[b] == unsorted[a];
                    if b < limit {
                        assert(out@[b] == m);
                    }
                    assert(out@[i] == scored@[i].mv);
                    assert(scored@[b].mv == m);
                }
            }
        }
        out
    }

    /// Minimax value of the position searched `depth` plies deep with
    /// alpha-beta pruning; finished games score their area verdict at once.
    /// Below the last two plies the moves are ordered by one-ply score and
    /// cut to `cutoff` when that is positive. `nodes` counts the positions
    /// visited.
    pub fn minimax_evaluate(
        &mut self,
        depth: i32,
        alpha: i32,
        beta: i32,
        nodes: &mut u64,
        cutoff: i32,
    ) -> (r: i32)
        requires
            old(self).wf(),
            old(self).at_latest(),
            0 <= depth,
        ensures
            final(self).same_state(*old(self)),
            search_value(r),
            *final(nodes) >= *old(nodes),
            *old(nodes) < u64::MAX ==> *final(nodes) >= *old(nodes) + 1,
            !old(self).partitioned() && depth == 0 && old(self).blue_position
                != old(self).green_position ==> final(self).steps_exact(),
            !old(self).partitioned() && depth >= 1 && (forall|m: Move| !old(self).candidate(m)) ==> r
                == if old(self).blue_turn {
                i32::MIN
            } else {
                i32::MAX
            },
            old(self).blue_position != old(self).green_position && (old(self).partitioned() || depth
                == 0) ==> r == static_score(old(self).width, old(self).height, old(self).position()),
            old(self).partitioned() ==> r == area_verdict(
                count_true(final(self).blue_reachable_cache@) as int,
                count_true(final(self).green_reachable_cache@) as int,
            ) && final(self).areas_exact(),
            !old(self).partitioned() && depth == 0 ==> r == territory(
                final(self).blue_steps_cache@,
                final(self).green_steps_cache@,
                old(self).cell_count(),
            ),
        decreases depth,
    {
        let ghost g0 = *self;
        if *nodes < u64::MAX {
            *nodes = *nodes + 1;
        }
        if self.game_over() {
            let (blue_score, green_score) = self.reachable_areas();
            proof {
                if self.blue_position != self.green_position {
                    crate::game::lemma_static_score(*self);
                }
            }
            if blue_score > green_score {
                return 100;
            } else if green_score > blue_score {
                return -100;
            } else {
                return 0;
            }
        }
        if depth == 0 {
            proof {
                assert(self.width * self.height <= 1000000) by (nonlinear_arith)
                    requires
                    self.width * self.height <= 1000000,
                        1 <= self.width,
                        1 <= self.height,
                ;
            }
            return self.territory_difference();
        }
        let moves = if depth == 1 {
            self.possible_moves()
        } else {
            self.evaluation_sorted_moves(cutoff)
        };
        let mut alpha = alpha;
        let mut beta = beta;
        let mut value: i32 = if self.blue_turn {
            i32::MIN
        } else {
            i32::MAX
        };
        let mut i: usize = 0;
        while i < moves.len()
            invariant
                self.same_state(g0),
                g0.wf(),
                g0.at_latest(),
                1 <= depth,
                i <= moves@.len(),
                forall|k: int| 0 <= k < moves@.len() ==> g0.candidate(#[trigger] moves@[k]),
                search_value(value),
                *nodes >= *old(nodes),
                *old(nodes) < u64::MAX ==> *nodes >= *old(nodes) + 1,
                g0 == *old(self),
                !g0.partitioned(),
                moves@.len() == 0 ==> value == if g0.blue_turn {
                    i32::MIN
                } else {
                    i32::MAX
                },
                forall|k: int| 0 <= k < moves@.len() ==> g0.candidate(#[trigger] moves@[k]),
            decreases moves@.len() - i,
        {
            let mv = moves[i];
            proof {
                crate::game::make_then_undo_restores(*self, mv);
            }
            self.make_move(mv, false, true);
            let score = self.minimax_evaluate(depth - 1, alpha, beta, nodes, cutoff);
            self.undo_move();
            assert(self.same_state(g0));
            if self.blue_turn {
                if score > value {
                    value = score;
                }
                if value > alpha {
                    alpha = value;
                }
                if alpha == 100 {
                    return 100;
                }
            } else {
                if score < value {
                    value = score;
                }
                if value < beta {
                    beta = value;
                }
                if beta == -100 {
                    return -100;
                }
            }
            if alpha >= beta {
                break;
            }
            i = i + 1;
        }
        proof {
            if moves@.len() > 0 {
                assert(g0.candidate(moves@[0]));
            }
        }
        value
    }

    /// Every generated move with its minimax value `depth - 1` plies below
    /// it inside the window `alpha..beta`, best first for the side to move.
    fn score_root_moves(&mut self, depth: i32, alpha: i32, beta: i32, nodes: &mut u64) -> (r: Vec<
        EvaluatedMove,
    >)
        requires
            old(self).wf(),
            old(self).at_latest(),
            1 <= depth,
        ensures
            final(self).same_state(*old(self)),
            best_first(r@, old(self).blue_turn),
            forall|i: int|
                0 <= i < r@.len() ==> old(self).candidate(#[trigger] r@[i].mv) && search_value(
                    r@[i].ev,
                ),
            r@.len() == 0 ==> forall|m: Move| !old(self).candidate(m),
            forall|a: int, b: int| 0 <= a < r@.len() && 0 <= b < r@.len() && a != b ==> r@[a].mv != r@[b].mv,
            forall|m: Move|
                old(self).candidate(m) ==> exists|i: int| 0 <= i < r@.len() && #[trigger] r@[i].mv == m,
    {
        let ghost g0 = *self;
        let moves = self.evaluation_sorted_moves(0);
        let mut scored: Vec<EvaluatedMove> = Vec::new();
        let mut i: usize = 0;
        while i < moves.len()
            invariant
                self.same_state(g0),
                g0.wf(),
                g0.at_latest(),
                1 <= depth,
                i <= moves@.len(),
                forall|k: int| 0 <= k < moves@.len() ==> g0.candidate(#[trigger] moves@[k]),
                forall|k: int|
                    0 <= k < scored@.len() ==> g0.candidate(#[trigger] scored@[k].mv)
                        && search_value(scored@[k].ev),
                scored@.len() == i,
                forall|k: int| 0 <= k < i ==> (#[trigger] scored@[k]).mv == moves@[k],
                forall|m: Move| g0.candidate(m) ==> moves@.contains(m),
            decreases moves@.len() - i,
        {
            let mv = moves[i];
            proof {
                crate::game::make_then_undo_restores(*self, mv);
            }
            self.make_move(mv, false, true);
            let sc = self.minimax_evaluate(depth - 1, alpha, beta, nodes, 0);
            self.undo_move();
            scored.push(EvaluatedMove::new(mv, sc));
            i = i + 1;
        }
        let ghost unsorted = scored@;
        let r = order_for(scored, self.blue_turn);
        proof {
            if r@.len() == 0 {
                assert forall|m: Move| !g0.candidate(m) by {
                    if g0.candidate(m) {
                        assert(moves@.contains(m));
                    }
                }
            }
            assert forall|i: int| 0 <= i < r@.len() implies g0.candidate(#[trigger] r@[i].mv)
                && search_value(r@[i].ev) by {
                assert(unsorted.contains(r@[i]));
                let j = choose|j: int| 0 <= j < unsorted.len() && unsorted[j] == r@[i];
                assert(g0.candidate(unsorted[j].mv));
            }
            assert(unsorted.no_duplicates()) by {
                assert forall|a: int, b: int|
                    0 <= a < unsorted.len() && 0 <= b < unsorted.len() && a != b implies unsorted[a]
                    != unsorted[b] by {
                    assert(unsorted[a].mv == moves@[a]);
                    assert(unsorted[b].mv == moves@[b]);
                }
            }
            unsorted.lemma_multiset_has_no_duplicates();
            r@.lemma_multiset_has_no_duplicates_conv();
            assert forall|a: int, b: int|
                0 <= a < r@.len() && 0 <= b < r@.len() && a != b implies r@[a].mv != r@[b].mv by {
                assert(r@[a] != r@[b]);
                assert(unsorted.contains(r@[a]));
                assert(unsorted.contains(r@[b]));
                let a1 = choose|a1: int| 0 <= a1 < unsorted.len() && unsorted[a1] == r@[a];
                let b1 = choose|b1: int| 0 <= b1 < unsorted.len() && unsorted[b1] == r@[b];
                assert(unsorted[a1].mv == moves@[a1]);
                assert(unsorted[b1].mv == moves@[b1]);
            }
            assert forall|m: Move| g0.candidate(m) implies exists|i: int|
                0 <= i < r@.len() && #[trigger] r@[i].mv == m by {
                assert(moves@.contains(m));
                let a = choose|a: int| 0 <= a < moves@.len() && moves@[a] == m;
                assert(unsorted[a].mv == m);
                assert(r@.contains(unsorted[a]));
                let b = choose|b: int| 0 <= b < r@.len() && r@[b] == unsorted[a];
                assert(r@[b].mv == m);
            }
        }
        r
    }

    /// Every generated move with its full-window minimax value `depth - 1`
    /// plies below it, best first for the side to move.
    pub fn minimax_evaluate_moves(&mut self, depth: i32, nodes: &mut u64) -> (r: Vec<EvaluatedMove>)
        requires
            old(self).wf(),
            old(self).at_latest(),
            1 <= depth,
        ensures
            final(self).same_state(*old(self)),
            best_first(r@, old(self).blue_turn),
            forall|i: int|
                0 <= i < r@.len() ==> old(self).candidate(#[trigger] r@[i].mv) && search_value(
                    r@[i].ev,
                ),
            r@.len() == 0 ==> forall|m: Move| !old(self).candidate(m),
            forall|a: int, b: int| 0 <= a < r@.len() && 0 <= b < r@.len() && a != b ==> r@[a].mv != r@[b].mv,
            forall|m: Move|
                old(self).candidate(m) ==> exists|i: int| 0 <= i < r@.len() && #[trigger] r@[i].mv == m,
    {
        self.score_root_moves(depth, i32::MIN, i32::MAX, nodes)
    }

    /// A best move by iterative deepening: a full search at `depth`, then
    /// searches two plies deeper at a time (up to `depth + 2`, or `depth + 4`
    /// once six moves have been played) while under three seconds, each in
    /// an aspiration window around the last score that doubles on failure.
    /// Among moves of equal best score one is drawn at random. `None` when
    /// there is no move to make.
    pub fn iterative_deepening_minimax(&mut self, depth: i32) -> (r: Option<EvaluatedMove>)
        requires
            old(self).wf(),
            old(self).at_latest(),
            1 <= depth <= i32::MAX - 6,
        ensures
            final(self).same_state(*old(self)),
            r matches Some(e) ==> old(self).candidate(e.mv) && search_value(e.ev),
            r matches Some(e) ==> exists|l: Seq<EvaluatedMove>|
                root_search(*old(self), l) && l[0].ev == e.ev && #[trigger] l.contains(e),
            r is None <==> forall|m: Move| !old(self).candidate(m),
    {
        let ghost g0 = *self;
        let start = clock_now();
        let max_depth = if self.history.len() < 6 {
            depth + 2
        } else {
            depth + 4
        };
        let time_limit_secs: u64 = 3;
        let mut nodes: u64 = 0;
        let evaluated_moves = self.minimax_evaluate_moves(depth, &mut nodes);
        if evaluated_moves.len() == 0 {
            return None;
        }
        let mut best_move = evaluated_moves[0].mv;
        let mut best_score = evaluated_moves[0].ev;
        let ghost mut chosen: Seq<EvaluatedMove> = evaluated_moves@;
        proof {
            assert(chosen[0] == EvaluatedMove { mv: best_move, ev: best_score });
            assert(chosen.contains(EvaluatedMove { mv: best_move, ev: best_score }));
        }
        let mut current_depth = depth + 2;
        let mut window_size: i32 = 1;
        while current_depth <= max_depth && seconds_since(&start) < time_limit_secs
            invariant
                self.same_state(g0),
                g0.wf(),
                g0.at_latest(),
                1 <= depth <= current_depth <= max_depth + 2,
                max_depth <= i32::MAX - 2,
                window_size == 1,
                g0.candidate(best_move),
                search_value(best_score),
                g0 == *old(self),
                root_search(g0, chosen),
                chosen[0].ev == best_score,
                chosen.contains(EvaluatedMove { mv: best_move, ev: best_score }),
            decreases max_depth + 2 - current_depth,
        {
            let mut alpha = clamp_to_i32(best_score as i64 - window_size as i64);
            let mut beta = clamp_to_i32(best_score as i64 + window_size as i64);
            loop
                invariant
                    self.same_state(g0),
                    g0.wf(),
                    g0.at_latest(),
                    1 <= depth <= current_depth <= max_depth,
                    max_depth <= i32::MAX - 2,
                    1 <= window_size < 2 * WINDOW_LIMIT,
                    g0.candidate(best_move),
                    search_value(best_score),
                    g0 == *old(self),
                    root_search(g0, chosen),
                    chosen[0].ev == best_score,
                    chosen.contains(EvaluatedMove { mv: best_move, ev: best_score }),
                decreases 2 * WINDOW_LIMIT - window_size,
            {
                let ghost before = *self;
                let scored = self.score_root_moves(current_depth, alpha, beta, &mut nodes);
                if scored.len() == 0 {
                    break;
                }
                proof {
                    assert forall|j: int| 0 <= j < scored@.len() implies g0.candidate(
                        #[trigger] scored@[j].mv,
                    ) && search_value(scored@[j].ev) by {
                        assert(before.candidate(scored@[j].mv));
                    }
                    assert(g0.candidate(scored@[0].mv));
                }
                let new_score = scored[0].ev;
                if new_score <= alpha && window_size < WINDOW_LIMIT {
                    window_size = window_size * 2;
                    alpha = clamp_to_i32(new_score as i64 - window_size as i64);
                } else if new_score >= beta && window_size < WINDOW_LIMIT {
                    window_size = window_size * 2;
                    beta = clamp_to_i32(new_score as i64 + window_size as i64);
                } else {
                    best_score = new_score;
                    let best_moves = tied_moves(&scored, new_score);
                    proof {
                        assert(best_moves@.contains(scored@[0].mv));
                        assert forall|j: int| 0 <= j < best_moves@.len() implies g0.candidate(
                            #[trigger] best_moves@[j],
                        ) by {
                            let e = EvaluatedMove { mv: best_moves@[j], ev: new_score };
                            assert(scored@.contains(e));
                            let k = choose|k: int| 0 <= k < scored@.len() && scored@[k] == e;
                            assert(g0.candidate(scored@[k].mv));
                        }
                    }
                    best_move = best_moves[random_below(best_moves.len())];
                    proof {
                        let e = EvaluatedMove { mv: best_move, ev: new_score };
                        assert(scored@.contains(e));
                        assert forall|m: Move| g0.candidate(m) implies exists|i: int|
                            0 <= i < scored@.len() && #[trigger] scored@[i].mv == m by {
                            assert(before.candidate(m));
                        }
                        chosen = scored@;
                    }
                    break;
                }
            }
            window_size = 1;
            current_depth = current_depth + 2;
        }
        let e = EvaluatedMove::new(best_move, best_score);
        proof {
            assert(root_search(*old(self), chosen) && chosen[0].ev == e.ev && chosen.contains(e));
        }
        Some(e)
    }
}

} // verus!
