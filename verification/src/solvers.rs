//! Deterministic autoplay strategies: greedy, priority-ordered loops that
//! play the first legal direction, spawn a tile, and repeat until the board
//! is stuck. Neither looks ahead or backtracks.
//!
//! Every spawn raises the board's total value by at least 2, and the total
//! is bounded while exponents fit their representation, so each run ends:
//! almost always because no direction moves, or - reachable only with tiles
//! at the representation's ceiling - because a move could not free a cell
//! for the next spawn.

use vstd::prelude::*;

use crate::game::GameState;
use crate::sem::below_cap;
use crate::sem::dir_movable;
use crate::sem::has_empty;
use crate::sem::lemma_val_sum_bound;
use crate::sem::lemma_val_sum_update;
use crate::sem::stuck;
use crate::sem::val_sum;
use crate::sem::Direction;
use vstd::arithmetic::power2::lemma2_to64;
use vstd::arithmetic::power2::pow2;

verus! {

/// The largest total value a board can show, plus one.
pub open spec fn sum_roof() -> int {
    16 * (pow2(u32::MAX as nat) as int) + 1
}

/// Orders a run's two stages for termination: still playing, then stopped.
pub open spec fn phase(still_playing: bool) -> int {
    if still_playing {
        1
    } else {
        0
    }
}

/// The first direction of `d1, d2, d3, d4` the board can move along. The
/// board must not be stuck.
fn first_legal(
    gs: &GameState,
    d1: Direction,
    d2: Direction,
    d3: Direction,
    d4: Direction,
) -> (r: Direction)
    requires
        gs.wf(),
        dir_movable(gs.board(), d1) || dir_movable(gs.board(), d2) || dir_movable(gs.board(), d3)
            || dir_movable(gs.board(), d4),
    ensures
        dir_movable(gs.board(), r),
{
    if gs.can_move(d1) {
        d1
    } else if gs.can_move(d2) {
        d2
    } else if gs.can_move(d3) {
        d3
    } else {
        d4
    }
}

/// A board that is not stuck can move along one of the four directions.
proof fn lemma_not_stuck_case(b: Seq<Option<nat>>)
    requires
        !stuck(b),
    ensures
        dir_movable(b, Direction::Up) || dir_movable(b, Direction::Down) || dir_movable(
            b,
            Direction::Left,
        ) || dir_movable(b, Direction::Right),
{
    let d = choose|d: Direction| dir_movable(b, d);
    match d {
        Direction::Up => {},
        Direction::Down => {},
        Direction::Left => {},
        Direction::Right => {},
    }
}

/// One round of a strategy: play `d`, then spawn if a cell is open. Gives
/// back whether the run can go on, and a strictly larger board total when it
/// can, for the caller's termination measure. The round can fail to go on
/// only when the move left no room, which takes a tile already at the
/// representation's ceiling.
fn play_round(gs: &mut GameState, d: Direction) -> (went_on: bool)
    requires
        old(gs).wf(),
        dir_movable(old(gs).board(), d),
    ensures
        final(gs).wf(),
        went_on ==> val_sum(final(gs).board()) > val_sum(old(gs).board()),
        !went_on ==> !has_empty(final(gs).board()) && !below_cap(final(gs).board()),
{
    gs.do_move(d);
    // a legal move frees a cell whenever every exponent has room to double;
    // only a board locked at the representation's ceiling fails the guard,
    // and the run stops rather than spin on it
    if gs.has_open_cell() {
        let ghost mid = gs.board();
        gs.spawn_tile();
        proof {
            let i = choose|i: int|
                0 <= i < 16 && mid[i] is None && (gs.board() == mid.update(i, Option::Some(1nat))
                    || gs.board() == mid.update(i, Option::Some(2nat)));
            if gs.board() == mid.update(i, Option::Some(1nat)) {
                lemma_val_sum_update(mid, i, Option::Some(1nat));
            } else {
                lemma_val_sum_update(mid, i, Option::Some(2nat));
            }
            lemma2_to64();
        }
        true
    } else {
        false
    }
}

/// Play a fixed priority order - Up, Right, Left, Down - until no direction
/// is legal.
pub fn solver_up_right_left_down(gs: &mut GameState)
    requires
        old(gs).wf(),
    ensures
        final(gs).wf(),
        stuck(final(gs).board()) || (!has_empty(final(gs).board()) && !below_cap(
            final(gs).board(),
        )),
{
    let mut going: bool = true;
    while going && !gs.lost()
        invariant
            gs.wf(),
            !going ==> !has_empty(gs.board()) && !below_cap(gs.board()),
        decreases phase(going), sum_roof() - val_sum(gs.board()),
    {
        proof {
            lemma_not_stuck_case(gs.board());
            lemma_val_sum_bound(gs.board());
        }
        let d = first_legal(
            gs,
            Direction::Up,
            Direction::Right,
            Direction::Left,
            Direction::Down,
        );
        going = play_round(gs, d);
        proof {
            lemma_val_sum_bound(gs.board());
        }
    }
}

/// Play toward a snake-like fill: while the top row can still shift, prefer
/// Left before Right; once only the second row can, swap the two, and fall
/// back to the default order otherwise.
pub fn solver_snake(gs: &mut GameState)
    requires
        old(gs).wf(),
    ensures
        final(gs).wf(),
        stuck(final(gs).board()) || (!has_empty(final(gs).board()) && !below_cap(
            final(gs).board(),
        )),
{
    let mut going: bool = true;
    while going && !gs.lost()
        invariant
            gs.wf(),
            !going ==> !has_empty(gs.board()) && !below_cap(gs.board()),
        decreases phase(going), sum_roof() - val_sum(gs.board()),
    {
        proof {
            lemma_not_stuck_case(gs.board());
            lemma_val_sum_bound(gs.board());
        }
        let d = if gs.can_move_row(0) {
            first_legal(gs, Direction::Up, Direction::Left, Direction::Right, Direction::Down)
        } else if gs.can_move_row(1) {
            first_legal(gs, Direction::Up, Direction::Right, Direction::Left, Direction::Down)
        } else {
            first_legal(gs, Direction::Up, Direction::Left, Direction::Right, Direction::Down)
        };
        going = play_round(gs, d);
        proof {
            lemma_val_sum_bound(gs.board());
        }
    }
}

} // verus!
