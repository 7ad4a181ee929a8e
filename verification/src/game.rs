//! The board: a 4x4 grid of optional tiles plus the generator that spawns
//! new ones, with the move, movability, spawn and query operations.

use vstd::prelude::*;

use crate::rng;
use crate::sem::below_cap;
use crate::sem::cell_filled;
use crate::sem::cell_val;
use crate::sem::cells_ok;
use crate::sem::count_filled;
use crate::sem::dir_movable;
use crate::sem::exps_view;
use crate::sem::has_empty;
use crate::sem::empties_upto;
use crate::sem::lemma_count_all_none;
use crate::sem::lemma_count_positive_has_tile;
use crate::sem::lemma_count_row_partition;
use crate::sem::lemma_mixed_line_movable;
use crate::sem::lemma_empties_upto_facts;
use crate::sem::lemma_idx_decompose;
use crate::sem::lemma_line_idx_range;
use crate::sem::lemma_line_unfold;
use crate::sem::lemma_val_sum_update;
use crate::sem::line_idx;
use crate::sem::line_movable;
use crate::sem::line_of;
use crate::sem::line_seq;
use crate::sem::moved_board;
use crate::sem::moved_line;
use crate::sem::pos_of;
use crate::sem::stuck;
use crate::sem::transform_line;
use crate::sem::line_movable_exec;
use crate::sem::lemma_pow2_injective;
use crate::sem::u32_cell;
use crate::sem::val_sum;
use crate::sem::Direction;
use crate::tile::Tile;
use vstd::arithmetic::power2::lemma2_to64;
use vstd::arithmetic::power2::lemma_pow2_strictly_increases;
use vstd::arithmetic::power2::lemma_pow2_unfold;
use vstd::arithmetic::power2::pow2;

verus! {

/// The spec view of one stored cell.
pub open spec fn cell_of(c: Option<Tile>) -> Option<nat> {
    match c {
        Option::Some(t) => Option::Some(t.exp()),
        Option::None => Option::None,
    }
}

/// A literal board entry: -1 marks an empty cell, anything else must be an
/// exact power of two between 2 and 2^30.
pub open spec fn list_cell_ok(v: i32) -> bool {
    v == -1 || exists|e: nat| 1 <= e <= 30 && pow2(e) as int == v as int
}

/// The cell a literal board entry stands for.
pub open spec fn literal_cell(v: i32) -> Option<nat> {
    if v == -1 {
        Option::None
    } else {
        Option::Some(choose|e: nat| 1 <= e <= 30 && pow2(e) as int == v as int)
    }
}

/// The literal board entry a cell reads back as: the displayed value of its
/// tile, or -1 when empty.
pub open spec fn cell_as_literal(c: Option<nat>) -> int {
    match c {
        Option::Some(e) => pow2(e) as int,
        Option::None => -1,
    }
}

/// A game in progress: the 16-cell grid, row-major, and the random generator
/// used for spawning. Cloning gives an equal board for snapshots; the
/// generator runs on independently in each copy.
pub struct GameState {
    nums: Vec<Option<Tile>>,
    rng: rand::rngs::StdRng,
}

impl GameState {
    /// The board as the model sees it: 16 cells, each empty or holding the
    /// exponent of its tile.
    pub closed spec fn board(&self) -> Seq<Option<nat>> {
        self.nums@.map_values(|c: Option<Tile>| cell_of(c))
    }

    /// Well-formed: 16 cells, every tile's exponent positive and within the
    /// `u32` representation, as stored tiles always are.
    pub open spec fn wf(&self) -> bool {
        self.board().len() == 16 && cells_ok(self.board()) && crate::sem::cells_fit(self.board())
    }

    fn cell(&self, idx: usize) -> (r: Option<u32>)
        requires
            self.wf(),
            idx < 16,
        ensures
            u32_cell(r) == self.board()[idx as int],
    {
        match self.nums[idx] {
            Option::Some(t) => Option::Some(t.exponent()),
            Option::None => Option::None,
        }
    }

    fn put(&mut self, idx: usize, c: Option<u32>)
        requires
            old(self).wf(),
            idx < 16,
            c matches Option::Some(e) ==> e >= 1,
        ensures
            final(self).wf(),
            final(self).board() == old(self).board().update(idx as int, u32_cell(c)),
    {
        let t: Option<Tile> = match c {
            Option::Some(e) => Option::Some(Tile::of_exp(e)),
            Option::None => Option::None,
        };
        self.nums.set(idx, t);
        proof {
            assert(self.board() =~= old(self).board().update(idx as int, u32_cell(c)));
        }
    }

    fn get_line(&self, dir: Direction, i: usize) -> (r: Vec<Option<u32>>)
        requires
            self.wf(),
            i < 4,
        ensures
            r@.len() == 4,
            exps_view(r@) == line_seq(self.board(), dir, i as int),
    {
        let mut r: Vec<Option<u32>> = Vec::new();
        match dir {
            Direction::Up => {
                r.push(self.cell(i));
                r.push(self.cell(i + 4));
                r.push(self.cell(i + 8));
                r.push(self.cell(i + 12));
            },
            Direction::Down => {
                r.push(self.cell(i + 12));
                r.push(self.cell(i + 8));
                r.push(self.cell(i + 4));
                r.push(self.cell(i));
            },
            Direction::Left => {
                r.push(self.cell(4 * i));
                r.push(self.cell(4 * i + 1));
                r.push(self.cell(4 * i + 2));
                r.push(self.cell(4 * i + 3));
            },
            Direction::Right => {
                r.push(self.cell(4 * i + 3));
                r.push(self.cell(4 * i + 2));
                r.push(self.cell(4 * i + 1));
                r.push(self.cell(4 * i));
            },
        }
        proof {
            assert(exps_view(r@) =~= line_seq(self.board(), dir, i as int));
        }
        r
    }

    fn set_line(&mut self, dir: Direction, i: usize, vals: &Vec<Option<u32>>)
        requires
            old(self).wf(),
            i < 4,
            vals@.len() == 4,
            cells_ok(exps_view(vals@)),
        ensures
            final(self).wf(),
            forall|p: int|
                0 <= p < 4 ==> final(self).board()[line_idx(dir, i as int, p)] == exps_view(
                    vals@,
                )[p],
            forall|idx: int|
                0 <= idx < 16 && line_of(dir, idx) != i as int ==> final(self).board()[idx] == old(
                    self,
                ).board()[idx],
    {
        proof {
            assert forall|p: int| 0 <= p < 4 implies ((#[trigger] vals@[p]) matches Option::Some(e)
                ==> e >= 1) by {
                assert(exps_view(vals@)[p] == u32_cell(vals@[p]));
            }
        }
        match dir {
            Direction::Up => {
                self.put(i, vals[0]);
                self.put(i + 4, vals[1]);
                self.put(i + 8, vals[2]);
                self.put(i + 12, vals[3]);
            },
            Direction::Down => {
                self.put(i + 12, vals[0]);
                self.put(i + 8, vals[1]);
                self.put(i + 4, vals[2]);
                self.put(i, vals[3]);
            },
            Direction::Left => {
                self.put(4 * i, vals[0]);
                self.put(4 * i + 1, vals[1]);
                self.put(4 * i + 2, vals[2]);
                self.put(4 * i + 3, vals[3]);
            },
            Direction::Right => {
                self.put(4 * i + 3, vals[0]);
                self.put(4 * i + 2, vals[1]);
                self.put(4 * i + 1, vals[2]);
                self.put(4 * i, vals[3]);
            },
        }
        proof {
            assert forall|p: int| 0 <= p < 4 implies self.board()[line_idx(dir, i as int, p)]
                == exps_view(vals@)[p] by {
                lemma_line_idx_range(dir, i as int, p);
            }
            assert forall|idx: int|
                0 <= idx < 16 && line_of(dir, idx) != i as int implies self.board()[idx] == old(
                self,
            ).board()[idx] by {
                lemma_idx_decompose(dir, idx);
            }
        }
    }

    fn do_move_line(&mut self, dir: Direction, i: usize)
        requires
            old(self).wf(),
            i < 4,
        ensures
            final(self).wf(),
            forall|idx: int|
                0 <= idx < 16 && line_of(dir, idx) != i as int ==> final(self).board()[idx] == old(
                    self,
                ).board()[idx],
            below_cap(line_seq(old(self).board(), dir, i as int)) ==> forall|p: int|
                0 <= p < 4 ==> final(self).board()[line_idx(dir, i as int, p)] == moved_line(
                    line_seq(old(self).board(), dir, i as int),
                )[p],
            !line_movable(line_seq(old(self).board(), dir, i as int)) ==> final(self).board()
                == old(self).board(),
            val_sum(final(self).board()) == val_sum(old(self).board()),
            count_filled(final(self).board()) <= count_filled(old(self).board()),
            !below_cap(old(self).board()) ==> !below_cap(final(self).board()),
    {
        let ghost b0 = self.board();
        let ghost s = line_seq(b0, dir, i as int);
        proof {
            assert forall|p: int| 0 <= p < 4 implies 0 <= #[trigger] line_idx(dir, i as int, p)
                < 16 by {
                lemma_line_idx_range(dir, i as int, p);
            }
            assert(cells_ok(s));
        }
        let line = self.get_line(dir, i);
        let out = transform_line(&line);
        self.set_line(dir, i, &out);
        let ghost w = exps_view(out@);
        proof {
            let a0 = line_idx(dir, i as int, 0);
            let a1 = line_idx(dir, i as int, 1);
            let a2 = line_idx(dir, i as int, 2);
            let a3 = line_idx(dir, i as int, 3);
            lemma_line_idx_range(dir, i as int, 0);
            lemma_line_idx_range(dir, i as int, 1);
            lemma_line_idx_range(dir, i as int, 2);
            lemma_line_idx_range(dir, i as int, 3);
            // the new board is the old one with the four line cells replaced
            let b1 = b0.update(a0, w[0]);
            let b2 = b1.update(a1, w[1]);
            let b3 = b2.update(a2, w[2]);
            let b4 = b3.update(a3, w[3]);
            assert forall|idx: int| 0 <= idx < 16 implies self.board()[idx] == b4[idx] by {
                lemma_idx_decompose(dir, idx);
                if line_of(dir, idx) == i as int {
                    let p = pos_of(dir, idx);
                    assert(idx == line_idx(dir, i as int, p));
                    assert(self.board()[idx] == w[p]);
                } else {
                    assert(self.board()[idx] == b0[idx]);
                }
            }
            assert(self.board() =~= b4);
            lemma_val_sum_update(b0, a0, w[0]);
            lemma_val_sum_update(b1, a1, w[1]);
            lemma_val_sum_update(b2, a2, w[2]);
            lemma_val_sum_update(b3, a3, w[3]);
            lemma_line_unfold(s);
            lemma_line_unfold(w);
            assert(s[0] == b0[a0] && s[1] == b0[a1] && s[2] == b0[a2] && s[3] == b0[a3]);
            assert(b1[a1] == b0[a1] && b2[a2] == b0[a2] && b3[a3] == b0[a3]);
            assert(val_sum(self.board()) == val_sum(b0) - cell_val(s[0]) - cell_val(s[1])
                - cell_val(s[2]) - cell_val(s[3]) + cell_val(w[0]) + cell_val(w[1]) + cell_val(
                w[2],
            ) + cell_val(w[3]));
            assert(count_filled(self.board()) == count_filled(b0) - cell_filled(s[0]) - cell_filled(
                s[1],
            ) - cell_filled(s[2]) - cell_filled(s[3]) + cell_filled(w[0]) + cell_filled(w[1])
                + cell_filled(w[2]) + cell_filled(w[3]));
            if !line_movable(s) {
                assert(w == s);
                assert(self.board() =~= b0);
            }
            if !below_cap(b0) {
                lemma_cap_survives_line(b0, self.board(), dir, i as int, w);
            }
        }
    }

    /// Sweep all tiles toward the named edge, merging each equal pair it
    /// meets once. On a board with no legal move along that direction this
    /// changes nothing; it never adds a tile and never changes the total of
    /// the displayed values. There is no need to check movability first.
    /// The sweep is stated exactly for every board whose exponents leave
    /// room to double once more; a pair already at the representation's
    /// ceiling is left in place rather than overflow.
    pub fn do_move(&mut self, direction: Direction)
        requires
            old(self).wf(),
        ensures
            final(self).wf(),
            val_sum(final(self).board()) == val_sum(old(self).board()),
            count_filled(final(self).board()) <= count_filled(old(self).board()),
            below_cap(old(self).board()) ==> final(self).board() == moved_board(
                old(self).board(),
                direction,
            ),
            !dir_movable(old(self).board(), direction) ==> final(self).board() == old(
                self,
            ).board(),
            (below_cap(old(self).board()) && dir_movable(old(self).board(), direction))
                ==> has_empty(final(self).board()),
            !below_cap(old(self).board()) ==> !below_cap(final(self).board()),
    {
        let ghost b0 = self.board();
        self.do_move_line(direction, 0);
        let ghost c1 = self.board();
        self.do_move_line(direction, 1);
        let ghost c2 = self.board();
        self.do_move_line(direction, 2);
        let ghost c3 = self.board();
        self.do_move_line(direction, 3);
        proof {
            // each call saw its own line exactly as the starting board had it
            assert forall|p: int| 0 <= p < 4 implies #[trigger] line_seq(c1, direction, 1)[p]
                == line_seq(b0, direction, 1)[p] by {
                lemma_line_idx_range(direction, 1, p);
            }
            assert forall|p: int| 0 <= p < 4 implies #[trigger] line_seq(c2, direction, 2)[p]
                == line_seq(b0, direction, 2)[p] by {
                lemma_line_idx_range(direction, 2, p);
            }
            assert forall|p: int| 0 <= p < 4 implies #[trigger] line_seq(c3, direction, 3)[p]
                == line_seq(b0, direction, 3)[p] by {
                lemma_line_idx_range(direction, 3, p);
            }
            assert(line_seq(c1, direction, 1) =~= line_seq(b0, direction, 1));
            assert(line_seq(c2, direction, 2) =~= line_seq(b0, direction, 2));
            assert(line_seq(c3, direction, 3) =~= line_seq(b0, direction, 3));
            if below_cap(b0) {
                assert forall|j: int| 0 <= j < 4 implies below_cap(
                    line_seq(b0, direction, j),
                ) by {
                    assert forall|p: int|
                        0 <= p < 4 implies (#[trigger] line_seq(b0, direction, j)[p])
                            matches Option::Some(e) ==> e < u32::MAX by {
                        lemma_line_idx_range(direction, j, p);
                    }
                }
                assert forall|idx: int| 0 <= idx < 16 implies self.board()[idx] == moved_board(
                    b0,
                    direction,
                )[idx] by {
                    lemma_idx_decompose(direction, idx);
                    let l = line_of(direction, idx);
                    let p = pos_of(direction, idx);
                    lemma_line_idx_range(direction, l, p);
                    assert(self.board()[idx] == moved_line(line_seq(b0, direction, l))[p]);
                }
                assert(self.board() =~= moved_board(b0, direction));
            }
            if !dir_movable(b0, direction) {
                assert(forall|j: int| 0 <= j < 4 ==> !line_movable(line_seq(b0, direction, j)));
            }
            if below_cap(b0) && dir_movable(b0, direction) {
                crate::sem::lemma_legal_move_leaves_room(b0, direction);
            }
        }
    }

    /// Whether row or column `colrow` can shift toward the `direction` edge.
    /// Reads only; no mutation, no randomness.
    pub fn can_move_colrow(&self, colrow: i32, direction: Direction) -> (r: bool)
        requires
            self.wf(),
            0 <= colrow < 4,
        ensures
            r == line_movable(line_seq(self.board(), direction, colrow as int)),
    {
        let line = self.get_line(direction, colrow as usize);
        line_movable_exec(&line)
    }

    /// Whether column `column` can shift up or down.
    pub fn can_move_col(&self, column: i32) -> (r: bool)
        requires
            self.wf(),
            0 <= column < 4,
        ensures
            r == (line_movable(line_seq(self.board(), Direction::Up, column as int))
                || line_movable(line_seq(self.board(), Direction::Down, column as int))),
    {
        self.can_move_colrow(column, Direction::Up) || self.can_move_colrow(
            column,
            Direction::Down,
        )
    }

    /// Whether row `row` can shift left or right.
    pub fn can_move_row(&self, row: i32) -> (r: bool)
        requires
            self.wf(),
            0 <= row < 4,
        ensures
            r == (line_movable(line_seq(self.board(), Direction::Left, row as int))
                || line_movable(line_seq(self.board(), Direction::Right, row as int))),
    {
        self.can_move_colrow(row, Direction::Left) || self.can_move_colrow(row, Direction::Right)
    }

    /// Whether any line can shift toward the `direction` edge. Reads only.
    pub fn can_move(&self, direction: Direction) -> (r: bool)
        requires
            self.wf(),
        ensures
            r == dir_movable(self.board(), direction),
    {
        let r = self.can_move_colrow(0, direction) || self.can_move_colrow(1, direction)
            || self.can_move_colrow(2, direction) || self.can_move_colrow(3, direction);
        proof {
            if !r {
                assert forall|i: int| 0 <= i < 4 implies !line_movable(
                    line_seq(self.board(), direction, i),
                ) by {
                    assert(i == 0 || i == 1 || i == 2 || i == 3);
                }
            }
        }
        r
    }

    /// The game is over exactly when none of the four directions yields a
    /// legal move.
    pub fn lost(&self) -> (r: bool)
        requires
            self.wf(),
        ensures
            r == stuck(self.board()),
    {
        let r = !self.can_move(Direction::Up) && !self.can_move(Direction::Down) && !self.can_move(
            Direction::Left,
        ) && !self.can_move(Direction::Right);
        proof {
            if r {
                assert forall|d: Direction| !dir_movable(self.board(), d) by {
                    match d {
                        Direction::Up => {},
                        Direction::Down => {},
                        Direction::Left => {},
                        Direction::Right => {},
                    }
                }
            }
        }
        r
    }

    /// Whether some cell is still empty, so a tile could be spawned.
    pub fn has_open_cell(&self) -> (r: bool)
        requires
            self.wf(),
        ensures
            r == has_empty(self.board()),
    {
        let ghost b = self.board();
        let mut k: usize = 0;
        while k < 16
            invariant
                self.wf(),
                b == self.board(),
                k <= 16,
                forall|i: int| 0 <= i < k ==> !((#[trigger] b[i]) is None),
            decreases 16 - k,
        {
            if self.cell(k).is_none() {
                return true;
            }
            k += 1;
        }
        false
    }

    /// One uniformly random open cell, or nothing on a full board. Only the
    /// generator state changes.
    fn random_open_tile(&mut self) -> (r: Option<usize>)
        requires
            old(self).wf(),
        ensures
            final(self).wf(),
            final(self).board() == old(self).board(),
            (r is Some) == has_empty(old(self).board()),
            r matches Option::Some(i) ==> i < 16 && old(self).board()[i as int] is None,
    {
        let ghost b = self.board();
        let mut open: usize = 0;
        let mut k: usize = 0;
        while k < 16
            invariant
                self.wf(),
                b == self.board(),
                b == old(self).board(),
                self == old(self),
                k <= 16,
                open as int == empties_upto(b, k as int),
                open <= k,
            decreases 16 - k,
        {
            proof {
                lemma_empties_upto_facts(b, k as int);
            }
            if self.cell(k).is_none() {
                open = open + 1;
            }
            k += 1;
        }
        proof {
            lemma_empties_upto_facts(b, 16);
        }
        if open == 0 {
            Option::None
        } else {
            let t = rng::rand_below(&mut self.rng, open);
            let ghost target = t as int;
            let mut idx: usize = 0;
            let mut seen: usize = 0;
            while idx < 16
                invariant
                    self.wf(),
                    b == self.board(),
                    b == old(self).board(),
                    idx <= 16,
                    seen as int == empties_upto(b, idx as int),
                    seen <= t,
                    t < open,
                    open as int == empties_upto(b, 16),
                decreases 16 - idx,
            {
                if self.cell(idx).is_none() {
                    if seen == t {
                        return Option::Some(idx);
                    }
                    seen = seen + 1;
                }
                idx += 1;
            }
            proof {
                assert(seen as int == empties_upto(b, 16));
                assert(false);
            }
            Option::None
        }
    }

    /// Place a new tile on a uniformly chosen open cell: value 2 with a
    /// 9-in-10 chance, 4 otherwise. Exactly one previously empty cell
    /// changes; the board must have one.
    pub fn spawn_tile(&mut self)
        requires
            old(self).wf(),
            has_empty(old(self).board()),
        ensures
            final(self).wf(),
            exists|i: int|
                0 <= i < 16 && (#[trigger] old(self).board()[i]) is None && (final(self).board()
                    == old(self).board().update(i, Option::Some(1nat)) || final(self).board()
                    == old(self).board().update(i, Option::Some(2nat))),
    {
        let t = self.random_open_tile();
        match t {
            Option::Some(i) => {
                let e: u32 = if rng::rand_ratio(&mut self.rng, 9, 10) {
                    1
                } else {
                    2
                };
                self.put(i, Option::Some(e));
                proof {
                    assert(old(self).board()[i as int] is None);
                }
            },
            Option::None => {
                proof {
                    assert(false);
                }
            },
        }
    }

    /// Place a new tile as `spawn_tile` does, but draw one open cell per
    /// direction and keep the draw belonging to the move just played: a
    /// seeded game replays identically move for move, at the cost of four
    /// draws per spawn.
    pub fn spawn_tile_with_dir(&mut self, dir: Direction)
        requires
            old(self).wf(),
            has_empty(old(self).board()),
        ensures
            final(self).wf(),
            exists|i: int|
                0 <= i < 16 && (#[trigger] old(self).board()[i]) is None && (final(self).board()
                    == old(self).board().update(i, Option::Some(1nat)) || final(self).board()
                    == old(self).board().update(i, Option::Some(2nat))),
    {
        let r0 = self.random_open_tile();
        let r1 = self.random_open_tile();
        let r2 = self.random_open_tile();
        let r3 = self.random_open_tile();
        let t = match dir {
            Direction::Up => r0,
            Direction::Down => r1,
            Direction::Left => r2,
            Direction::Right => r3,
        };
        match t {
            Option::Some(i) => {
                let e: u32 = if rng::rand_ratio(&mut self.rng, 9, 10) {
                    1
                } else {
                    2
                };
                self.put(i, Option::Some(e));
                proof {
                    assert(old(self).board()[i as int] is None);
                }
            },
            Option::None => {
                proof {
                    assert(false);
                }
            },
        }
    }

    /// A fresh board: all 16 cells empty, then two spawned tiles. With only
    /// two tiles on sixteen cells the starting state is never terminal.
    fn new(generator: rand::rngs::StdRng) -> (s: Self)
        ensures
            s.wf(),
            count_filled(s.board()) == 2,
            forall|i: int|
                0 <= i < 16 ==> ((#[trigger] s.board()[i]) matches Option::Some(e) ==> 1 <= e
                    <= 2),
            !stuck(s.board()),
    {
        let mut nums: Vec<Option<Tile>> = Vec::new();
        let mut k: usize = 0;
        while k < 16
            invariant
                nums@.len() == k,
                k <= 16,
                forall|q: int| 0 <= q < k ==> (#[trigger] nums@[q]) is None,
            decreases 16 - k,
        {
            nums.push(Option::None);
            k += 1;
        }
        let mut s = GameState { nums, rng: generator };
        let ghost b0 = s.board();
        proof {
            assert(forall|i: int| 0 <= i < 16 ==> (#[trigger] b0[i]) is None);
            lemma_count_all_none(b0);
            assert(b0[0] is None);
        }
        s.spawn_tile();
        let ghost b1 = s.board();
        proof {
            let i = choose|i: int|
                0 <= i < 16 && b0[i] is None && (b1 == b0.update(i, Option::Some(1nat)) || b1
                    == b0.update(i, Option::Some(2nat)));
            if i == 0 {
                assert(b1[1] is None);
            } else {
                assert(b1[0] is None);
            }
            if b1 == b0.update(i, Option::Some(1nat)) {
                lemma_val_sum_update(b0, i, Option::Some(1nat));
            } else {
                lemma_val_sum_update(b0, i, Option::Some(2nat));
            }
        }
        s.spawn_tile();
        proof {
            let b2 = s.board();
            let i1 = choose|i: int|
                0 <= i < 16 && b0[i] is None && (b1 == b0.update(i, Option::Some(1nat)) || b1
                    == b0.update(i, Option::Some(2nat)));
            let i2 = choose|i: int|
                0 <= i < 16 && b1[i] is None && (b2 == b1.update(i, Option::Some(1nat)) || b2
                    == b1.update(i, Option::Some(2nat)));
            if b2 == b1.update(i2, Option::Some(1nat)) {
                lemma_val_sum_update(b1, i2, Option::Some(1nat));
            } else {
                lemma_val_sum_update(b1, i2, Option::Some(2nat));
            }
        }
        proof {
            lemma_two_tiles_not_stuck(s.board());
        }
        s
    }

    /// A fresh board whose spawns replay identically for the same seed.
    pub fn new_from_seed(seed: u64) -> (s: Self)
        ensures
            s.wf(),
            count_filled(s.board()) == 2,
            forall|i: int|
                0 <= i < 16 ==> ((#[trigger] s.board()[i]) matches Option::Some(e) ==> 1 <= e
                    <= 2),
            !stuck(s.board()),
    {
        Self::new(rng::rng_from_seed(seed))
    }

    /// A fresh board seeded from operating-system entropy.
    pub fn new_from_entropy() -> (s: Self)
        ensures
            s.wf(),
            count_filled(s.board()) == 2,
            forall|i: int|
                0 <= i < 16 ==> ((#[trigger] s.board()[i]) matches Option::Some(e) ==> 1 <= e
                    <= 2),
            !stuck(s.board()),
    {
        Self::new(rng::rng_from_entropy())
    }
}

/// A board with tiles on at most two cells always has a legal move: some
/// row holds a tile beside room to shift into.
proof fn lemma_two_tiles_not_stuck(b: Seq<Option<nat>>)
    requires
        b.len() == 16,
        0 < count_filled(b) <= 2,
    ensures
        !stuck(b),
{
    lemma_count_positive_has_tile(b);
    let i = choose|i: int| 0 <= i < 16 && (#[trigger] b[i]) is Some;
    let r = i / 4;
    let c = i % 4;
    let fwd = line_seq(b, Direction::Left, r);
    let rev = line_seq(b, Direction::Right, r);
    lemma_count_row_partition(b);
    crate::sem::lemma_count_bounds(line_seq(b, Direction::Left, 0));
    crate::sem::lemma_count_bounds(line_seq(b, Direction::Left, 1));
    crate::sem::lemma_count_bounds(line_seq(b, Direction::Left, 2));
    crate::sem::lemma_count_bounds(line_seq(b, Direction::Left, 3));
    assert(count_filled(fwd) <= 2);
    assert(4 * r + c == i);
    assert(fwd[c] == b[i]);
    lemma_line_unfold(fwd);
    if fwd[0] is Some && fwd[1] is Some && fwd[2] is Some && fwd[3] is Some {
        assert(count_filled(fwd) == 4);
        assert(false);
    }
    assert forall|p: int| 0 <= p < 4 implies #[trigger] rev[p] == fwd[3 - p] by {
        assert(rev[p] == b[4 * r + 3 - p]);
        assert(fwd[3 - p] == b[4 * r + 3 - p]);
    }
    lemma_mixed_line_movable(fwd, rev);
    assert(dir_movable(b, Direction::Left) || dir_movable(b, Direction::Right));
}

impl GameState {
    /// The grid as four rows of four cells, a read-only snapshot for
    /// rendering or persisting: row `i`, column `j` is board cell `4*i + j`.
    pub fn rows(&self) -> (r: [[Option<Tile>; 4]; 4])
        requires
            self.wf(),
        ensures
            forall|i: int, j: int|
                0 <= i < 4 && 0 <= j < 4 ==> cell_of(#[trigger] r@[i]@[j]) == self.board()[4 * i
                    + j],
    {
        let r0: [Option<Tile>; 4] = [self.nums[0], self.nums[1], self.nums[2], self.nums[3]];
        let r1: [Option<Tile>; 4] = [self.nums[4], self.nums[5], self.nums[6], self.nums[7]];
        let r2: [Option<Tile>; 4] = [self.nums[8], self.nums[9], self.nums[10], self.nums[11]];
        let r3: [Option<Tile>; 4] = [self.nums[12], self.nums[13], self.nums[14], self.nums[15]];
        let r: [[Option<Tile>; 4]; 4] = [r0, r1, r2, r3];
        r
    }

    /// A board read off a flat 16-entry literal, row-major: -1 for an empty
    /// cell, an exact power of two (at least 2) for a tile. Chiefly for
    /// laying out fixture boards.
    pub fn from_list(arg: [i32; 16]) -> (s: Self)
        requires
            forall|i: int| 0 <= i < 16 ==> list_cell_ok(#[trigger] arg@[i]),
        ensures
            s.wf(),
            forall|i: int| 0 <= i < 16 ==> s.board()[i] == literal_cell(#[trigger] arg@[i]),
    {
        let mut nums: Vec<Option<Tile>> = Vec::new();
        let mut k: usize = 0;
        while k < 16
            invariant
                forall|i: int| 0 <= i < 16 ==> list_cell_ok(#[trigger] arg@[i]),
                nums@.len() == k,
                k <= 16,
                forall|q: int| 0 <= q < k ==> cell_of(#[trigger] nums@[q]) == literal_cell(arg@[q]),
            decreases 16 - k,
        {
            let v = arg[k];
            if v == -1 {
                nums.push(Option::None);
            } else {
                let ghost w = choose|e: nat| 1 <= e <= 30 && pow2(e) as int == v as int;
                let mut e: u32 = 0;
                let mut p: i32 = 1;
                proof {
                    lemma2_to64();
                    lemma_pow2_strictly_increases(0, w);
                }
                while p < v
                    invariant
                        1 <= w <= 30,
                        pow2(w) as int == v as int,
                        e as nat <= w,
                        1 <= p,
                        p as int == pow2(e as nat) as int,
                    decreases v - p,
                {
                    proof {
                        if (e as nat) == w {
                            assert(false);
                        }
                        lemma_pow2_unfold(((e as nat) + 1) as nat);
                        if ((e as nat) + 1) < w {
                            lemma_pow2_strictly_increases(((e as nat) + 1) as nat, w);
                        }
                        lemma_pow2_strictly_increases(e as nat, w);
                    }
                    p = p * 2;
                    e = e + 1;
                }
                proof {
                    if (e as nat) < w {
                        lemma_pow2_strictly_increases(e as nat, w);
                        assert(false);
                    }
                    assert(e as nat == w);
                }
                nums.push(Option::Some(Tile::of_exp(e)));
                proof {
                    let w2 = choose|e2: nat| 1 <= e2 <= 30 && pow2(e2) as int == v as int;
                    lemma_pow2_injective(w, w2);
                }
            }
            k += 1;
        }
        let s = GameState { nums, rng: rng::rng_from_entropy() };
        proof {
            assert forall|i: int| 0 <= i < 16 implies s.board()[i] == literal_cell(
                #[trigger] arg@[i],
            ) by {
                assert(cell_of(s.nums@[i]) == literal_cell(arg@[i]));
            }
            assert forall|i: int|
                0 <= i < 16 implies ((#[trigger] s.board()[i]) matches Option::Some(e) ==> e
                >= 1) by {
                if s.board()[i] is Some {
                    assert(literal_cell(arg@[i]) is Some);
                    assert(arg@[i] != -1);
                }
            }
        }
        s
    }

    /// The highest displayed tile value on the board, which must hold at
    /// least one tile whose value fits the result.
    pub fn max(&self) -> (r: u32)
        requires
            self.wf(),
            exists|i: int| 0 <= i < 16 && (#[trigger] self.board()[i]) is Some,
            forall|i: int|
                0 <= i < 16 ==> ((#[trigger] self.board()[i]) matches Option::Some(e) ==> e <= 31),
        ensures
            exists|i: int|
                0 <= i < 16 && ((#[trigger] self.board()[i]) matches Option::Some(e) && r as nat
                    == pow2(e)),
            forall|i: int|
                0 <= i < 16 ==> ((#[trigger] self.board()[i]) matches Option::Some(e) ==> pow2(e)
                    <= r as nat),
    {
        let ghost b = self.board();
        let mut best: Option<u32> = Option::None;
        let mut k: usize = 0;
        while k < 16
            invariant
                self.wf(),
                b == self.board(),
                k <= 16,
                forall|i: int|
                    0 <= i < 16 ==> ((#[trigger] b[i]) matches Option::Some(e) ==> e <= 31),
                best matches Option::Some(be) ==> exists|i: int|
                    0 <= i < 16 && #[trigger] b[i] == Option::Some(be as nat),
                forall|i: int|
                    0 <= i < k ==> ((#[trigger] b[i]) matches Option::Some(e) ==> best
                        matches Option::Some(be) && e <= be as nat),
            decreases 16 - k,
        {
            match self.cell(k) {
                Option::Some(e) => {
                    match best {
                        Option::None => {
                            best = Option::Some(e);
                        },
                        Option::Some(cur) => {
                            if e > cur {
                                best = Option::Some(e);
                            }
                        },
                    }
                },
                Option::None => {},
            }
            k += 1;
        }
        match best {
            Option::Some(e) => {
                proof {
                    assert(e >= 1 && e <= 31) by {
                        let i = choose|i: int|
                            0 <= i < 16 && #[trigger] b[i] == Option::Some(e as nat);
                        assert(b[i] matches Option::Some(x) ==> 1 <= x <= 31);
                    }
                }
                let t = Tile::of_exp(e);
                let r = t.as_u32();
                proof {
                    assert forall|i: int|
                        0 <= i < 16 implies ((#[trigger] b[i]) matches Option::Some(x) ==> pow2(x)
                        <= r as nat) by {
                        if b[i] is Some {
                            let x = b[i]->Some_0;
                            if x < e as nat {
                                lemma_pow2_strictly_increases(x, e as nat);
                            }
                        }
                    }
                }
                r
            },
            Option::None => {
                proof {
                    let i = choose|i: int| 0 <= i < 16 && (#[trigger] b[i]) is Some;
                    assert(false);
                }
                0
            },
        }
    }

    /// The board's score: the sum of all displayed tile values. Every
    /// exponent must fit the `u32` tile representation.
    pub fn score(&self) -> (r: u64)
        requires
            self.wf(),
            forall|i: int|
                0 <= i < 16 ==> ((#[trigger] self.board()[i]) matches Option::Some(e) ==> e <= 31),
        ensures
            r as nat == val_sum(self.board()),
    {
        let ghost b = self.board();
        let mut acc: u64 = 0;
        let mut k: usize = 0;
        while k < 16
            invariant
                self.wf(),
                b == self.board(),
                k <= 16,
                forall|i: int|
                    0 <= i < 16 ==> ((#[trigger] b[i]) matches Option::Some(e) ==> e <= 31),
                acc as nat == val_sum(b.take(k as int)),
                acc <= k * 0x8000_0000,
            decreases 16 - k,
        {
            proof {
                crate::sem::lemma_val_sum_snoc(b.take(k as int), b[k as int]);
                assert(b.take(k as int).push(b[k as int]) =~= b.take(k as int + 1));
            }
            match self.cell(k) {
                Option::Some(e) => {
                    let t = Tile::of_exp(e);
                    let v = t.as_u32();
                    proof {
                        if (e as nat) < 31 {
                            lemma_pow2_strictly_increases(e as nat, 31);
                        }
                        lemma2_to64();
                    }
                    acc = acc + (v as u64);
                },
                Option::None => {},
            }
            k += 1;
        }
        proof {
            assert(b.take(16) =~= b);
        }
        acc
    }
}

impl Clone for GameState {
    /// An equal board, for snapshots a driver keeps to offer undo. The
    /// generator state is duplicated and runs on independently in each copy.
    fn clone(&self) -> (r: Self)
        ensures
            r.board() == self.board(),
    {
        let mut nums2: Vec<Option<Tile>> = Vec::new();
        let mut k: usize = 0;
        while k < self.nums.len()
            invariant
                k <= self.nums@.len(),
                nums2@.len() == k,
                forall|q: int| 0 <= q < k ==> nums2@[q] == self.nums@[q],
            decreases self.nums@.len() - k,
        {
            nums2.push(self.nums[k]);
            k += 1;
        }
        let r = GameState { nums: nums2, rng: rng::rng_clone(&self.rng) };
        proof {
            assert(r.nums@ =~= self.nums@);
            assert(r.board() =~= self.board());
        }
        r
    }
}

/// A tile at the representation's ceiling survives a per-line rewrite that
/// leaves the other lines alone and keeps a ceiling tile of its own line.
proof fn lemma_cap_survives_line(
    b0: Seq<Option<nat>>,
    b1: Seq<Option<nat>>,
    dir: Direction,
    i: int,
    w: Seq<Option<nat>>,
)
    requires
        b0.len() == 16,
        b1.len() == 16,
        crate::sem::cells_fit(b0),
        0 <= i < 4,
        w.len() == 4,
        forall|idx: int| 0 <= idx < 16 && line_of(dir, idx) != i ==> b1[idx] == b0[idx],
        forall|p: int| 0 <= p < 4 ==> b1[line_idx(dir, i, p)] == w[p],
        (exists|p: int|
            0 <= p < 4 && #[trigger] line_seq(b0, dir, i)[p] == Option::Some(u32::MAX as nat))
            ==> (exists|p: int|
            0 <= p < 4 && #[trigger] w[p] == Option::Some(u32::MAX as nat)),
        !below_cap(b0),
    ensures
        !below_cap(b1),
{
    let idx = choose|idx: int|
        0 <= idx < 16 && ((#[trigger] b0[idx]) matches Option::Some(e) && e >= u32::MAX);
    lemma_idx_decompose(dir, idx);
    if line_of(dir, idx) == i {
        let q = pos_of(dir, idx);
        assert(line_seq(b0, dir, i)[q] == Option::Some(u32::MAX as nat));
        let p = choose|p: int| 0 <= p < 4 && #[trigger] w[p] == Option::Some(u32::MAX as nat);
        lemma_line_idx_range(dir, i, p);
        assert(b1[line_idx(dir, i, p)] == Option::Some(u32::MAX as nat));
    } else {
        assert(b1[idx] == b0[idx]);
    }
}

} // verus!