//! The mathematical model of the board: cells as optional exponents,
//! line extraction per direction, movability, and the slide/merge semantics.

use vstd::prelude::*;
use vstd::arithmetic::power2::pow2;
use vstd::arithmetic::power2::lemma_pow2_unfold;

verus! {

/// One of the four axes along which a move sweeps tiles toward the named edge.
#[derive(Debug, Copy, Clone)]
pub enum Direction {
    Up,
    Down,
    Left,
    Right,
}

// ---------------------------------------------------------------------------
// Cells. A cell is empty or holds a tile, modelled by its exponent (>= 1);
// the displayed value of a tile with exponent e is 2^e.
// ---------------------------------------------------------------------------

/// The displayed value of a cell: 2^exponent for a tile, 0 for an empty cell.
pub open spec fn cell_val(c: Option<nat>) -> nat {
    match c {
        Option::Some(e) => pow2(e),
        Option::None => 0,
    }
}

/// 1 for an occupied cell, 0 for an empty one.
pub open spec fn cell_filled(c: Option<nat>) -> int {
    match c {
        Option::Some(_) => 1,
        Option::None => 0,
    }
}

/// Every tile of the sequence has a positive exponent.
pub open spec fn cells_ok(b: Seq<Option<nat>>) -> bool {
    forall|i: int| 0 <= i < b.len() ==> (#[trigger] b[i] matches Option::Some(e) ==> e >= 1)
}

/// Every tile's exponent stays below the largest representable one, so a
/// merge can still raise it by one.
pub open spec fn below_cap(b: Seq<Option<nat>>) -> bool {
    forall|i: int| 0 <= i < b.len() ==> (#[trigger] b[i] matches Option::Some(e) ==> e < u32::MAX)
}

/// Every tile's exponent fits the `u32` representation, as stored tiles
/// always do.
pub open spec fn cells_fit(b: Seq<Option<nat>>) -> bool {
    forall|i: int| 0 <= i < b.len() ==> (#[trigger] b[i] matches Option::Some(e) ==> e <= u32::MAX)
}

/// Sum of the displayed values of all cells.
pub open spec fn val_sum(b: Seq<Option<nat>>) -> nat
    decreases b.len(),
{
    if b.len() == 0 {
        0
    } else {
        cell_val(b[0]) + val_sum(b.drop_first())
    }
}

/// Number of occupied cells.
pub open spec fn count_filled(b: Seq<Option<nat>>) -> int
    decreases b.len(),
{
    if b.len() == 0 {
        0
    } else {
        cell_filled(b[0]) + count_filled(b.drop_first())
    }
}

/// Some cell of the board is empty.
pub open spec fn has_empty(b: Seq<Option<nat>>) -> bool {
    exists|i: int| 0 <= i < b.len() && b[i] is None
}

/// The exponent of one plain `u32` cell, as the model sees it.
pub open spec fn u32_cell(c: Option<u32>) -> Option<nat> {
    match c {
        Option::Some(e) => Option::Some(e as nat),
        Option::None => Option::None,
    }
}

/// The exponents of a sequence of plain `u32` cells, as the model sees them.
pub open spec fn exps_view(v: Seq<Option<u32>>) -> Seq<Option<nat>> {
    v.map_values(|c: Option<u32>| u32_cell(c))
}

// ---------------------------------------------------------------------------
// Lines. A move works on the 4 lines parallel to its direction; position 0 of
// a line is the cell at the edge the tiles move toward.
// ---------------------------------------------------------------------------

/// Board index of position `p` of line `i`, both in 0..4, for a move along `dir`.
pub open spec fn line_idx(dir: Direction, i: int, p: int) -> int {
    match dir {
        Direction::Up => i + 4 * p,
        Direction::Down => i + 12 - 4 * p,
        Direction::Left => 4 * i + p,
        Direction::Right => 4 * i + 3 - p,
    }
}

/// Which line of `dir` a board index lies on.
pub open spec fn line_of(dir: Direction, idx: int) -> int {
    match dir {
        Direction::Up | Direction::Down => idx % 4,
        Direction::Left | Direction::Right => idx / 4,
    }
}

/// Which position of its line a board index is.
pub open spec fn pos_of(dir: Direction, idx: int) -> int {
    match dir {
        Direction::Up => idx / 4,
        Direction::Down => 3 - idx / 4,
        Direction::Left => idx % 4,
        Direction::Right => 3 - idx % 4,
    }
}

/// Line `i` of the board for a move along `dir`, nearest-to-edge first.
pub open spec fn line_seq(b: Seq<Option<nat>>, dir: Direction, i: int) -> Seq<Option<nat>> {
    Seq::new(4, |p: int| b[line_idx(dir, i, p)])
}

/// The 16 board indices split into 4 disjoint lines of 4: `line_idx` maps a
/// line and a position into the board, and `line_of`/`pos_of` invert it.
pub proof fn lemma_line_idx_range(dir: Direction, i: int, p: int)
    requires
        0 <= i < 4,
        0 <= p < 4,
    ensures
        0 <= line_idx(dir, i, p) < 16,
        line_of(dir, line_idx(dir, i, p)) == i,
        pos_of(dir, line_idx(dir, i, p)) == p,
{
    match dir {
        Direction::Up => {
            assert((i + 4 * p) % 4 == i);
            assert((i + 4 * p) / 4 == p);
        },
        Direction::Down => {
            assert((i + 12 - 4 * p) % 4 == i);
            assert((i + 12 - 4 * p) / 4 == 3 - p);
        },
        Direction::Left => {
            assert((4 * i + p) / 4 == i);
            assert((4 * i + p) % 4 == p);
        },
        Direction::Right => {
            assert((4 * i + 3 - p) / 4 == i);
            assert((4 * i + 3 - p) % 4 == 3 - p);
        },
    }
}

/// Every board index lies on exactly one line of a direction.
pub proof fn lemma_idx_decompose(dir: Direction, idx: int)
    requires
        0 <= idx < 16,
    ensures
        0 <= line_of(dir, idx) < 4,
        0 <= pos_of(dir, idx) < 4,
        line_idx(dir, line_of(dir, idx), pos_of(dir, idx)) == idx,
{
    match dir {
        Direction::Up => {
            assert(idx % 4 + 4 * (idx / 4) == idx);
        },
        Direction::Down => {
            assert(idx % 4 + 12 - 4 * (3 - idx / 4) == idx);
        },
        Direction::Left => {
            assert(4 * (idx / 4) + idx % 4 == idx);
        },
        Direction::Right => {
            assert(4 * (idx / 4) + 3 - (3 - idx % 4) == idx);
        },
    }
}

// ---------------------------------------------------------------------------
// Movability. A line can move when some position sees, past empty cells only,
// a farther tile that could slide into it (the position is empty) or merge
// with it (equal exponents).
// ---------------------------------------------------------------------------

/// The line can shift toward position 0.
pub open spec fn line_movable(s: Seq<Option<nat>>) -> bool
    recommends
        s.len() == 4,
{
    exists|i: int, j: int|
        0 <= i < j < 4 && (#[trigger] s[j]) is Some && (forall|m: int|
            i < m < j ==> s[m] is None) && ((#[trigger] s[i]) is None || s[i] == s[j])
}

/// Some line of the board can shift toward the `dir` edge.
pub open spec fn dir_movable(b: Seq<Option<nat>>, dir: Direction) -> bool {
    exists|i: int| 0 <= i < 4 && line_movable(line_seq(b, dir, i))
}

/// No direction yields a legal move: the game is over.
pub open spec fn stuck(b: Seq<Option<nat>>) -> bool {
    forall|d: Direction| !dir_movable(b, d)
}

// ---------------------------------------------------------------------------
// The move itself: gather the tiles of a line in order, merge equal adjacent
// pairs once each, front first, and pad the rest of the line with empties.
// ---------------------------------------------------------------------------

/// The exponents of the occupied cells, in line order.
pub open spec fn tiles_of(s: Seq<Option<nat>>) -> Seq<nat>
    decreases s.len(),
{
    if s.len() == 0 {
        Seq::empty()
    } else {
        match s[0] {
            Option::Some(e) => seq![e] + tiles_of(s.drop_first()),
            Option::None => tiles_of(s.drop_first()),
        }
    }
}

/// Greedy pairwise merge, front first: an equal adjacent pair becomes one
/// tile one exponent higher, and the merged tile takes no further part.
pub open spec fn merge_tiles(t: Seq<nat>) -> Seq<nat>
    decreases t.len(),
{
    if t.len() <= 1 {
        t
    } else if t[0] == t[1] {
        seq![(t[0] + 1) as nat] + merge_tiles(t.skip(2))
    } else {
        seq![t[0]] + merge_tiles(t.skip(1))
    }
}

/// Lay a tile sequence back out as a 4-cell line, empties at the far end.
pub open spec fn pad_line(t: Seq<nat>) -> Seq<Option<nat>> {
    Seq::new(4, |p: int| if p < t.len() { Option::Some(t[p]) } else { Option::None })
}

/// What one move does to one line.
pub open spec fn moved_line(s: Seq<Option<nat>>) -> Seq<Option<nat>> {
    pad_line(merge_tiles(tiles_of(s)))
}

/// What one move along `dir` does to the whole board.
pub open spec fn moved_board(b: Seq<Option<nat>>, dir: Direction) -> Seq<Option<nat>> {
    Seq::new(16, |idx: int| moved_line(line_seq(b, dir, line_of(dir, idx)))[pos_of(dir, idx)])
}

// ---------------------------------------------------------------------------
// Helper shapes of tile sequences.
// ---------------------------------------------------------------------------

/// Sum of the displayed values of a tile sequence.
pub open spec fn exp_sum(t: Seq<nat>) -> nat
    decreases t.len(),
{
    if t.len() == 0 {
        0
    } else {
        pow2(t[0]) + exp_sum(t.drop_first())
    }
}

/// Every exponent of the sequence is positive.
pub open spec fn tiles_ok(t: Seq<nat>) -> bool {
    forall|k: int| 0 <= k < t.len() ==> #[trigger] t[k] >= 1
}

/// Every exponent stays below the representation's largest one.
pub open spec fn tiles_below_cap(t: Seq<nat>) -> bool {
    forall|k: int| 0 <= k < t.len() ==> #[trigger] t[k] < u32::MAX
}

/// No two neighbouring tiles are equal, so no pair can merge.
pub open spec fn no_adjacent_equal(t: Seq<nat>) -> bool {
    forall|k: int| 0 <= k < t.len() - 1 ==> #[trigger] t[k] != t[k + 1]
}

/// No empty cell stands nearer the edge than an occupied one.
pub open spec fn packed(s: Seq<Option<nat>>) -> bool {
    forall|i: int, j: int|
        0 <= i < j < s.len() ==> !((#[trigger] s[i]) is None && (#[trigger] s[j]) is Some)
}

// ---------------------------------------------------------------------------
// Lemmas about sums and counts.
// ---------------------------------------------------------------------------

pub proof fn lemma_val_sum_snoc(b: Seq<Option<nat>>, c: Option<nat>)
    ensures
        val_sum(b.push(c)) == val_sum(b) + cell_val(c),
        count_filled(b.push(c)) == count_filled(b) + cell_filled(c),
    decreases b.len(),
{
    if b.len() == 0 {
        assert(b.push(c).drop_first() =~= b);
    } else {
        assert(b.push(c).drop_first() =~= b.drop_first().push(c));
        lemma_val_sum_snoc(b.drop_first(), c);
    }
}

pub proof fn lemma_count_bounds(b: Seq<Option<nat>>)
    ensures
        0 <= count_filled(b) <= b.len(),
    decreases b.len(),
{
    if b.len() > 0 {
        lemma_count_bounds(b.drop_first());
    }
}

pub proof fn lemma_val_sum_update(b: Seq<Option<nat>>, i: int, c: Option<nat>)
    requires
        0 <= i < b.len(),
    ensures
        val_sum(b.update(i, c)) == val_sum(b) - cell_val(b[i]) + cell_val(c),
        count_filled(b.update(i, c)) == count_filled(b) - cell_filled(b[i]) + cell_filled(c),
    decreases b.len(),
{
    if i == 0 {
        assert(b.update(0, c).drop_first() =~= b.drop_first());
    } else {
        assert(b.update(i, c).drop_first() =~= b.drop_first().update(i - 1, c));
        lemma_val_sum_update(b.drop_first(), i - 1, c);
    }
}

pub proof fn lemma_exp_sum_snoc(t: Seq<nat>, e: nat)
    ensures
        exp_sum(t.push(e)) == exp_sum(t) + pow2(e),
    decreases t.len(),
{
    if t.len() == 0 {
        assert(t.push(e).drop_first() =~= t);
    } else {
        assert(t.push(e).drop_first() =~= t.drop_first().push(e));
        lemma_exp_sum_snoc(t.drop_first(), e);
    }
}

/// A sequence of four cells, summed and counted term by term.
pub proof fn lemma_line_unfold(s: Seq<Option<nat>>)
    requires
        s.len() == 4,
    ensures
        val_sum(s) == cell_val(s[0]) + cell_val(s[1]) + cell_val(s[2]) + cell_val(s[3]),
        count_filled(s) == cell_filled(s[0]) + cell_filled(s[1]) + cell_filled(s[2])
            + cell_filled(s[3]),
{
    let s1 = s.drop_first();
    let s2 = s1.drop_first();
    let s3 = s2.drop_first();
    assert(s1[0] == s[1] && s2[0] == s[2] && s3[0] == s[3]);
    assert(val_sum(s) == cell_val(s[0]) + val_sum(s1));
    assert(val_sum(s1) == cell_val(s[1]) + val_sum(s2));
    assert(val_sum(s2) == cell_val(s[2]) + val_sum(s3));
    assert(val_sum(s3) == cell_val(s[3]) + val_sum(s3.drop_first()));
    assert(val_sum(s3.drop_first()) == 0);
    assert(count_filled(s) == cell_filled(s[0]) + count_filled(s1));
    assert(count_filled(s1) == cell_filled(s[1]) + count_filled(s2));
    assert(count_filled(s2) == cell_filled(s[2]) + count_filled(s3));
    assert(count_filled(s3) == cell_filled(s[3]) + count_filled(s3.drop_first()));
    assert(count_filled(s3.drop_first()) == 0);
}

/// Number of empty cells among the first `n`.
pub open spec fn empties_upto(b: Seq<Option<nat>>, n: int) -> int
    recommends
        0 <= n <= b.len(),
    decreases n,
{
    if n <= 0 {
        0
    } else {
        empties_upto(b, n - 1) + (if b[n - 1] is None {
            1int
        } else {
            0int
        })
    }
}

pub proof fn lemma_empties_upto_facts(b: Seq<Option<nat>>, n: int)
    requires
        0 <= n <= b.len(),
    ensures
        0 <= empties_upto(b, n) <= n,
        (empties_upto(b, n) > 0) == (exists|i: int| 0 <= i < n && b[i] is None),
    decreases n,
{
    if n > 0 {
        lemma_empties_upto_facts(b, n - 1);
    }
}

/// A board whose exponents fit the representation has a bounded total value.
pub proof fn lemma_val_sum_bound(b: Seq<Option<nat>>)
    requires
        cells_fit(b),
    ensures
        val_sum(b) <= b.len() * pow2(u32::MAX as nat),
    decreases b.len(),
{
    if b.len() > 0 {
        assert(forall|i: int|
            0 <= i < b.drop_first().len() ==> b.drop_first()[i] == b[i + 1]);
        lemma_val_sum_bound(b.drop_first());
        match b[0] {
            Option::Some(e) => {
                if e < u32::MAX {
                    vstd::arithmetic::power2::lemma_pow2_strictly_increases(e, u32::MAX as nat);
                }
            },
            Option::None => {},
        }
        assert(b.len() * pow2(u32::MAX as nat) == (b.len() - 1) * pow2(u32::MAX as nat) + pow2(
            u32::MAX as nat,
        )) by (nonlinear_arith);
    }
}

pub proof fn lemma_count_all_none(b: Seq<Option<nat>>)
    requires
        forall|i: int| 0 <= i < b.len() ==> (#[trigger] b[i]) is None,
    ensures
        count_filled(b) == 0,
        val_sum(b) == 0,
    decreases b.len(),
{
    if b.len() > 0 {
        assert(forall|i: int|
            0 <= i < b.drop_first().len() ==> b.drop_first()[i] == b[i + 1]);
        lemma_count_all_none(b.drop_first());
    }
}

/// Distinct exponents give distinct powers of two.
pub proof fn lemma_pow2_injective(a: nat, b: nat)
    requires
        pow2(a) == pow2(b),
    ensures
        a == b,
{
    if a < b {
        vstd::arithmetic::power2::lemma_pow2_strictly_increases(a, b);
    } else if b < a {
        vstd::arithmetic::power2::lemma_pow2_strictly_increases(b, a);
    }
}

// ---------------------------------------------------------------------------
// Lemmas about gathering the tiles of a line.
// ---------------------------------------------------------------------------

pub proof fn lemma_tiles_of_snoc(s: Seq<Option<nat>>, c: Option<nat>)
    ensures
        tiles_of(s.push(c)) == tiles_of(s) + (match c {
            Option::Some(e) => seq![e],
            Option::None => Seq::<nat>::empty(),
        }),
    decreases s.len(),
{
    if s.len() == 0 {
        assert(s.push(c).drop_first() =~= s);
        match c {
            Option::Some(e) => {
                assert(tiles_of(s.push(c)) =~= tiles_of(s) + seq![e]);
            },
            Option::None => {
                assert(tiles_of(s.push(c)) =~= tiles_of(s) + Seq::<nat>::empty());
            },
        }
    } else {
        assert(s.push(c).drop_first() =~= s.drop_first().push(c));
        lemma_tiles_of_snoc(s.drop_first(), c);
        match s[0] {
            Option::Some(e0) => {
                assert(tiles_of(s.push(c)) =~= tiles_of(s) + (match c {
                    Option::Some(e) => seq![e],
                    Option::None => Seq::<nat>::empty(),
                }));
            },
            Option::None => {},
        }
    }
}

/// Gathering the tiles keeps the total value, the tile count, positivity,
/// and the exponent cap of the line.
pub proof fn lemma_tiles_of_facts(s: Seq<Option<nat>>)
    ensures
        exp_sum(tiles_of(s)) == val_sum(s),
        tiles_of(s).len() == count_filled(s),
        cells_ok(s) ==> tiles_ok(tiles_of(s)),
        below_cap(s) ==> tiles_below_cap(tiles_of(s)),
    decreases s.len(),
{
    if s.len() > 0 {
        lemma_tiles_of_facts(s.drop_first());
        match s[0] {
            Option::Some(e) => {
                assert((seq![e] + tiles_of(s.drop_first())).drop_first() =~= tiles_of(
                    s.drop_first(),
                ));
                assert(cells_ok(s) ==> cells_ok(s.drop_first()) && e >= 1) by {
                    if cells_ok(s) {
                        assert(forall|i: int|
                            0 <= i < s.drop_first().len() ==> s.drop_first()[i] == s[i + 1]);
                    }
                }
                assert(below_cap(s) ==> below_cap(s.drop_first())) by {
                    if below_cap(s) {
                        assert(forall|i: int|
                            0 <= i < s.drop_first().len() ==> s.drop_first()[i] == s[i + 1]);
                    }
                }
            },
            Option::None => {
                assert(cells_ok(s) ==> cells_ok(s.drop_first())) by {
                    if cells_ok(s) {
                        assert(forall|i: int|
                            0 <= i < s.drop_first().len() ==> s.drop_first()[i] == s[i + 1]);
                    }
                }
                assert(below_cap(s) ==> below_cap(s.drop_first())) by {
                    if below_cap(s) {
                        assert(forall|i: int|
                            0 <= i < s.drop_first().len() ==> s.drop_first()[i] == s[i + 1]);
                    }
                }
            },
        }
    }
}

/// Every occupied cell's exponent turns up among the gathered tiles.
pub proof fn lemma_tiles_of_contains(s: Seq<Option<nat>>, i: int)
    requires
        0 <= i < s.len(),
        s[i] is Some,
    ensures
        exists|k: int|
            0 <= k < tiles_of(s).len() && #[trigger] tiles_of(s)[k] == s[i]->Some_0,
    decreases s.len(),
{
    if i == 0 {
        assert(tiles_of(s)[0] == s[0]->Some_0);
    } else {
        let s1 = s.drop_first();
        lemma_tiles_of_contains(s1, i - 1);
        let k = choose|k: int|
            0 <= k < tiles_of(s1).len() && #[trigger] tiles_of(s1)[k] == s1[i - 1]->Some_0;
        match s[0] {
            Option::Some(e) => {
                assert(tiles_of(s)[k + 1] == tiles_of(s1)[k]);
            },
            Option::None => {
                assert(tiles_of(s)[k] == tiles_of(s1)[k]);
            },
        }
    }
}

// ---------------------------------------------------------------------------
// Lemmas about the greedy pairwise merge.
// ---------------------------------------------------------------------------

/// A merge conserves the total displayed value: the pair 2^e, 2^e becomes
/// the single value 2^(e+1).
pub proof fn lemma_merge_facts(t: Seq<nat>)
    ensures
        exp_sum(merge_tiles(t)) == exp_sum(t),
        merge_tiles(t).len() <= t.len(),
        2 * merge_tiles(t).len() >= t.len(),
        tiles_ok(t) ==> tiles_ok(merge_tiles(t)),
    decreases t.len(),
{
    if t.len() <= 1 {
    } else if t[0] == t[1] {
        let rest = t.skip(2);
        lemma_merge_facts(rest);
        let m = seq![(t[0] + 1) as nat] + merge_tiles(rest);
        assert(m.drop_first() =~= merge_tiles(rest));
        lemma_pow2_unfold(t[0] + 1);
        assert(t.drop_first()[0] == t[1]);
        assert(t.drop_first().drop_first() =~= rest);
        assert(exp_sum(t) == pow2(t[0]) + exp_sum(t.drop_first()));
        assert(exp_sum(t.drop_first()) == pow2(t[1]) + exp_sum(rest));
        assert(tiles_ok(t) ==> tiles_ok(rest)) by {
            if tiles_ok(t) {
                assert(forall|k: int| 0 <= k < rest.len() ==> rest[k] == t[k + 2]);
            }
        }
    } else {
        let rest = t.skip(1);
        lemma_merge_facts(rest);
        let m = seq![t[0]] + merge_tiles(rest);
        assert(m.drop_first() =~= merge_tiles(rest));
        assert(t.drop_first() =~= rest);
        assert(tiles_ok(t) ==> tiles_ok(rest)) by {
            if tiles_ok(t) {
                assert(forall|k: int| 0 <= k < rest.len() ==> rest[k] == t[k + 1]);
            }
        }
    }
}

/// A merge with at least one equal neighbouring pair loses a tile.
pub proof fn lemma_merge_shrinks(t: Seq<nat>)
    requires
        exists|k: int| 0 <= k < t.len() - 1 && #[trigger] t[k] == t[k + 1],
    ensures
        merge_tiles(t).len() < t.len(),
    decreases t.len(),
{
    lemma_merge_facts(t);
    if t[0] == t[1] {
        let m = seq![(t[0] + 1) as nat] + merge_tiles(t.skip(2));
        lemma_merge_facts(t.skip(2));
    } else {
        let k = choose|k: int| 0 <= k < t.len() - 1 && #[trigger] t[k] == t[k + 1];
        let rest = t.skip(1);
        assert(forall|j: int| 0 <= j < rest.len() ==> rest[j] == t[j + 1]);
        assert(rest[k - 1] == rest[k - 1 + 1]);
        lemma_merge_shrinks(rest);
    }
}

/// A line that can shift toward its edge has room after the move: fewer
/// than four occupied cells remain.
pub proof fn lemma_movable_line_shrinks(s: Seq<Option<nat>>)
    requires
        s.len() == 4,
        line_movable(s),
    ensures
        count_filled(moved_line(s)) <= 3,
{
    lemma_tiles_of_facts(s);
    lemma_count_bounds(s);
    lemma_merge_facts(tiles_of(s));
    lemma_pad_line_facts(merge_tiles(tiles_of(s)));
    lemma_line_unfold(s);
    if count_filled(s) == 4 {
        // a full line moves only by merging an equal neighbouring pair
        assert(s[0] is Some && s[1] is Some && s[2] is Some && s[3] is Some);
        assert(packed(s));
        lemma_packed_pointwise(s);
        let t = tiles_of(s);
        let (i, j) = choose|i: int, j: int|
            0 <= i < j < 4 && (#[trigger] s[j]) is Some && (forall|m: int|
                i < m < j ==> s[m] is None) && ((#[trigger] s[i]) is None || s[i] == s[j]);
        assert(j == i + 1);
        assert(s[i] == Option::Some(t[i]) && s[j] == Option::Some(t[j]));
        assert(t[i] == t[i + 1]);
        lemma_merge_shrinks(t);
    }
}

/// A board that can move along a direction has an empty cell once the move
/// is applied: a movable line either had room already or frees a cell by
/// merging, so a spawn can always follow a legal move.
pub proof fn lemma_legal_move_leaves_room(b: Seq<Option<nat>>, dir: Direction)
    requires
        b.len() == 16,
        dir_movable(b, dir),
    ensures
        has_empty(moved_board(b, dir)),
{
    let i = choose|i: int| 0 <= i < 4 && line_movable(line_seq(b, dir, i));
    let s = line_seq(b, dir, i);
    lemma_movable_line_shrinks(s);
    lemma_line_unfold(moved_line(s));
    if moved_line(s)[0] is Some && moved_line(s)[1] is Some && moved_line(s)[2] is Some
        && moved_line(s)[3] is Some {
        assert(count_filled(moved_line(s)) == 4);
        assert(false);
    }
    let p = choose|p: int| 0 <= p < 4 && (#[trigger] moved_line(s)[p]) is None;
    lemma_line_idx_range(dir, i, p);
    assert(moved_board(b, dir)[line_idx(dir, i, p)] == moved_line(s)[p]);
}

/// When no neighbouring pair is equal, the merge changes nothing.
pub proof fn lemma_merge_no_pairs(t: Seq<nat>)
    requires
        no_adjacent_equal(t),
    ensures
        merge_tiles(t) == t,
    decreases t.len(),
{
    if t.len() <= 1 {
    } else {
        let rest = t.skip(1);
        assert(rest.len() == t.len() - 1);
        assert(forall|k: int| 0 <= k < rest.len() ==> rest[k] == t[k + 1]);
        lemma_merge_no_pairs(rest);
        assert(merge_tiles(t) =~= t);
    }
}

// ---------------------------------------------------------------------------
// Lemmas about lines that cannot move: their tiles already sit packed against
// the edge with no equal neighbours, so a move leaves them alone.
// ---------------------------------------------------------------------------

/// In a packed line the tiles are exactly the first `tiles_of(s).len()`
/// cells, in order, and everything after them is empty.
pub proof fn lemma_packed_pointwise(s: Seq<Option<nat>>)
    requires
        packed(s),
    ensures
        tiles_of(s).len() <= s.len(),
        forall|p: int|
            0 <= p < tiles_of(s).len() ==> s[p] == Option::Some(#[trigger] tiles_of(s)[p]),
        forall|p: int| tiles_of(s).len() <= p < s.len() ==> (#[trigger] s[p]) is None,
    decreases s.len(),
{
    if s.len() > 0 {
        let s1 = s.drop_first();
        assert(forall|i: int| 0 <= i < s1.len() ==> s1[i] == s[i + 1]);
        assert(packed(s1));
        lemma_packed_pointwise(s1);
        match s[0] {
            Option::Some(e) => {
                let t = seq![e] + tiles_of(s1);
                assert(tiles_of(s) == t);
                assert(forall|p: int| 1 <= p < t.len() ==> t[p] == tiles_of(s1)[p - 1]);
                assert forall|p: int| t.len() <= p < s.len() implies (#[trigger] s[p]) is None by {
                    assert(s[p] == s1[p - 1]);
                    assert(tiles_of(s1).len() <= p - 1 < s1.len());
                }
            },
            Option::None => {
                assert(forall|j: int| 1 <= j < s.len() ==> (#[trigger] s[j]) is None);
                if tiles_of(s1).len() > 0 {
                    assert(s1[0] == Option::Some(tiles_of(s1)[0]));
                    assert(false);
                }
            },
        }
    }
}

/// A line that cannot shift has no empty cell nearer the edge than a tile.
pub proof fn lemma_unmovable_packed(s: Seq<Option<nat>>)
    requires
        s.len() == 4,
        !line_movable(s),
    ensures
        packed(s),
{
    assert forall|i: int, j: int| 0 <= i < j < 4 implies !((#[trigger] s[i]) is None && (
    #[trigger] s[j]) is Some) by {
        if s[i] is None && s[j] is Some {
            if s[i + 1] is Some {
                assert(forall|m: int| i < m < i + 1 ==> s[m] is None);
                assert(line_movable(s));
            } else if i + 2 < 4 && s[i + 2] is Some {
                assert(forall|m: int| i < m < i + 2 ==> s[m] is None);
                assert(line_movable(s));
            } else if i + 3 < 4 && s[i + 3] is Some {
                assert(forall|m: int| i < m < i + 3 ==> s[m] is None);
                assert(line_movable(s));
            }
        }
    }
}

/// A line that cannot shift is left unchanged by a move.
pub proof fn lemma_unmovable_line_identity(s: Seq<Option<nat>>)
    requires
        s.len() == 4,
        !line_movable(s),
    ensures
        moved_line(s) == s,
        no_adjacent_equal(tiles_of(s)),
        packed(s),
{
    lemma_unmovable_packed(s);
    lemma_packed_pointwise(s);
    let t = tiles_of(s);
    assert forall|k: int| 0 <= k < t.len() - 1 implies #[trigger] t[k] != t[k + 1] by {
        if t[k] == t[k + 1] {
            assert(s[k] == Option::Some(t[k]));
            assert(s[k + 1] == Option::Some(t[k + 1]));
            assert(forall|m: int| k < m < k + 1 ==> s[m] is None);
            assert(line_movable(s));
        }
    }
    lemma_merge_no_pairs(t);
    assert(moved_line(s) =~= s);
}

// ---------------------------------------------------------------------------
// Lemmas about padding a line back out.
// ---------------------------------------------------------------------------

pub proof fn lemma_pad_line_facts(t: Seq<nat>)
    requires
        t.len() <= 4,
    ensures
        val_sum(pad_line(t)) == exp_sum(t),
        count_filled(pad_line(t)) == t.len(),
        tiles_ok(t) ==> cells_ok(pad_line(t)),
{
    let s = pad_line(t);
    lemma_line_unfold(s);
    let t1 = t.drop_first();
    let t2 = t1.drop_first();
    let t3 = t2.drop_first();
    if t.len() == 0 {
    } else if t.len() == 1 {
        assert(exp_sum(t) == pow2(t[0]) + exp_sum(t1));
        assert(exp_sum(t1) == 0);
    } else if t.len() == 2 {
        assert(t1[0] == t[1]);
        assert(exp_sum(t) == pow2(t[0]) + exp_sum(t1));
        assert(exp_sum(t1) == pow2(t[1]) + exp_sum(t2));
        assert(exp_sum(t2) == 0);
    } else if t.len() == 3 {
        assert(t1[0] == t[1] && t2[0] == t[2]);
        assert(exp_sum(t) == pow2(t[0]) + exp_sum(t1));
        assert(exp_sum(t1) == pow2(t[1]) + exp_sum(t2));
        assert(exp_sum(t2) == pow2(t[2]) + exp_sum(t3));
        assert(exp_sum(t3) == 0);
    } else {
        assert(t1[0] == t[1] && t2[0] == t[2] && t3[0] == t[3]);
        assert(exp_sum(t) == pow2(t[0]) + exp_sum(t1));
        assert(exp_sum(t1) == pow2(t[1]) + exp_sum(t2));
        assert(exp_sum(t2) == pow2(t[2]) + exp_sum(t3));
        assert(exp_sum(t3) == pow2(t[3]) + exp_sum(t3.drop_first()));
        assert(exp_sum(t3.drop_first()) == 0);
    }
}

// ---------------------------------------------------------------------------
// Lemmas for the fresh board: a sparsely filled board can always move.
// ---------------------------------------------------------------------------

pub proof fn lemma_count_positive_has_tile(b: Seq<Option<nat>>)
    requires
        count_filled(b) > 0,
    ensures
        exists|i: int| 0 <= i < b.len() && (#[trigger] b[i]) is Some,
    decreases b.len(),
{
    if b.len() > 0 {
        if b[0] is Some {
        } else {
            lemma_count_positive_has_tile(b.drop_first());
            let i = choose|i: int|
                0 <= i < b.drop_first().len() && (#[trigger] b.drop_first()[i]) is Some;
            assert(b[i + 1] is Some);
        }
    }
}

proof fn lemma_sums_skip4(b: Seq<Option<nat>>)
    requires
        b.len() >= 4,
    ensures
        count_filled(b) == cell_filled(b[0]) + cell_filled(b[1]) + cell_filled(b[2]) + cell_filled(
            b[3],
        ) + count_filled(b.skip(4)),
        val_sum(b) == cell_val(b[0]) + cell_val(b[1]) + cell_val(b[2]) + cell_val(b[3]) + val_sum(
            b.skip(4),
        ),
{
    let b1 = b.drop_first();
    let b2 = b1.drop_first();
    let b3 = b2.drop_first();
    assert(b1[0] == b[1] && b2[0] == b[2] && b3[0] == b[3]);
    assert(count_filled(b) == cell_filled(b[0]) + count_filled(b1));
    assert(count_filled(b1) == cell_filled(b[1]) + count_filled(b2));
    assert(count_filled(b2) == cell_filled(b[2]) + count_filled(b3));
    assert(count_filled(b3) == cell_filled(b[3]) + count_filled(b3.drop_first()));
    assert(val_sum(b) == cell_val(b[0]) + val_sum(b1));
    assert(val_sum(b1) == cell_val(b[1]) + val_sum(b2));
    assert(val_sum(b2) == cell_val(b[2]) + val_sum(b3));
    assert(val_sum(b3) == cell_val(b[3]) + val_sum(b3.drop_first()));
    assert(b3.drop_first() =~= b.skip(4));
}

/// A board's value total and tile count, cell by cell.
pub proof fn lemma_board_unfold(b: Seq<Option<nat>>)
    requires
        b.len() == 16,
    ensures
        val_sum(b) == cell_val(b[0]) + cell_val(b[1]) + cell_val(b[2]) + cell_val(b[3]) + cell_val(
            b[4],
        ) + cell_val(b[5]) + cell_val(b[6]) + cell_val(b[7]) + cell_val(b[8]) + cell_val(b[9])
            + cell_val(b[10]) + cell_val(b[11]) + cell_val(b[12]) + cell_val(b[13]) + cell_val(
            b[14],
        ) + cell_val(b[15]),
        count_filled(b) == cell_filled(b[0]) + cell_filled(b[1]) + cell_filled(b[2]) + cell_filled(
            b[3],
        ) + cell_filled(b[4]) + cell_filled(b[5]) + cell_filled(b[6]) + cell_filled(b[7])
            + cell_filled(b[8]) + cell_filled(b[9]) + cell_filled(b[10]) + cell_filled(b[11])
            + cell_filled(b[12]) + cell_filled(b[13]) + cell_filled(b[14]) + cell_filled(b[15]),
{
    let b4 = b.skip(4);
    let b8 = b.skip(8);
    let b12 = b.skip(12);
    lemma_sums_skip4(b);
    lemma_sums_skip4(b4);
    lemma_sums_skip4(b8);
    lemma_sums_skip4(b12);
    assert(b4.skip(4) =~= b8);
    assert(b8.skip(4) =~= b12);
    assert(b12.skip(4) =~= Seq::<Option<nat>>::empty());
    assert(forall|k: int| 0 <= k < 12 ==> #[trigger] b4[k] == b[k + 4]);
    assert(forall|k: int| 0 <= k < 8 ==> #[trigger] b8[k] == b[k + 8]);
    assert(forall|k: int| 0 <= k < 4 ==> #[trigger] b12[k] == b[k + 12]);
}

/// A board's value total and tile count are those of its four lines, along
/// any direction.
pub proof fn lemma_board_line_partition(b: Seq<Option<nat>>, dir: Direction)
    requires
        b.len() == 16,
    ensures
        val_sum(b) == val_sum(line_seq(b, dir, 0)) + val_sum(line_seq(b, dir, 1)) + val_sum(
            line_seq(b, dir, 2),
        ) + val_sum(line_seq(b, dir, 3)),
        count_filled(b) == count_filled(line_seq(b, dir, 0)) + count_filled(line_seq(b, dir, 1))
            + count_filled(line_seq(b, dir, 2)) + count_filled(line_seq(b, dir, 3)),
{
    lemma_board_unfold(b);
    lemma_line_unfold(line_seq(b, dir, 0));
    lemma_line_unfold(line_seq(b, dir, 1));
    lemma_line_unfold(line_seq(b, dir, 2));
    lemma_line_unfold(line_seq(b, dir, 3));
    assert forall|i: int, p: int| 0 <= i < 4 && 0 <= p < 4 implies #[trigger] line_seq(b, dir, i)[p]
        == b[line_idx(dir, i, p)] by {}
    match dir {
        Direction::Up => {},
        Direction::Down => {},
        Direction::Left => {},
        Direction::Right => {},
    }
}

/// The tiles of a board are the tiles of its four rows.
pub proof fn lemma_count_row_partition(b: Seq<Option<nat>>)
    requires
        b.len() == 16,
    ensures
        count_filled(b) == count_filled(line_seq(b, Direction::Left, 0)) + count_filled(
            line_seq(b, Direction::Left, 1),
        ) + count_filled(line_seq(b, Direction::Left, 2)) + count_filled(
            line_seq(b, Direction::Left, 3),
        ),
{
    lemma_board_line_partition(b, Direction::Left);
}

/// A line holding both a tile and an empty cell can shift one way or the
/// other: toward its own edge, or toward the opposite one (the same cells
/// read in reverse order). Some adjacent pair flips between empty and
/// occupied, and whichever way round it lies, one reading can shift.
pub proof fn lemma_mixed_line_movable(fwd: Seq<Option<nat>>, rev: Seq<Option<nat>>)
    requires
        fwd.len() == 4,
        rev.len() == 4,
        forall|p: int| 0 <= p < 4 ==> (#[trigger] rev[p]) == fwd[3 - p],
        exists|p: int| 0 <= p < 4 && (#[trigger] fwd[p]) is Some,
        exists|p: int| 0 <= p < 4 && (#[trigger] fwd[p]) is None,
    ensures
        line_movable(fwd) || line_movable(rev),
{
    if fwd[0] is None && fwd[1] is Some {
        assert(forall|q: int| 0 < q < 1 ==> fwd[q] is None);
        assert(line_movable(fwd));
    } else if fwd[0] is Some && fwd[1] is None && rev[2] is None && rev[3] is Some {
        assert(forall|q: int| 2 < q < 3 ==> rev[q] is None);
        assert(line_movable(rev));
    } else if fwd[1] is None && fwd[2] is Some {
        assert(forall|q: int| 1 < q < 2 ==> fwd[q] is None);
        assert(line_movable(fwd));
    } else if fwd[1] is Some && fwd[2] is None && rev[1] is None && rev[2] is Some {
        assert(forall|q: int| 1 < q < 2 ==> rev[q] is None);
        assert(line_movable(rev));
    } else if fwd[2] is None && fwd[3] is Some {
        assert(forall|q: int| 2 < q < 3 ==> fwd[q] is None);
        assert(line_movable(fwd));
    } else if fwd[2] is Some && fwd[3] is None && rev[0] is None && rev[1] is Some {
        assert(forall|q: int| 0 < q < 1 ==> rev[q] is None);
        assert(line_movable(rev));
    } else {
        // no adjacent pair flips, so all four cells read alike - yet the
        // line holds both a tile and an empty cell
        let m = choose|p: int| 0 <= p < 4 && (#[trigger] fwd[p]) is Some;
        let n = choose|p: int| 0 <= p < 4 && (#[trigger] fwd[p]) is None;
        assert(rev[3] == fwd[0] && rev[2] == fwd[1] && rev[1] == fwd[2] && rev[0] == fwd[3]);
        assert((fwd[0] is Some) == (fwd[1] is Some));
        assert((fwd[1] is Some) == (fwd[2] is Some));
        assert((fwd[2] is Some) == (fwd[3] is Some));
        assert(false);
    }
}

// ---------------------------------------------------------------------------
// The executable transform of one line, verified against the model above.
// Cells are plain `u32` exponents here; the board wraps them in tiles.
// ---------------------------------------------------------------------------

/// The exponents of a sequence of plain `u32` tiles, as the model sees them.
pub open spec fn tvals(t: Seq<u32>) -> Seq<nat> {
    t.map_values(|e: u32| e as nat)
}

/// Slide and merge one 4-cell line toward position 0.
///
/// The result is exactly `moved_line` of the input as long as every exponent
/// leaves room for one more doubling; an equal pair already at the
/// representation's ceiling stays in place rather than overflow. Value sum
/// and the count bounds hold unconditionally.
pub(crate) fn transform_line(line: &Vec<Option<u32>>) -> (r: Vec<Option<u32>>)
    requires
        line@.len() == 4,
        cells_ok(exps_view(line@)),
    ensures
        r@.len() == 4,
        cells_ok(exps_view(r@)),
        val_sum(exps_view(r@)) == val_sum(exps_view(line@)),
        count_filled(exps_view(r@)) <= count_filled(exps_view(line@)),
        2 * count_filled(exps_view(r@)) >= count_filled(exps_view(line@)),
        below_cap(exps_view(line@)) ==> exps_view(r@) == moved_line(exps_view(line@)),
        !line_movable(exps_view(line@)) ==> exps_view(r@) == exps_view(line@),
        (exists|p: int|
            0 <= p < 4 && #[trigger] exps_view(line@)[p] == Option::Some(u32::MAX as nat)) ==> (
        exists|p: int|
            0 <= p < 4 && #[trigger] exps_view(r@)[p] == Option::Some(u32::MAX as nat)),
{
    let ghost v = exps_view(line@);
    // gather the tiles, nearest the edge first
    let mut tiles: Vec<u32> = Vec::new();
    let mut k: usize = 0;
    while k < 4
        invariant
            line@.len() == 4,
            v == exps_view(line@),
            k <= 4,
            tvals(tiles@) == tiles_of(v.take(k as int)),
        decreases 4 - k,
    {
        proof {
            lemma_tiles_of_snoc(v.take(k as int), v[k as int]);
            assert(v.take(k as int).push(v[k as int]) =~= v.take(k as int + 1));
        }
        let c: Option<u32> = line[k];
        match c {
            Option::Some(e) => {
                tiles.push(e);
                proof {
                    assert(tvals(tiles@) =~= tiles_of(v.take(k as int + 1)));
                }
            },
            Option::None => {},
        }
        k += 1;
    }
    proof {
        assert(v.take(4) =~= v);
        lemma_tiles_of_facts(v);
        lemma_count_bounds(v);
    }
    let ghost t = tvals(tiles@);
    proof {
        assert(t.skip(0) =~= t);
        assert(t.take(0) =~= Seq::<nat>::empty());
    }
    // merge equal neighbours once each, front first
    let mut merged: Vec<u32> = Vec::new();
    proof {
        assert(tvals(merged@) =~= Seq::<nat>::empty());
        assert(tvals(merged@) + merge_tiles(t) =~= merge_tiles(t));
    }
    let mut i: usize = 0;
    while i < tiles.len()
        invariant
            t == tvals(tiles@),
            t == tiles_of(v),
            tiles_ok(t),
            tiles@.len() <= 4,
            i <= tiles@.len(),
            tiles_ok(tvals(merged@)),
            exp_sum(tvals(merged@)) + exp_sum(t.skip(i as int)) == exp_sum(t),
            merged@.len() <= i,
            2 * merged@.len() >= i,
            tiles_below_cap(t) ==> tvals(merged@) + merge_tiles(t.skip(i as int)) == merge_tiles(
                t,
            ),
            no_adjacent_equal(t) ==> tvals(merged@) == t.take(i as int),
            (exists|k: int| 0 <= k < i && #[trigger] t[k] == u32::MAX) ==> (exists|k: int|
                0 <= k < merged@.len() && #[trigger] tvals(merged@)[k] == u32::MAX),
        decreases tiles@.len() - i,
    {
        let ghost m0 = tvals(merged@);
        let ghost rest = t.skip(i as int);
        proof {
            assert(rest.drop_first() =~= t.skip(i as int + 1));
            assert(rest[0] == t[i as int]);
        }
        let e = tiles[i];
        if i + 1 < tiles.len() && e == tiles[i + 1] && e < u32::MAX {
            merged.push(e + 1);
            proof {
                assert(tvals(merged@) =~= m0.push((e + 1) as nat));
                lemma_exp_sum_snoc(m0, (e + 1) as nat);
                lemma_pow2_unfold((e + 1) as nat);
                assert(rest[1] == t[i as int + 1]);
                assert(rest.skip(2) =~= t.skip(i as int + 2));
                assert(exp_sum(rest) == pow2(t[i as int]) + exp_sum(rest.drop_first()));
                assert(exp_sum(rest.drop_first()) == pow2(t[i as int + 1]) + exp_sum(
                    rest.skip(2),
                )) by {
                    assert(rest.drop_first()[0] == rest[1]);
                    assert(rest.drop_first().drop_first() =~= rest.skip(2));
                }
                if tiles_below_cap(t) {
                    assert(merge_tiles(rest) == seq![(rest[0] + 1) as nat] + merge_tiles(
                        rest.skip(2),
                    ));
                    assert(tvals(merged@) + merge_tiles(t.skip(i as int + 2)) =~= m0 + (seq![(
                    rest[0] + 1) as nat] + merge_tiles(rest.skip(2))));
                }
                if exists|k: int| 0 <= k < i + 2 && #[trigger] t[k] == u32::MAX {
                    let k = choose|k: int| 0 <= k < i + 2 && #[trigger] t[k] == u32::MAX;
                    // the merged pair itself lies below the ceiling
                    assert(k < i);
                    let k2 = choose|k2: int|
                        0 <= k2 < m0.len() && #[trigger] m0[k2] == u32::MAX;
                    assert(tvals(merged@)[k2] == m0[k2]);
                }
            }
            i += 2;
        } else {
            merged.push(e);
            proof {
                assert(tvals(merged@) =~= m0.push(e as nat));
                lemma_exp_sum_snoc(m0, e as nat);
                assert(exp_sum(rest) == pow2(t[i as int]) + exp_sum(rest.drop_first()));
                if tiles_below_cap(t) {
                    assert(t[i as int] < u32::MAX);
                    if i + 1 < tiles@.len() {
                        assert(rest[1] == t[i as int + 1]);
                        assert(rest[0] != rest[1]);
                        assert(merge_tiles(rest) == seq![rest[0]] + merge_tiles(rest.skip(1)));
                        assert(rest.skip(1) =~= t.skip(i as int + 1));
                        assert(tvals(merged@) + merge_tiles(t.skip(i as int + 1)) =~= m0 + (seq![
                        rest[0]] + merge_tiles(rest.skip(1))));
                    } else {
                        assert(rest.len() == 1);
                        assert(merge_tiles(rest) == rest);
                        assert(rest =~= seq![t[i as int]]);
                        assert(t.skip(i as int + 1) =~= Seq::<nat>::empty());
                        assert(tvals(merged@) + merge_tiles(t.skip(i as int + 1)) =~= m0 + (seq![
                        rest[0]] + merge_tiles(rest.skip(1))));
                        assert(rest.skip(1) =~= Seq::<nat>::empty());
                    }
                }
                if no_adjacent_equal(t) {
                    assert(tvals(merged@) =~= t.take(i as int + 1));
                }
                if exists|k: int| 0 <= k < i + 1 && #[trigger] t[k] == u32::MAX {
                    let k = choose|k: int| 0 <= k < i + 1 && #[trigger] t[k] == u32::MAX;
                    if k < i {
                        let k2 = choose|k2: int|
                            0 <= k2 < m0.len() && #[trigger] m0[k2] == u32::MAX;
                        assert(tvals(merged@)[k2] == m0[k2]);
                    } else {
                        assert(tvals(merged@)[m0.len() as int] == e as nat);
                    }
                }
            }
            i += 1;
        }
    }
    proof {
        assert(t.skip(tiles@.len() as int) =~= Seq::<nat>::empty());
        if tiles_below_cap(t) {
            assert(tvals(merged@) + merge_tiles(t.skip(tiles@.len() as int)) =~= tvals(merged@));
        }
        if no_adjacent_equal(t) {
            assert(t.take(tiles@.len() as int) =~= t);
        }
    }
    // pad the line back out with empties at the far end
    let mut r: Vec<Option<u32>> = Vec::new();
    let mut p: usize = 0;
    while p < 4
        invariant
            p <= 4,
            r@.len() == p,
            merged@.len() <= 4,
            forall|q: int| 0 <= q < p ==> exps_view(r@)[q] == pad_line(tvals(merged@))[q],
        decreases 4 - p,
    {
        let ghost r0 = r@;
        let ghost m = tvals(merged@);
        if p < merged.len() {
            let e = merged[p];
            r.push(Option::Some(e));
            proof {
                assert(exps_view(r@)[p as int] == Option::Some(e as nat));
                assert(pad_line(m)[p as int] == Option::Some(m[p as int]));
            }
        } else {
            r.push(Option::None);
            proof {
                assert(exps_view(r@)[p as int] is None);
                assert(pad_line(m)[p as int] is None);
            }
        }
        proof {
            assert forall|q: int| 0 <= q < p as int implies exps_view(r@)[q] == pad_line(m)[q] by {
                assert(r@[q] == r0[q]);
                assert(exps_view(r0)[q] == pad_line(m)[q]);
            }
        }
        p += 1;
    }
    proof {
        let m = tvals(merged@);
        assert(exps_view(r@) =~= pad_line(m));
        lemma_pad_line_facts(m);
        lemma_merge_facts(t);
        if !line_movable(v) {
            lemma_unmovable_line_identity(v);
            lemma_merge_no_pairs(t);
            assert(exps_view(r@) == pad_line(t));
            assert(pad_line(merge_tiles(t)) == v);
        }
        if exists|p: int| 0 <= p < 4 && #[trigger] v[p] == Option::Some(u32::MAX as nat) {
            let p = choose|p: int| 0 <= p < 4 && #[trigger] v[p] == Option::Some(u32::MAX as nat);
            lemma_tiles_of_contains(v, p);
            let k = choose|k: int|
                0 <= k < tiles_of(v).len() && #[trigger] tiles_of(v)[k] == v[p]->Some_0;
            assert(t[k] == u32::MAX);
            let k2 = choose|k2: int| 0 <= k2 < m.len() && #[trigger] m[k2] == u32::MAX;
            assert(exps_view(r@)[k2] == Option::Some(u32::MAX as nat));
        }
    }
    r
}

/// Whether one 4-cell line can shift toward position 0: some position sees,
/// past empty cells only, a farther tile it could take in or merge with.
pub(crate) fn line_movable_exec(line: &Vec<Option<u32>>) -> (r: bool)
    requires
        line@.len() == 4,
    ensures
        r == line_movable(exps_view(line@)),
{
    let ghost v = exps_view(line@);
    // position 0: the first occupied cell beyond it decides
    if line[1].is_some() {
        if line[0].is_none() || line[0].unwrap() == line[1].unwrap() {
            proof {
                assert(v[1] is Some && (v[0] is None || v[0] == v[1]));
                assert(forall|m: int| 0 < m < 1 ==> v[m] is None);
                assert(line_movable(v));
            }
            return true;
        }
    } else if line[2].is_some() {
        if line[0].is_none() || line[0].unwrap() == line[2].unwrap() {
            proof {
                assert(v[2] is Some && (v[0] is None || v[0] == v[2]));
                assert(forall|m: int| 0 < m < 2 ==> v[m] is None);
                assert(line_movable(v));
            }
            return true;
        }
    } else if line[3].is_some() {
        if line[0].is_none() || line[0].unwrap() == line[3].unwrap() {
            proof {
                assert(v[3] is Some && (v[0] is None || v[0] == v[3]));
                assert(forall|m: int| 0 < m < 3 ==> v[m] is None);
                assert(line_movable(v));
            }
            return true;
        }
    }
    // position 1
    if line[2].is_some() {
        if line[1].is_none() || line[1].unwrap() == line[2].unwrap() {
            proof {
                assert(v[2] is Some && (v[1] is None || v[1] == v[2]));
                assert(forall|m: int| 1 < m < 2 ==> v[m] is None);
                assert(line_movable(v));
            }
            return true;
        }
    } else if line[3].is_some() {
        if line[1].is_none() || line[1].unwrap() == line[3].unwrap() {
            proof {
                assert(v[3] is Some && (v[1] is None || v[1] == v[3]));
                assert(forall|m: int| 1 < m < 3 ==> v[m] is None);
                assert(line_movable(v));
            }
            return true;
        }
    }
    // position 2
    if line[3].is_some() {
        if line[2].is_none() || line[2].unwrap() == line[3].unwrap() {
            proof {
                assert(v[3] is Some && (v[2] is None || v[2] == v[3]));
                assert(forall|m: int| 2 < m < 3 ==> v[m] is None);
                assert(line_movable(v));
            }
            return true;
        }
    }
    proof {
        assert(!line_movable(v)) by {
            assert forall|i: int, j: int|
                !(0 <= i < j < 4 && (#[trigger] v[j]) is Some && (forall|m: int|
                    i < m < j ==> v[m] is None) && ((#[trigger] v[i]) is None || v[i]
                    == v[j])) by {
                if 0 <= i < j < 4 && v[j] is Some && (forall|m: int| i < m < j ==> v[m] is None)
                    && (v[i] is None || v[i] == v[j]) {
                    assert(false);
                }
            }
        }
    }
    false
}

} // verus!
