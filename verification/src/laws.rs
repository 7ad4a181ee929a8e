//! The library's general laws, stated over the board model and proved once
//! and for all.

use vstd::prelude::*;

use crate::game::cell_as_literal;
use crate::game::list_cell_ok;
use crate::game::literal_cell;
use crate::sem::count_filled;
use crate::sem::dir_movable;
use crate::sem::exp_sum;
use crate::sem::lemma_board_line_partition;
use crate::sem::lemma_count_bounds;
use crate::sem::lemma_idx_decompose;
use crate::sem::lemma_line_idx_range;
use crate::sem::lemma_line_unfold;
use crate::sem::lemma_merge_facts;
use crate::sem::lemma_pad_line_facts;
use crate::sem::lemma_pow2_injective;
use crate::sem::lemma_tiles_of_facts;
use crate::sem::lemma_unmovable_line_identity;
use crate::sem::line_movable;
use crate::sem::line_of;
use crate::sem::line_seq;
use crate::sem::merge_tiles;
use crate::sem::moved_board;
use crate::sem::moved_line;
use crate::sem::pad_line;
use crate::sem::pos_of;
use crate::sem::tiles_of;
use crate::sem::val_sum;
use crate::sem::Direction;
use vstd::arithmetic::power2::pow2;

verus! {

/// A move along a direction with no legal shift is the identity: when
/// nothing can slide or merge toward that edge, the board stays exactly as
/// it was.
pub proof fn lemma_unmovable_move_identity(b: Seq<Option<nat>>, dir: Direction)
    requires
        b.len() == 16,
        !dir_movable(b, dir),
    ensures
        moved_board(b, dir) == b,
{
    assert forall|idx: int| 0 <= idx < 16 implies moved_board(b, dir)[idx] == b[idx] by {
        lemma_idx_decompose(dir, idx);
        let l = line_of(dir, idx);
        let p = pos_of(dir, idx);
        assert(!line_movable(line_seq(b, dir, l)));
        lemma_unmovable_line_identity(line_seq(b, dir, l));
        assert(moved_board(b, dir)[idx] == moved_line(line_seq(b, dir, l))[p]);
        assert(line_seq(b, dir, l)[p] == b[idx]);
    }
    assert(moved_board(b, dir) =~= b);
}

/// Merge conservation and no double merge, per line. A move never adds a
/// tile, and it keeps the total of the displayed values: a merge replaces
/// the pair 2^e, 2^e by the single value 2^(e+1). And since each merge
/// consumes exactly two source tiles - a merged tile takes no further part
/// within the same move - a move leaves at least half the tiles, rounded up.
pub proof fn lemma_move_line_conserves(s: Seq<Option<nat>>)
    requires
        s.len() == 4,
    ensures
        val_sum(moved_line(s)) == val_sum(s),
        count_filled(moved_line(s)) <= count_filled(s),
        2 * count_filled(moved_line(s)) >= count_filled(s),
{
    lemma_tiles_of_facts(s);
    lemma_count_bounds(s);
    lemma_merge_facts(tiles_of(s));
    lemma_pad_line_facts(merge_tiles(tiles_of(s)));
}

/// Merge conservation over the whole board: one move, along any direction,
/// never adds a tile, never consumes more than half the tiles, and keeps the
/// total of the displayed values exactly - each merge trades two equal tiles
/// for one of twice the value.
pub proof fn lemma_move_board_conserves(b: Seq<Option<nat>>, dir: Direction)
    requires
        b.len() == 16,
    ensures
        val_sum(moved_board(b, dir)) == val_sum(b),
        count_filled(moved_board(b, dir)) <= count_filled(b),
        2 * count_filled(moved_board(b, dir)) >= count_filled(b),
{
    let mb = moved_board(b, dir);
    lemma_board_line_partition(b, dir);
    lemma_board_line_partition(mb, dir);
    assert forall|i: int| 0 <= i < 4 implies #[trigger] line_seq(mb, dir, i) == moved_line(
        line_seq(b, dir, i),
    ) by {
        assert forall|p: int| 0 <= p < 4 implies #[trigger] line_seq(mb, dir, i)[p] == moved_line(
            line_seq(b, dir, i),
        )[p] by {
            lemma_line_idx_range(dir, i, p);
        }
        assert(line_seq(mb, dir, i) =~= moved_line(line_seq(b, dir, i)));
    }
    lemma_move_line_conserves(line_seq(b, dir, 0));
    lemma_move_line_conserves(line_seq(b, dir, 1));
    lemma_move_line_conserves(line_seq(b, dir, 2));
    lemma_move_line_conserves(line_seq(b, dir, 3));
}

/// Chained slide: a tile alone on its line, however far from the edge,
/// slides all the way to the edge in one move, crossing every empty cell.
pub proof fn lemma_lone_tile_slides(s: Seq<Option<nat>>, k: int)
    requires
        s.len() == 4,
        0 <= k < 4,
        s[k] is Some,
        forall|m: int| 0 <= m < 4 && m != k ==> (#[trigger] s[m]) is None,
    ensures
        moved_line(s)[0] == s[k],
        forall|p: int| 1 <= p < 4 ==> (#[trigger] moved_line(s)[p]) is None,
{
    lemma_line_unfold(s);
    lemma_tiles_of_facts(s);
    let t = tiles_of(s);
    assert(count_filled(s) == 1);
    assert(t.len() == 1);
    let e = s[k]->Some_0;
    assert(val_sum(s) == pow2(e));
    assert(exp_sum(t) == pow2(t[0]) + exp_sum(t.drop_first()));
    assert(t.drop_first().len() == 0);
    lemma_pow2_injective(t[0], e);
    assert(merge_tiles(t) == t);
    assert(moved_line(s) == pad_line(t));
}

/// Round trip of the non-random state: a cell built from a literal board
/// entry reads back as that entry - the tile's displayed value, or -1 for an
/// empty cell. With `from_list` laying cells out in order and `rows` reading
/// them back in order, a literal board reproduces itself.
pub proof fn lemma_literal_roundtrip(arg: Seq<i32>)
    requires
        arg.len() == 16,
        forall|i: int| 0 <= i < 16 ==> list_cell_ok(#[trigger] arg[i]),
    ensures
        forall|i: int| 0 <= i < 16 ==> cell_as_literal(literal_cell(#[trigger] arg[i])) == arg[i]
            as int,
{
    assert forall|i: int| 0 <= i < 16 implies cell_as_literal(literal_cell(#[trigger] arg[i]))
        == arg[i] as int by {
        if arg[i] != -1 {
            let e = choose|e: nat| 1 <= e <= 30 && pow2(e) as int == arg[i] as int;
            assert(pow2(e) as int == arg[i] as int);
        }
    }
}

} // verus!
