//! The rows of a board: which of them the settled blocks fill, and what
//! clearing them takes from the board.
use crate::game::block::{Block, BlockView, State};
use crate::game::board::order::{inserted, lemma_sorted, sorted, sorts_before};
use crate::game::board::{all_wf, views, BoardView};
use vstd::prelude::*;

verus! {

/// Whether `block` is settled on row `y` and lies over column `x`.
pub open spec fn covers(block: BlockView, x: int, y: int) -> bool {
    block.state == State::Settled && block.y() == y && block.x() <= x < block.right()
}

/// How many settled blocks of row `y` lie over column `x`.
pub open spec fn cover_count(blocks: Seq<BlockView>, x: int, y: int) -> nat
    decreases blocks.len(),
{
    if blocks.len() == 0 {
        0
    } else {
        cover_count(blocks.drop_last(), x, y) + if covers(blocks.last(), x, y) {
            1nat
        } else {
            0nat
        }
    }
}

/// Whether the settled blocks of row `y` tile a board `width` cells wide:
/// exactly one of them lies over each column of the board, and none lies over
/// a column beyond it.
pub open spec fn row_complete(blocks: Seq<BlockView>, width: u8, y: int) -> bool {
    width >= 1 && forall|x: int|
        0 <= x < 256 ==> #[trigger] cover_count(blocks, x, y) == if x < width {
            1nat
        } else {
            0nat
        }
}

/// Whether the settled blocks of row `y` tile a board `width` cells wide, said
/// of the blocks one by one: a settled block of the row lies over every
/// column of the board, none reaches beyond the right edge, and no two of
/// them lie over the same column.
pub open spec fn tiles(blocks: Seq<BlockView>, width: u8, y: int) -> bool {
    &&& forall|x: int| 0 <= x < width ==> #[trigger] covered(blocks, x, y)
    &&& forall|i: int|
        0 <= i < blocks.len() && (#[trigger] blocks[i]).state == State::Settled && blocks[i].y()
            == y ==> blocks[i].right() <= width
    &&& forall|i: int, j: int|
        0 <= i < blocks.len() && 0 <= j < blocks.len() && i != j && (#[trigger] blocks[i]).state
            == State::Settled && (#[trigger] blocks[j]).state == State::Settled && blocks[i].y()
            == y && blocks[j].y() == y ==> blocks[i].right() <= blocks[j].x()
            || blocks[j].right() <= blocks[i].x()
}

/// A settled block of row `y` lies over column `x`.
pub open spec fn covered(blocks: Seq<BlockView>, x: int, y: int) -> bool {
    exists|i: int| 0 <= i < blocks.len() && covers(#[trigger] blocks[i], x, y)
}

/// Two settled blocks of row `y` lie over column `x`.
pub open spec fn covered_twice(blocks: Seq<BlockView>, x: int, y: int) -> bool {
    exists|i: int, j: int|
        0 <= i < j < blocks.len() && covers(#[trigger] blocks[i], x, y) && covers(
            #[trigger] blocks[j],
            x,
            y,
        )
}

/// A column is counted once for every block that lies over it.
pub proof fn lemma_cover_count_covered(blocks: Seq<BlockView>, x: int, y: int)
    ensures
        cover_count(blocks, x, y) >= 1 <==> covered(blocks, x, y),
        cover_count(blocks, x, y) >= 2 <==> covered_twice(blocks, x, y),
    decreases blocks.len(),
{
    if blocks.len() > 0 {
        let front = blocks.drop_last();
        let n = blocks.len() as int;
        lemma_cover_count_covered(front, x, y);
        assert(blocks[n - 1] == blocks.last());
        if covered(front, x, y) {
            let i = choose|i: int| 0 <= i < front.len() && covers(#[trigger] front[i], x, y);
            assert(covers(blocks[i], x, y));
            if covers(blocks.last(), x, y) {
                assert(covers(blocks[i], x, y) && covers(blocks[n - 1], x, y));
            }
        }
        if covered_twice(front, x, y) {
            let (i, j) = choose|i: int, j: int|
                0 <= i < j < front.len() && covers(#[trigger] front[i], x, y) && covers(
                    #[trigger] front[j],
                    x,
                    y,
                );
            assert(covers(blocks[i], x, y) && covers(blocks[j], x, y));
        }
        if covered(blocks, x, y) {
            let i = choose|i: int| 0 <= i < blocks.len() && covers(#[trigger] blocks[i], x, y);
            if i < n - 1 {
                assert(covers(front[i], x, y));
            }
        }
        if covered_twice(blocks, x, y) {
            let (i, j) = choose|i: int, j: int|
                0 <= i < j < blocks.len() && covers(#[trigger] blocks[i], x, y) && covers(
                    #[trigger] blocks[j],
                    x,
                    y,
                );
            assert(covers(front[i], x, y));
            if j < n - 1 {
                assert(covers(front[j], x, y));
            }
        }
    }
}

/// A row is complete exactly if its settled blocks tile the board: counting
/// the blocks over each column says the same as looking at the blocks one by
/// one.
pub proof fn lemma_complete_rows_are_tiled(blocks: Seq<BlockView>, width: u8, y: int)
    requires
        all_wf(blocks),
    ensures
        row_complete(blocks, width, y) == (width >= 1 && tiles(blocks, width, y)),
{
    assert forall|x: int| 0 <= x < 256 implies (#[trigger] cover_count(blocks, x, y) >= 1
        <==> covered(blocks, x, y)) && (cover_count(blocks, x, y) >= 2 <==> covered_twice(
        blocks,
        x,
        y,
    )) by {
        lemma_cover_count_covered(blocks, x, y);
    }
    if row_complete(blocks, width, y) {
        assert forall|x: int| 0 <= x < width implies #[trigger] covered(blocks, x, y) by {
            assert(cover_count(blocks, x, y) == 1);
        }
        assert forall|i: int|
            0 <= i < blocks.len() && (#[trigger] blocks[i]).state == State::Settled
                && blocks[i].y() == y implies blocks[i].right() <= width by {
            assert(blocks[i].wf());
            if blocks[i].right() > width {
                let x = blocks[i].right() - 1;
                assert(covers(blocks[i], x, y));
                assert(covered(blocks, x, y));
                assert(cover_count(blocks, x, y) == 0);
            }
        }
        assert forall|i: int, j: int|
            0 <= i < blocks.len() && 0 <= j < blocks.len() && i != j && (#[trigger] blocks[i]).state
                == State::Settled && (#[trigger] blocks[j]).state == State::Settled
                && blocks[i].y() == y && blocks[j].y() == y implies blocks[i].right()
                <= blocks[j].x() || blocks[j].right() <= blocks[i].x() by {
            assert(blocks[i].wf() && blocks[j].wf());
            if !(blocks[i].right() <= blocks[j].x() || blocks[j].right() <= blocks[i].x()) {
                let x = if blocks[i].x() >= blocks[j].x() {
                    blocks[i].x()
                } else {
                    blocks[j].x()
                };
                assert(covers(blocks[i], x, y) && covers(blocks[j], x, y));
                if i < j {
                    assert(covered_twice(blocks, x, y));
                } else {
                    assert(covers(blocks[j], x, y) && covers(blocks[i], x, y));
                    assert(covered_twice(blocks, x, y));
                }
                assert(cover_count(blocks, x, y) <= 1);
            }
        }
    }
    if width >= 1 && tiles(blocks, width, y) {
        assert forall|x: int| 0 <= x < 256 implies #[trigger] cover_count(blocks, x, y) == if x
            < width {
            1nat
        } else {
            0nat
        } by {
            if covered_twice(blocks, x, y) {
                let (i, j) = choose|i: int, j: int|
                    0 <= i < j < blocks.len() && covers(#[trigger] blocks[i], x, y) && covers(
                        #[trigger] blocks[j],
                        x,
                        y,
                    );
                assert(blocks[i].right() <= blocks[j].x() || blocks[j].right() <= blocks[i].x());
            }
            if x < width {
                assert(covered(blocks, x, y));
            } else if covered(blocks, x, y) {
                let i = choose|i: int| 0 <= i < blocks.len() && covers(#[trigger] blocks[i], x, y);
                assert(blocks[i].right() <= width);
            }
        }
    }
}

/// Whether `block` is cleared from a board that holds `blocks`: it is settled
/// in a row that is complete.
pub open spec fn cleared(blocks: Seq<BlockView>, width: u8, block: BlockView) -> bool {
    block.state == State::Settled && row_complete(blocks, width, block.y())
}

/// Whether a row below row `y` is complete.
pub open spec fn cleared_below(blocks: Seq<BlockView>, width: u8, y: int) -> bool {
    exists|row: int| y < row < 256 && #[trigger] row_complete(blocks, width, row)
}

/// `block` after the complete rows were cleared: a settled block above one
/// of them falls again.
pub open spec fn cascaded(blocks: Seq<BlockView>, width: u8, block: BlockView) -> BlockView {
    if block.state == State::Settled && cleared_below(blocks, width, block.y()) {
        block.with_state(State::Falling)
    } else {
        block
    }
}

/// The blocks of `part` that are cleared from a board that holds `blocks`,
/// in their order.
pub open spec fn removed_of(part: Seq<BlockView>, blocks: Seq<BlockView>, width: u8) -> Seq<
    BlockView,
>
    decreases part.len(),
{
    if part.len() == 0 {
        part
    } else if cleared(blocks, width, part.last()) {
        removed_of(part.drop_last(), blocks, width).push(part.last())
    } else {
        removed_of(part.drop_last(), blocks, width)
    }
}

/// The blocks of `part` that stay on a board that holds `blocks` when its
/// complete rows are cleared, in their order, those above a cleared row
/// falling again.
pub open spec fn kept_of(part: Seq<BlockView>, blocks: Seq<BlockView>, width: u8) -> Seq<
    BlockView,
>
    decreases part.len(),
{
    if part.len() == 0 {
        part
    } else if cleared(blocks, width, part.last()) {
        kept_of(part.drop_last(), blocks, width)
    } else {
        kept_of(part.drop_last(), blocks, width).push(cascaded(blocks, width, part.last()))
    }
}

/// One block more covers a column once more, or as often as before.
pub proof fn lemma_cover_count_step(blocks: Seq<BlockView>, j: int, x: int, y: int)
    requires
        0 <= j < blocks.len(),
    ensures
        cover_count(blocks.take(j + 1), x, y) == cover_count(blocks.take(j), x, y) + if covers(
            blocks[j],
            x,
            y,
        ) {
            1nat
        } else {
            0nat
        },
{
    let upto = blocks.take(j + 1);
    assert(upto.drop_last() =~= blocks.take(j));
    assert(upto.last() == blocks[j]);
}

/// Blocks that do not lie over a column do not count for it.
pub proof fn lemma_cover_count_skip(blocks: Seq<BlockView>, from: int, to: int, x: int, y: int)
    requires
        0 <= from <= to <= blocks.len(),
        forall|k: int| from <= k < to ==> !covers(#[trigger] blocks[k], x, y),
    ensures
        cover_count(blocks.take(to), x, y) == cover_count(blocks.take(from), x, y),
    decreases to - from,
{
    if from < to {
        lemma_cover_count_skip(blocks, from, to - 1, x, y);
        lemma_cover_count_step(blocks, to - 1, x, y);
    }
}

/// Where a block stands does not matter to how often a column is covered.
pub proof fn lemma_cover_count_inserted(blocks: Seq<BlockView>, block: BlockView, x: int, y: int)
    ensures
        cover_count(inserted(blocks, block), x, y) == cover_count(blocks.push(block), x, y),
    decreases blocks.len(),
{
    if blocks.len() > 0 && sorts_before(block, blocks.last()) {
        let front = blocks.drop_last();
        let last = blocks.last();
        lemma_cover_count_inserted(front, block, x, y);
        let out = inserted(front, block).push(last);
        assert(out.drop_last() =~= inserted(front, block));
        assert(out.last() == last);
        assert(cover_count(out, x, y) == cover_count(inserted(front, block), x, y) + if covers(
            last,
            x,
            y,
        ) {
            1nat
        } else {
            0nat
        });
        assert(front.push(block).drop_last() =~= front);
        assert(front.push(block).last() == block);
        assert(cover_count(front.push(block), x, y) == cover_count(front, x, y) + if covers(
            block,
            x,
            y,
        ) {
            1nat
        } else {
            0nat
        });
        assert(blocks.push(block).drop_last() =~= blocks);
        assert(blocks.push(block).last() == block);
        assert(cover_count(blocks.push(block), x, y) == cover_count(blocks, x, y) + if covers(
            block,
            x,
            y,
        ) {
            1nat
        } else {
            0nat
        });
    }
}

/// Sorting the blocks does not change how often a column is covered, nor
/// which rows are complete.
pub proof fn lemma_cover_count_sorted(blocks: Seq<BlockView>, x: int, y: int)
    ensures
        cover_count(sorted(blocks), x, y) == cover_count(blocks, x, y),
    decreases blocks.len(),
{
    if blocks.len() > 0 {
        let front = blocks.drop_last();
        lemma_cover_count_sorted(front, x, y);
        lemma_cover_count_inserted(sorted(front), blocks.last(), x, y);
        assert(sorted(front).push(blocks.last()).drop_last() =~= sorted(front));
    }
}

/// Sorting the blocks does not change which rows are complete.
pub proof fn lemma_row_complete_sorted(blocks: Seq<BlockView>, width: u8, y: int)
    ensures
        row_complete(sorted(blocks), width, y) == row_complete(blocks, width, y),
{
    assert forall|x: int|
        #![trigger cover_count(sorted(blocks), x, y)]
        #![trigger cover_count(blocks, x, y)]
        0 <= x < 256 implies cover_count(sorted(blocks), x, y) == cover_count(blocks, x, y) by {
        lemma_cover_count_sorted(blocks, x, y);
    }
}

/// The blocks that are cleared from among `part` are the blocks of `part` in
/// complete rows; the others stay, those above a cleared row falling again.
pub proof fn lemma_parted(part: Seq<BlockView>, blocks: Seq<BlockView>, width: u8)
    ensures
        removed_of(part, blocks, width).len() + kept_of(part, blocks, width).len() == part.len(),
        forall|b: BlockView| #[trigger]
            removed_of(part, blocks, width).contains(b) <==> part.contains(b) && cleared(
                blocks,
                width,
                b,
            ),
        forall|b: BlockView|
            part.contains(b) && !cleared(blocks, width, b) ==> kept_of(
                part,
                blocks,
                width,
            ).contains(#[trigger] cascaded(blocks, width, b)),
        forall|c: BlockView| #[trigger]
            kept_of(part, blocks, width).contains(c) ==> exists|b: BlockView|
                part.contains(b) && !cleared(blocks, width, b) && c == cascaded(blocks, width, b),
    decreases part.len(),
{
    let removed = removed_of(part, blocks, width);
    let kept = kept_of(part, blocks, width);
    if part.len() > 0 {
        let front = part.drop_last();
        let last = part.last();
        lemma_parted(front, blocks, width);
        let removed_front = removed_of(front, blocks, width);
        let kept_front = kept_of(front, blocks, width);
        assert(part[part.len() - 1] == last);
        assert forall|b: BlockView| #[trigger] removed.contains(b) <==> part.contains(b) && cleared(
            blocks,
            width,
            b,
        ) by {
            if removed.contains(b) {
                let i = choose|i: int| 0 <= i < removed.len() && removed[i] == b;
                if i < removed_front.len() {
                    assert(removed_front[i] == b);
                    assert(removed_front.contains(b));
                    let m = choose|m: int| 0 <= m < front.len() && front[m] == b;
                    assert(part[m] == b);
                }
            }
            if part.contains(b) && cleared(blocks, width, b) {
                let m = choose|m: int| 0 <= m < part.len() && part[m] == b;
                if m < front.len() {
                    assert(front[m] == b);
                    assert(removed_front.contains(b));
                    let i = choose|i: int| 0 <= i < removed_front.len() && removed_front[i] == b;
                    assert(removed[i] == b);
                } else {
                    assert(removed[removed.len() - 1] == b);
                }
            }
        }
        assert forall|b: BlockView| part.contains(b) && !cleared(blocks, width, b) implies kept.contains(
            #[trigger] cascaded(blocks, width, b),
        ) by {
            let c = cascaded(blocks, width, b);
            let m = choose|m: int| 0 <= m < part.len() && part[m] == b;
            if m < front.len() {
                assert(front[m] == b);
                assert(front.contains(b));
                assert(kept_front.contains(c));
                let i = choose|i: int| 0 <= i < kept_front.len() && kept_front[i] == c;
                assert(kept[i] == c);
            } else {
                assert(kept[kept.len() - 1] == c);
            }
        }
        assert forall|c: BlockView| #[trigger] kept.contains(c) implies exists|b: BlockView|
            part.contains(b) && !cleared(blocks, width, b) && c == cascaded(blocks, width, b) by {
            let i = choose|i: int| 0 <= i < kept.len() && kept[i] == c;
            if i < kept_front.len() {
                assert(kept_front[i] == c);
                assert(kept_front.contains(c));
                let b = choose|b: BlockView|
                    front.contains(b) && !cleared(blocks, width, b) && c == cascaded(
                        blocks,
                        width,
                        b,
                    );
                let m = choose|m: int| 0 <= m < front.len() && front[m] == b;
                assert(part[m] == b);
                assert(part.contains(b) && !cleared(blocks, width, b) && c == cascaded(
                    blocks,
                    width,
                    b,
                ));
            } else {
                assert(part.contains(last) && !cleared(blocks, width, last) && c == cascaded(
                    blocks,
                    width,
                    last,
                ));
            }
        }
    }
}

/// Clearing the complete rows takes a block from the board exactly if the
/// block is settled in a row that the settled blocks tile from edge to edge.
/// Every other block stays, in a row that is not complete too; it falls again
/// if it is settled above a cleared row, and is unchanged if not.
pub proof fn lemma_clear_takes_complete_rows(board: BoardView)
    ensures
        board.cleared_blocks().len() + board.after_clear().blocks.len() == board.blocks.len(),
        forall|b: BlockView| #[trigger]
            board.cleared_blocks().contains(b) <==> board.blocks.contains(b) && b.state
                == State::Settled && row_complete(board.blocks, board.width, b.y()),
        forall|b: BlockView|
            board.blocks.contains(b) && !cleared(board.blocks, board.width, b)
                ==> board.after_clear().blocks.contains(
                #[trigger] cascaded(board.blocks, board.width, b),
            ),
        forall|c: BlockView| #[trigger]
            board.after_clear().blocks.contains(c) ==> exists|b: BlockView|
                board.blocks.contains(b) && !cleared(board.blocks, board.width, b) && c
                    == cascaded(board.blocks, board.width, b),
{
    broadcast use vstd::seq_lib::to_multiset_contains;

    let ordered = sorted(board.blocks);
    lemma_sorted(board.blocks);
    lemma_parted(ordered, board.blocks, board.width);
    assert forall|b: BlockView| ordered.contains(b) == board.blocks.contains(b) by {
        assert(ordered.to_multiset().count(b) == board.blocks.to_multiset().count(b));
    }
}

/// The rows that hold a block of `blocks`.
pub open spec fn rows_of(blocks: Seq<BlockView>) -> Set<int> {
    Set::new(|y: int| exists|i: int| 0 <= i < blocks.len() && (#[trigger] blocks[i]).y() == y)
}

/// In how many rows `blocks` lie.
pub fn distinct_rows(blocks: &Vec<Block>) -> (r: usize)
    ensures
        r == rows_of(views(blocks@)).len(),
        r <= 256,
{
    broadcast use vstd::set::group_set_axioms;

    let ghost all = views(blocks@);
    let mut seen: Vec<bool> = Vec::new();
    let mut y: usize = 0;
    while y < 256
        invariant
            y <= 256,
            seen@.len() == y,
            forall|row: int| 0 <= row < y ==> !#[trigger] seen@[row],
        decreases 256 - y,
    {
        seen.push(false);
        y += 1;
    }
    let mut count: usize = 0;
    let mut i: usize = 0;
    proof {
        assert(rows_of(all.take(0)) =~= Set::<int>::empty());
    }
    while i < blocks.len()
        invariant
            i <= blocks.len(),
            all == views(blocks@),
            seen@.len() == 256,
            rows_of(all.take(i as int)).finite(),
            count == rows_of(all.take(i as int)).len(),
            count <= i,
            count <= 256 - 0,
            forall|row: int|
                0 <= row < 256 ==> #[trigger] seen@[row] == rows_of(all.take(i as int)).contains(row),
            forall|row: int| #[trigger]
                rows_of(all.take(i as int)).contains(row) ==> 0 <= row < 256,
        decreases blocks.len() - i,
    {
        let row = blocks[i].y() as usize;
        proof {
            let before = all.take(i as int);
            let after = all.take(i + 1);
            assert(after[i as int].y() == row);
            assert(rows_of(after) =~= rows_of(before).insert(row as int)) by {
                assert forall|r: int| rows_of(after).contains(r) == rows_of(before).insert(
                    row as int,
                ).contains(r) by {
                    if rows_of(after).contains(r) {
                        let k = choose|k: int| 0 <= k < after.len() && (#[trigger] after[k]).y() == r;
                        if k < i {
                            assert(before[k].y() == r);
                        }
                    }
                    if rows_of(before).contains(r) {
                        let k = choose|k: int|
                            0 <= k < before.len() && (#[trigger] before[k]).y() == r;
                        assert(after[k].y() == r);
                    }
                }
            }
        }
        if !seen[row] {
            seen.set(row, true);
            proof {
                lemma_rows_bounded(rows_of(all.take(i as int)), count as nat);
            }
            count += 1;
        }
        i += 1;
    }
    proof {
        assert(all.take(blocks@.len() as int) =~= all);
    }
    count
}

/// A finite set of rows of the board has at most 256 rows.
proof fn lemma_rows_bounded(rows: Set<int>, count: nat)
    requires
        rows.finite(),
        rows.len() == count,
        forall|row: int| #[trigger] rows.contains(row) ==> 0 <= row < 256,
        exists|row: int| 0 <= row < 256 && !rows.contains(row),
    ensures
        count < 256,
{
    broadcast use vstd::set::group_set_axioms;

    let full = Set::new(|row: int| 0 <= row < 256);
    vstd::set_lib::lemma_int_range(0, 256);
    assert(full =~= vstd::set_lib::set_int_range(0, 256));
    let missing = choose|row: int| 0 <= row < 256 && !rows.contains(row);
    let rest = full.remove(missing);
    assert(rows.subset_of(rest));
    vstd::set_lib::lemma_len_subset(rows, rest);
}

} // verus!
