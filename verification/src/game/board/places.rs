//! What keeps the blocks of a board from sharing a position.
use crate::game::block::{lemma_overlap_is_box_intersection, lemma_same_places, BlockView};
use crate::game::board::order::{inserted, lemma_inserted, lemma_sorted, sorted, sorts_before};
use crate::game::board::rows::{cascaded, cleared, kept_of, lemma_parted};
use crate::game::board::{apart, BoardView};
use vstd::prelude::*;

verus! {

/// Sharing a position is mutual.
pub proof fn lemma_overlaps_symmetric(a: BlockView, b: BlockView)
    ensures
        a.overlaps(b) == b.overlaps(a),
{
    if a.overlaps(b) {
        let (i, j) = choose|i: int, j: int|
            0 <= i < a.cells.len() && 0 <= j < b.cells.len() && (#[trigger] a.cells[i]).position
                == (#[trigger] b.cells[j]).position;
        assert(b.cells[j].position == a.cells[i].position);
    }
    if b.overlaps(a) {
        let (j, i) = choose|j: int, i: int|
            0 <= j < b.cells.len() && 0 <= i < a.cells.len() && (#[trigger] b.cells[j]).position
                == (#[trigger] a.cells[i]).position;
        assert(a.cells[i].position == b.cells[j].position);
    }
}

/// Putting a block in among blocks that it shares no position with leaves
/// no two blocks sharing one.
pub proof fn lemma_inserted_apart(blocks: Seq<BlockView>, block: BlockView)
    requires
        apart(blocks.push(block)),
    ensures
        apart(inserted(blocks, block)),
    decreases blocks.len(),
{
    let all = blocks.push(block);
    let n = blocks.len() as int;
    if blocks.len() > 0 && sorts_before(block, blocks.last()) {
        let front = blocks.drop_last();
        let last = blocks.last();
        assert(apart(front.push(block))) by {
            let part = front.push(block);
            assert forall|i: int, j: int|
                0 <= i < part.len() && 0 <= j < part.len() && i != j implies !(
            #[trigger] part[i]).overlaps(#[trigger] part[j]) by {
                let a = if i < n - 1 {
                    i
                } else {
                    n
                };
                let b = if j < n - 1 {
                    j
                } else {
                    n
                };
                assert(part[i] == all[a] && part[j] == all[b]);
            }
        }
        lemma_inserted_apart(front, block);
        lemma_inserted(front, block);
        let mid = inserted(front, block);
        let out = inserted(blocks, block);
        assert(all[n - 1] == last && all[n] == block);
        assert forall|i: int, j: int|
            0 <= i < out.len() && 0 <= j < out.len() && i != j implies !(#[trigger] out[i]).overlaps(
            #[trigger] out[j],
        ) by {
            if i < n && j < n {
                assert(out[i] == mid[i] && out[j] == mid[j]);
            } else {
                let k = if i < n {
                    i
                } else {
                    j
                };
                assert(out[k] == mid[k]);
                if mid[k] == block {
                    assert(!all[n - 1].overlaps(all[n]) && !all[n].overlaps(all[n - 1]));
                } else {
                    let m = choose|m: int| 0 <= m < front.len() && front[m] == mid[k];
                    assert(all[m] == mid[k]);
                    assert(!all[n - 1].overlaps(all[m]) && !all[m].overlaps(all[n - 1]));
                }
            }
        }
    }
}

/// Sorting blocks of which no two share a position leaves no two sharing
/// one.
pub proof fn lemma_sorted_apart(blocks: Seq<BlockView>)
    requires
        apart(blocks),
    ensures
        apart(sorted(blocks)),
    decreases blocks.len(),
{
    if blocks.len() > 0 {
        let n = blocks.len() as int;
        let front = blocks.drop_last();
        let last = blocks.last();
        assert(apart(front)) by {
            assert forall|i: int, j: int|
                0 <= i < front.len() && 0 <= j < front.len() && i != j implies !(
            #[trigger] front[i]).overlaps(#[trigger] front[j]) by {
                assert(front[i] == blocks[i] && front[j] == blocks[j]);
            }
        }
        lemma_sorted_apart(front);
        lemma_sorted(front);
        let ordered = sorted(front);
        let all = ordered.push(last);
        assert forall|i: int, j: int|
            0 <= i < all.len() && 0 <= j < all.len() && i != j implies !(#[trigger] all[i]).overlaps(
            #[trigger] all[j],
        ) by {
            if i < n - 1 && j < n - 1 {
                assert(all[i] == ordered[i] && all[j] == ordered[j]);
            } else {
                let k = if i < n - 1 {
                    i
                } else {
                    j
                };
                assert(all[k] == ordered[k]);
                let m = choose|m: int| 0 <= m < front.len() && front[m] == ordered[k];
                assert(blocks[m] == ordered[k]);
                assert(!blocks[m].overlaps(blocks[n - 1]) && !blocks[n - 1].overlaps(blocks[m]));
            }
        }
        lemma_inserted_apart(ordered, last);
    }
}

/// A block that moves one cell sideways, among blocks of which no two share a
/// position, comes to share one exactly if another block lay over the cell
/// that it moves into.
pub proof fn lemma_step_apart(board: BoardView, f: int, dx: int)
    requires
        board.wf(),
        board.apart(),
        0 <= f < board.blocks.len(),
        dx == -1 || dx == 1,
        0 <= board.blocks[f].x() + dx,
        board.blocks[f].right() + dx <= 256,
    ensures
        apart(board.blocks.update(f, board.blocks[f].moved(dx, 0))) == !(if dx == -1 {
            board.crowded_on_left(f)
        } else {
            board.crowded_on_right(f)
        }),
{
    let before = board.blocks;
    let block = before[f];
    let moved = block.moved(dx, 0);
    let after = before.update(f, moved);
    assert(moved.wf());
    let crowded = if dx == -1 {
        board.crowded_on_left(f)
    } else {
        board.crowded_on_right(f)
    };
    if crowded {
        let j = if dx == -1 {
            choose|j: int|
                0 <= j < before.len() && j != f && (#[trigger] before[j]).y() == block.y()
                    && before[j].x() < block.x() <= before[j].right()
        } else {
            choose|j: int|
                0 <= j < before.len() && j != f && (#[trigger] before[j]).y() == block.y()
                    && before[j].x() <= block.right() < before[j].right()
        };
        lemma_overlap_is_box_intersection(moved, before[j]);
        assert(after[f].overlaps(after[j]));
    } else {
        assert forall|a: int, b: int|
            0 <= a < after.len() && 0 <= b < after.len() && a != b implies !(#[trigger] after[a]).overlaps(
            #[trigger] after[b],
        ) by {
            assert(!before[a].overlaps(before[b]));
            lemma_overlap_is_box_intersection(before[a], before[b]);
            lemma_overlap_is_box_intersection(after[a], after[b]);
            let other = if a == f {
                b
            } else {
                a
            };
            if a == f || b == f {
                if dx == -1 {
                    assert(!(before[other].y() == block.y() && before[other].x() < block.x()
                        <= before[other].right()));
                } else {
                    assert(!(before[other].y() == block.y() && before[other].x() <= block.right()
                        < before[other].right()));
                }
            }
        }
    }
}

/// A block that is put behind blocks of which no two share a position leaves
/// it so exactly if it shares no position with any of them.
pub proof fn lemma_pushed_apart(blocks: Seq<BlockView>, block: BlockView)
    requires
        apart(blocks),
    ensures
        apart(blocks.push(block)) == !(exists|j: int|
            0 <= j < blocks.len() && block.overlaps(#[trigger] blocks[j])),
{
    let now = blocks.push(block);
    let n = blocks.len() as int;
    if exists|j: int| 0 <= j < blocks.len() && block.overlaps(#[trigger] blocks[j]) {
        let j = choose|j: int| 0 <= j < blocks.len() && block.overlaps(#[trigger] blocks[j]);
        assert(now[n].overlaps(now[j]));
    } else {
        assert forall|a: int, b: int|
            0 <= a < now.len() && 0 <= b < now.len() && a != b implies !(#[trigger] now[a]).overlaps(
            #[trigger] now[b],
        ) by {
            lemma_overlaps_symmetric(now[a], now[b]);
            if a < n && b < n {
                assert(!blocks[a].overlaps(blocks[b]));
            } else if a < n {
                assert(!block.overlaps(blocks[a]));
            } else {
                assert(!block.overlaps(blocks[b]));
            }
        }
    }
}

/// A block that is replaced by one whose cells lie at the same positions
/// shares no position with another block if it shared none before.
pub proof fn lemma_replaced_in_place(blocks: Seq<BlockView>, f: int, block: BlockView)
    requires
        0 <= f < blocks.len(),
        blocks[f].same_places(block),
    ensures
        apart(blocks) ==> apart(blocks.update(f, block)),
{
    let now = blocks.update(f, block);
    if apart(blocks) {
        assert forall|a: int, b: int|
            0 <= a < now.len() && 0 <= b < now.len() && a != b implies !(#[trigger] now[a]).overlaps(
            #[trigger] now[b],
        ) by {
            assert(!blocks[a].overlaps(blocks[b]));
            if a == f {
                lemma_same_places(blocks[f], block, blocks[b]);
            } else if b == f {
                lemma_same_places(blocks[f], block, blocks[a]);
            }
        }
    }
}

/// Blocks that lie on the board lie on it when they are put in order, and
/// those that stay when the complete rows are cleared lie on it too.
pub proof fn lemma_clear_within(board: BoardView)
    requires
        board.within(),
    ensures
        board.sorted().within(),
        board.after_clear().within(),
{
    let ordered = sorted(board.blocks);
    lemma_sorted(board.blocks);
    assert forall|k: int| 0 <= k < ordered.len() implies board.holds(#[trigger] ordered[k]) by {
        let m = choose|m: int| 0 <= m < board.blocks.len() && board.blocks[m] == ordered[k];
        assert(board.holds(board.blocks[m]));
    }
    let kept = kept_of(ordered, board.blocks, board.width);
    lemma_parted(ordered, board.blocks, board.width);
    assert forall|k: int| 0 <= k < kept.len() implies board.holds(#[trigger] kept[k]) by {
        assert(kept.contains(kept[k]));
        let b = choose|b: BlockView|
            ordered.contains(b) && !cleared(board.blocks, board.width, b) && kept[k] == cascaded(
                board.blocks,
                board.width,
                b,
            );
        let m = choose|m: int| 0 <= m < ordered.len() && ordered[m] == b;
        assert(board.holds(ordered[m]));
    }
}

} // verus!
