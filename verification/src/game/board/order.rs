//! The order of the blocks of a board, and what sorting does to them.
use crate::game::block::{BlockView, State};
use crate::game::board::all_wf;
use vstd::prelude::*;

verus! {

/// The place of a state in the order of blocks: settled blocks first, then
/// falling ones, then interactable ones.
pub open spec fn state_rank(state: State) -> int {
    match state {
        State::Settled => 0,
        State::Falling => 1,
        State::Interactable => 2,
    }
}

/// Whether `a` comes strictly before `b` in the order of blocks: by state,
/// and within a state from the bottom row up and within a row from left to
/// right.
pub open spec fn sorts_before(a: BlockView, b: BlockView) -> bool {
    state_rank(a.state) < state_rank(b.state) || (a.state == b.state && (a.y() > b.y() || (a.y()
        == b.y() && a.x() < b.x())))
}

/// No block of `blocks` comes strictly before a block that stands before it.
pub open spec fn in_order(blocks: Seq<BlockView>) -> bool {
    forall|i: int, j: int|
        0 <= i < j < blocks.len() ==> !sorts_before(#[trigger] blocks[j], #[trigger] blocks[i])
}

/// `blocks`, which are in order, with `block` put in behind every block that
/// does not come after it.
pub open spec fn inserted(blocks: Seq<BlockView>, block: BlockView) -> Seq<BlockView>
    decreases blocks.len(),
{
    if blocks.len() > 0 && sorts_before(block, blocks.last()) {
        inserted(blocks.drop_last(), block).push(blocks.last())
    } else {
        blocks.push(block)
    }
}

/// `blocks` in order. Blocks of which neither comes before the other keep
/// the order that they had.
pub open spec fn sorted(blocks: Seq<BlockView>) -> Seq<BlockView>
    decreases blocks.len(),
{
    if blocks.len() == 0 {
        blocks
    } else {
        inserted(sorted(blocks.drop_last()), blocks.last())
    }
}

/// Putting a block in adds that block and nothing else, and keeps the blocks
/// in order.
pub proof fn lemma_inserted(blocks: Seq<BlockView>, block: BlockView)
    ensures
        inserted(blocks, block).len() == blocks.len() + 1,
        inserted(blocks, block).to_multiset() == blocks.to_multiset().insert(block),
        in_order(blocks) ==> in_order(inserted(blocks, block)),
        all_wf(blocks) && block.wf() ==> all_wf(inserted(blocks, block)),
        forall|k: int|
            0 <= k < inserted(blocks, block).len() ==> (#[trigger] inserted(blocks, block)[k])
                == block || exists|m: int|
                0 <= m < blocks.len() && blocks[m] == inserted(blocks, block)[k],
    decreases blocks.len(),
{
    broadcast use vstd::seq_lib::to_multiset_build;

    let out = inserted(blocks, block);
    if blocks.len() > 0 && sorts_before(block, blocks.last()) {
        let front = blocks.drop_last();
        let last = blocks.last();
        lemma_inserted(front, block);
        assert(blocks =~= front.push(last));
        assert(front.to_multiset().insert(block).insert(last) =~= front.to_multiset().insert(
            last,
        ).insert(block));
        let mid = inserted(front, block);
        assert forall|k: int| 0 <= k < out.len() implies (#[trigger] out[k]) == block || exists|
            m: int,
        |
            0 <= m < blocks.len() && blocks[m] == out[k] by {
            if k < mid.len() {
                assert(out[k] == mid[k]);
                if mid[k] != block {
                    let m = choose|m: int| 0 <= m < front.len() && front[m] == mid[k];
                    assert(blocks[m] == out[k]);
                }
            } else {
                assert(blocks[blocks.len() - 1] == out[k]);
            }
        }
        if in_order(blocks) {
            assert(in_order(front)) by {
                assert forall|i: int, j: int| 0 <= i < j < front.len() implies !sorts_before(
                    #[trigger] front[j],
                    #[trigger] front[i],
                ) by {
                    assert(front[j] == blocks[j] && front[i] == blocks[i]);
                }
            }
            assert forall|i: int, j: int| 0 <= i < j < out.len() implies !sorts_before(
                #[trigger] out[j],
                #[trigger] out[i],
            ) by {
                if j < mid.len() {
                    assert(out[i] == mid[i] && out[j] == mid[j]);
                } else {
                    assert(out[j] == last);
                    assert(out[i] == mid[i]);
                    if mid[i] != block {
                        let m = choose|m: int| 0 <= m < front.len() && front[m] == mid[i];
                        assert(blocks[m] == mid[i]);
                        assert(!sorts_before(blocks[blocks.len() - 1], blocks[m]));
                    }
                }
            }
        }
    } else {
        assert forall|k: int| 0 <= k < out.len() implies (#[trigger] out[k]) == block || exists|
            m: int,
        |
            0 <= m < blocks.len() && blocks[m] == out[k] by {
            if k < blocks.len() {
                assert(blocks[k] == out[k]);
            }
        }
        if in_order(blocks) {
            assert forall|i: int, j: int| 0 <= i < j < out.len() implies !sorts_before(
                #[trigger] out[j],
                #[trigger] out[i],
            ) by {
                if j < blocks.len() {
                    assert(out[i] == blocks[i] && out[j] == blocks[j]);
                } else {
                    assert(out[i] == blocks[i]);
                    assert(!sorts_before(blocks[i], blocks[blocks.len() - 1]) ==> !sorts_before(
                        block,
                        blocks[i],
                    )) by {
                        assert(!sorts_before(blocks[blocks.len() - 1], blocks[i]) || i
                            == blocks.len() - 1);
                    }
                }
            }
        }
    }
}

/// Sorting keeps every block, each as often as it stood on the board, and
/// puts the blocks in order.
pub proof fn lemma_sorted(blocks: Seq<BlockView>)
    ensures
        sorted(blocks).len() == blocks.len(),
        sorted(blocks).to_multiset() == blocks.to_multiset(),
        in_order(sorted(blocks)),
        all_wf(blocks) ==> all_wf(sorted(blocks)),
        forall|k: int|
            0 <= k < sorted(blocks).len() ==> exists|m: int|
                0 <= m < blocks.len() && blocks[m] == #[trigger] sorted(blocks)[k],
    decreases blocks.len(),
{
    broadcast use vstd::seq_lib::to_multiset_build;

    if blocks.len() > 0 {
        let front = blocks.drop_last();
        lemma_sorted(front);
        lemma_inserted(sorted(front), blocks.last());
        assert(blocks =~= front.push(blocks.last()));
        let out = sorted(blocks);
        assert forall|k: int| 0 <= k < out.len() implies exists|m: int|
            0 <= m < blocks.len() && blocks[m] == #[trigger] out[k] by {
            if out[k] == blocks.last() {
                assert(blocks[blocks.len() - 1] == out[k]);
            } else {
                let p = choose|p: int| 0 <= p < sorted(front).len() && sorted(front)[p] == out[k];
                let m = choose|m: int| 0 <= m < front.len() && front[m] == sorted(front)[p];
                assert(blocks[m] == out[k]);
            }
        }
        if all_wf(blocks) {
            assert(all_wf(front)) by {
                assert forall|i: int| 0 <= i < front.len() implies (#[trigger] front[i]).wf() by {
                    assert(front[i] == blocks[i]);
                }
            }
            assert(blocks[blocks.len() - 1].wf());
        }
    }
}

} // verus!
