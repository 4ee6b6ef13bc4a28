//! How the blocks of a board fall by one row.
use crate::game::block::{BlockView, State};
use crate::game::board::Msg;
use vstd::prelude::*;

verus! {

/// Whether `block` takes part in a fall: settled blocks never do, and
/// interactable ones only when the fall includes them.
pub open spec fn falls(block: BlockView, include_interactable: bool) -> bool {
    block.state != State::Settled && (include_interactable || block.state != State::Interactable)
}

/// Whether block `i` of `blocks` is held where it is: it lies on the floor
/// of a board `height` rows high, or one row further down it would share a
/// position with another block.
pub open spec fn held(blocks: Seq<BlockView>, i: int, height: u8) -> bool {
    blocks[i].y() + 1 >= height || exists|j: int|
        0 <= j < blocks.len() && j != i && blocks[i].moved(0, 1).overlaps(#[trigger] blocks[j])
}

/// How a fall ended: the blocks after it, whether a block settled, whether a
/// block moved, and whether a block settled on the top row, which ends the
/// fall and the game.
pub struct Fall {
    pub blocks: Seq<BlockView>,
    pub settled: bool,
    pub moved: bool,
    pub game_over: bool,
}

impl Fall {
    /// What the fall reports.
    pub open spec fn msg(self) -> Option<Msg> {
        if self.game_over {
            Some(Msg::GameOver)
        } else if self.settled {
            Some(Msg::BlocksSettled)
        } else if self.moved {
            Some(Msg::Updated)
        } else {
            None
        }
    }
}

/// The fall of the blocks from block `i` on, one after the other in the order
/// of the board: a block that is held settles, any other block moves one row
/// down. `settled` and `moved` say what the blocks before `i` did.
pub open spec fn fall_from(
    blocks: Seq<BlockView>,
    i: int,
    height: u8,
    include_interactable: bool,
    settled: bool,
    moved: bool,
) -> Fall
    decreases blocks.len() - i,
{
    if i < 0 || i >= blocks.len() {
        Fall { blocks, settled, moved, game_over: false }
    } else if !falls(blocks[i], include_interactable) {
        fall_from(blocks, i + 1, height, include_interactable, settled, moved)
    } else if held(blocks, i, height) {
        let kept = blocks.update(i, blocks[i].with_state(State::Settled));
        if blocks[i].y() == 0 {
            Fall { blocks: kept, settled: true, moved, game_over: true }
        } else {
            fall_from(kept, i + 1, height, include_interactable, true, moved)
        }
    } else {
        fall_from(
            blocks.update(i, blocks[i].moved(0, 1)),
            i + 1,
            height,
            include_interactable,
            settled,
            true,
        )
    }
}

/// Every block of `blocks` is settled.
pub open spec fn all_settled(blocks: Seq<BlockView>) -> bool {
    forall|i: int| 0 <= i < blocks.len() ==> (#[trigger] blocks[i]).state == State::Settled
}

} // verus!
