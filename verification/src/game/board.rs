//! The board: the blocks on it, how they fall and move, and which rows are
//! full.
pub mod fall;
pub mod order;
pub mod places;
pub mod rows;

use crate::game::block::bounding_box::Offset;
use crate::game::block::{lemma_spawnable_wf, line, spawnable, Block, BlockView, State};
use crate::game::board::fall::{all_settled, fall_from, held, Fall};
use crate::game::board::order::{
    in_order, inserted, lemma_sorted, sorted, sorts_before, state_rank,
};
use crate::game::board::places::{
    lemma_clear_within, lemma_overlaps_symmetric, lemma_pushed_apart, lemma_sorted_apart,
    lemma_step_apart,
};
pub use crate::game::board::rows::distinct_rows;
use crate::game::board::rows::{
    cascaded, cleared_below, cover_count, kept_of, lemma_cover_count_skip, lemma_cover_count_step,
    lemma_row_complete_sorted, removed_of, row_complete,
};
pub use crate::game::position::BoardPosition;
use vstd::prelude::*;

verus! {

/// What a fall of the blocks did to the board.
#[derive(Debug, Clone, Copy, PartialEq, Eq, Structural)]
pub enum Msg {
    GameOver,
    BlocksSettled,
    Updated,
}

/// Every block of `blocks` is well formed.
pub open spec fn all_wf(blocks: Seq<BlockView>) -> bool {
    forall|i: int| 0 <= i < blocks.len() ==> (#[trigger] blocks[i]).wf()
}

/// No two blocks of `blocks` share a position.
pub open spec fn apart(blocks: Seq<BlockView>) -> bool {
    forall|i: int, j: int|
        0 <= i < blocks.len() && 0 <= j < blocks.len() && i != j ==> !(#[trigger] blocks[i]).overlaps(
            #[trigger] blocks[j],
        )
}

/// Every block of `blocks` lies on a board of `width` by `height` cells.
pub open spec fn all_within(blocks: Seq<BlockView>, width: u8, height: u8) -> bool {
    forall|i: int|
        0 <= i < blocks.len() ==> (#[trigger] blocks[i]).right() <= width && blocks[i].y() < height
}

/// The index of the first interactable block from `i` on, or the number of
/// blocks if there is none.
pub open spec fn focus_from(blocks: Seq<BlockView>, i: int) -> int
    decreases blocks.len() - i,
{
    if i < 0 || i >= blocks.len() {
        blocks.len() as int
    } else if blocks[i].state == State::Interactable {
        i
    } else {
        focus_from(blocks, i + 1)
    }
}

/// The first interactable block from `i` on is the first one: none of the
/// blocks between `i` and it is interactable.
pub proof fn lemma_focus_from(blocks: Seq<BlockView>, i: int)
    requires
        0 <= i <= blocks.len(),
    ensures
        i <= focus_from(blocks, i) <= blocks.len(),
        focus_from(blocks, i) < blocks.len() ==> blocks[focus_from(blocks, i)].state
            == State::Interactable,
        forall|k: int|
            i <= k < focus_from(blocks, i) ==> (#[trigger] blocks[k]).state != State::Interactable,
    decreases blocks.len() - i,
{
    if i < blocks.len() && blocks[i].state != State::Interactable {
        lemma_focus_from(blocks, i + 1);
    }
}

/// What a board holds: its blocks in their order, and its size in cells.
pub struct BoardView {
    pub blocks: Seq<BlockView>,
    pub width: u8,
    pub height: u8,
}

impl BoardView {
    /// Every block on the board is well formed.
    pub open spec fn wf(self) -> bool {
        all_wf(self.blocks)
    }

    /// No two blocks on the board share a position.
    pub open spec fn apart(self) -> bool {
        apart(self.blocks)
    }

    /// Every block lies on the board.
    pub open spec fn within(self) -> bool {
        all_within(self.blocks, self.width, self.height)
    }

    /// Whether `block` lies on the board.
    pub open spec fn holds(self, block: BlockView) -> bool {
        block.right() <= self.width && block.y() < self.height
    }

    /// The index of the focused block: the first interactable one.
    pub open spec fn focus(self) -> Option<int> {
        let f = focus_from(self.blocks, 0);
        if f < self.blocks.len() {
            Some(f)
        } else {
            None
        }
    }

    /// How the blocks fall by one row.
    pub open spec fn fall(self, include_interactable: bool) -> Fall {
        fall_from(self.blocks, 0, self.height, include_interactable, false, false)
    }

    /// The board with its blocks in order.
    pub open spec fn sorted(self) -> Self {
        self.with_blocks(sorted(self.blocks))
    }

    /// The blocks that clearing the complete rows takes from the board, in
    /// the order of blocks.
    pub open spec fn cleared_blocks(self) -> Seq<BlockView> {
        removed_of(sorted(self.blocks), self.blocks, self.width)
    }

    /// The board after its complete rows were cleared: the blocks that stay
    /// are in order, and the settled ones above a cleared row fall again.
    pub open spec fn after_clear(self) -> Self {
        self.with_blocks(kept_of(sorted(self.blocks), self.blocks, self.width))
    }

    /// The same board with other blocks.
    pub open spec fn with_blocks(self, blocks: Seq<BlockView>) -> Self {
        BoardView { blocks, ..self }
    }

    /// A settled block of the row of block `f` ends where block `f` begins.
    pub open spec fn settled_on_left(self, f: int) -> bool {
        exists|j: int|
            0 <= j < self.blocks.len() && (#[trigger] self.blocks[j]).state == State::Settled
                && self.blocks[j].y() == self.blocks[f].y() && self.blocks[j].right()
                == self.blocks[f].x()
    }

    /// A settled block of the row of block `f` begins where block `f` ends.
    pub open spec fn settled_on_right(self, f: int) -> bool {
        exists|j: int|
            0 <= j < self.blocks.len() && (#[trigger] self.blocks[j]).state == State::Settled
                && self.blocks[j].y() == self.blocks[f].y() && self.blocks[j].x()
                == self.blocks[f].right()
    }

    /// A block other than block `f` lies over the cell to the left of block
    /// `f`.
    pub open spec fn crowded_on_left(self, f: int) -> bool {
        exists|j: int|
            0 <= j < self.blocks.len() && j != f && (#[trigger] self.blocks[j]).y()
                == self.blocks[f].y() && self.blocks[j].x() < self.blocks[f].x()
                <= self.blocks[j].right()
    }

    /// A block other than block `f` lies over the cell to the right of block
    /// `f`.
    pub open spec fn crowded_on_right(self, f: int) -> bool {
        exists|j: int|
            0 <= j < self.blocks.len() && j != f && (#[trigger] self.blocks[j]).y()
                == self.blocks[f].y() && self.blocks[j].x() <= self.blocks[f].right()
                < self.blocks[j].right()
    }

    /// Whether the focused block moves one cell to the left: there is one, it
    /// is typed correctly, it is not at the left edge, and no settled block
    /// is in its way.
    pub open spec fn can_left(self) -> bool {
        match self.focus() {
            Some(f) => self.blocks[f].is_movable() && self.blocks[f].x() > 0
                && !self.settled_on_left(f),
            None => false,
        }
    }

    /// The board after a move to the left was asked for.
    pub open spec fn after_left(self) -> Self {
        if self.can_left() {
            let f = self.focus()->0;
            self.with_blocks(self.blocks.update(f, self.blocks[f].moved(-1, 0)))
        } else {
            self
        }
    }

    /// Whether the focused block moves one cell to the right: there is one,
    /// it is typed correctly, it is not at the right edge, and no settled
    /// block is in its way.
    pub open spec fn can_right(self) -> bool {
        match self.focus() {
            Some(f) => self.blocks[f].is_movable() && self.blocks[f].right() < self.width
                && !self.settled_on_right(f),
            None => false,
        }
    }

    /// The board after a move to the right was asked for.
    pub open spec fn after_right(self) -> Self {
        if self.can_right() {
            let f = self.focus()->0;
            self.with_blocks(self.blocks.update(f, self.blocks[f].moved(1, 0)))
        } else {
            self
        }
    }

    /// The board after `ch` was typed into the focused block.
    pub open spec fn after_type(self, ch: char) -> Self {
        match self.focus() {
            Some(f) => self.with_blocks(self.blocks.update(f, self.blocks[f].after_add(ch))),
            None => self,
        }
    }

    /// Whether typing `ch` changes the board.
    pub open spec fn can_type(self, ch: char) -> bool {
        match self.focus() {
            Some(f) => self.blocks[f].can_add(ch),
            None => false,
        }
    }

    /// The board after a letter was deleted from the focused block.
    pub open spec fn after_delete(self) -> Self {
        match self.focus() {
            Some(f) => self.with_blocks(self.blocks.update(f, self.blocks[f].after_delete())),
            None => self,
        }
    }

    /// Whether deleting a letter changes the board.
    pub open spec fn can_delete(self) -> bool {
        match self.focus() {
            Some(f) => self.blocks[f].can_delete(),
            None => false,
        }
    }

    /// Whether `block` shares a position with a block of the board.
    pub open spec fn hits(self, block: BlockView) -> bool {
        exists|j: int| 0 <= j < self.blocks.len() && block.overlaps(#[trigger] self.blocks[j])
    }

    /// The board with `block` behind its blocks.
    pub open spec fn with_block(self, block: BlockView) -> Self {
        self.with_blocks(self.blocks.push(block))
    }

    /// The board after the focus was released: the focused block falls.
    pub open spec fn after_focus_next(self) -> Self {
        match self.focus() {
            Some(f) => self.with_blocks(
                self.blocks.update(f, self.blocks[f].with_state(State::Falling)),
            ),
            None => self,
        }
    }
}

/// The blocks of the board that `Board::populated` makes: thirteen settled
/// words on the nine lowest rows of a board of 16 by 32 cells. The rows 31 and
/// 28 are complete.
pub open spec fn populated_blocks() -> Seq<BlockView> {
    seq![
        line("Taylor"@, State::Settled, 10, 31),
        line("hello"@, State::Settled, 0, 31),
        line("world"@, State::Settled, 5, 31),
        line("Supercali"@, State::Settled, 3, 30),
        line("Rustaceanvim"@, State::Settled, 2, 29),
        line("LazyVim"@, State::Settled, 0, 28),
        line("folke"@, State::Settled, 7, 28),
        line("four"@, State::Settled, 12, 28),
        line("Stranger"@, State::Settled, 1, 27),
        line("Contessa"@, State::Settled, 3, 26),
        line("im"@, State::Settled, 7, 25),
        line("outtacotta"@, State::Settled, 4, 24),
        line("ideas"@, State::Settled, 5, 23),
    ]
}

/// What each of `blocks` holds.
pub open spec fn views(blocks: Seq<Block>) -> Seq<BlockView> {
    Seq::new(blocks.len(), |i: int| blocks[i]@)
}

#[derive(Debug, Clone, PartialEq, Eq)]
pub struct Board {
    blocks: Vec<Block>,
    width: u8,
    height: u8,
}

impl View for Board {
    type V = BoardView;

    closed spec fn view(&self) -> BoardView {
        BoardView { blocks: views(self.blocks@), width: self.width, height: self.height }
    }
}

impl Board {
    /// An empty board, or one with a first block that was drawn at random.
    pub fn new(width: u8, height: u8, starts_with_one: bool) -> (r: Self)
        requires
            starts_with_one ==> width >= 1,
        ensures
            r@.wf(),
            r@.width == width,
            r@.height == height,
            !starts_with_one ==> r@.blocks.len() == 0,
            starts_with_one ==> r@.blocks.len() == 1 && spawnable(r@.blocks[0], width),
    {
        let mut blocks: Vec<Block> = Vec::new();
        if starts_with_one {
            blocks.push(Block::random(width));
        }
        Self { blocks, width, height }
    }

    /// A board of 16 by 32 cells with thirteen settled words on its lowest
    /// rows, two of which are complete.
    pub fn populated() -> (r: Self)
        ensures
            r@ == (BoardView { blocks: populated_blocks(), width: 16, height: 32 }),
            r@.wf(),
    {
        proof {
            reveal_strlit("Taylor");
            reveal_strlit("hello");
            reveal_strlit("world");
            reveal_strlit("Supercali");
            reveal_strlit("Rustaceanvim");
            reveal_strlit("LazyVim");
            reveal_strlit("folke");
            reveal_strlit("four");
            reveal_strlit("Stranger");
            reveal_strlit("Contessa");
            reveal_strlit("im");
            reveal_strlit("outtacotta");
            reveal_strlit("ideas");
        }
        let mut board = Self::new(16, 32, false);
        board.push_block(Block::new_settled("Taylor", 10, 31));
        board.push_block(Block::new_settled("hello", 0, 31));
        board.push_block(Block::new_settled("world", 5, 31));
        board.push_block(Block::new_settled("Supercali", 3, 30));
        board.push_block(Block::new_settled("Rustaceanvim", 2, 29));
        board.push_block(Block::new_settled("LazyVim", 0, 28));
        board.push_block(Block::new_settled("folke", 7, 28));
        board.push_block(Block::new_settled("four", 12, 28));
        board.push_block(Block::new_settled("Stranger", 1, 27));
        board.push_block(Block::new_settled("Contessa", 3, 26));
        board.push_block(Block::new_settled("im", 7, 25));
        board.push_block(Block::new_settled("outtacotta", 4, 24));
        board.push_block(Block::new_settled("ideas", 5, 23));
        assert(board@.blocks =~= populated_blocks());
        board
    }

    #[inline]
    pub fn blocks(&self) -> (r: &Vec<Block>)
        ensures
            views(r@) == self@.blocks,
    {
        &self.blocks
    }

    #[inline]
    pub fn width(&self) -> (r: u8)
        ensures
            r == self@.width,
    {
        self.width
    }

    #[inline]
    pub fn height(&self) -> (r: u8)
        ensures
            r == self@.height,
    {
        self.height
    }

    /// The index of the focused block: the first interactable one.
    pub fn get_focused_index(&self) -> (r: Option<usize>)
        ensures
            r is Some <==> self@.focus() is Some,
            r is Some ==> r->0 == self@.focus()->0,
    {
        let mut i: usize = 0;
        while i < self.blocks.len()
            invariant
                i <= self.blocks.len(),
                focus_from(self@.blocks, 0) == focus_from(self@.blocks, i as int),
            decreases self.blocks.len() - i,
        {
            if self.blocks[i].is_interactable() {
                return Some(i);
            }
            i += 1;
        }
        None
    }

    /// The focused block: the first interactable one.
    pub fn get_focused(&self) -> (r: Option<&Block>)
        ensures
            r is Some <==> self@.focus() is Some,
            r is Some ==> r->0@ == self@.blocks[self@.focus()->0],
    {
        match self.get_focused_index() {
            Some(i) => Some(&self.blocks[i]),
            None => None,
        }
    }

    /// The focused block, to type into.
    pub fn get_focused_mut(&mut self) -> (r: Option<&mut Block>)
        ensures
            r is Some <==> old(self)@.focus() is Some,
            r is Some ==> (*r->0)@ == old(self)@.blocks[old(self)@.focus()->0],
            r is Some ==> final(self)@.blocks =~= old(self)@.blocks.update(
                old(self)@.focus()->0,
                (*final(r->0))@,
            ),
            final(self)@.width == old(self)@.width,
            final(self)@.height == old(self)@.height,
            r is None ==> *final(self) == *old(self),
    {
        match self.get_focused_index() {
            Some(i) => {
                let block = &mut self.blocks[i];
                Some(block)
            },
            None => None,
        }
    }

    /// Puts `block` on the board, after the blocks that are there.
    pub fn push_block(&mut self, block: Block)
        ensures
            final(self)@ == old(self)@.with_block(block@),
            old(self)@.wf() && block@.wf() ==> final(self)@.wf(),
            old(self)@.apart() ==> final(self)@.apart() == !old(self)@.hits(block@),
            old(self)@.within() && old(self)@.holds(block@) ==> final(self)@.within(),
    {
        self.blocks.push(block);
        proof {
            assert(self@.blocks =~= old(self)@.blocks.push(block@));
            if old(self)@.apart() {
                lemma_pushed_apart(old(self)@.blocks, block@);
            }
        }
    }

    /// Puts a block that was drawn at random on the top row.
    pub fn spawn_block(&mut self)
        requires
            old(self)@.width >= 1,
        ensures
            exists|block: BlockView|
                spawnable(block, old(self)@.width) && final(self)@ == old(self)@.with_block(block),
            old(self)@.wf() ==> final(self)@.wf(),
            old(self)@.within() && old(self)@.height >= 1 ==> final(self)@.within(),
    {
        let block = Block::random(self.width);
        proof {
            lemma_spawnable_wf(block@, self@.width);
        }
        self.push_block(block);
        assert(spawnable(block@, old(self)@.width));
    }

    /// Releases the focused block, which then falls. Returns whether there
    /// was one.
    pub fn focus_next(&mut self) -> (r: bool)
        ensures
            r == old(self)@.focus() is Some,
            final(self)@ == old(self)@.after_focus_next(),
            !r ==> *final(self) == *old(self),
            old(self)@.wf() ==> final(self)@.wf(),
            old(self)@.apart() ==> final(self)@.apart(),
            old(self)@.within() ==> final(self)@.within(),
    {
        match self.get_focused_index() {
            Some(i) => {
                self.blocks[i].set_state(State::Falling);
                assert(self@.blocks =~= old(self)@.blocks.update(
                    i as int,
                    old(self)@.blocks[i as int].with_state(State::Falling),
                ));
                true
            },
            None => false,
        }
    }

    /// Whether a settled block of row `y` ends in column `x`.
    fn settled_ends_at(&self, x: u8, y: u8) -> (r: bool)
        ensures
            r == exists|j: int|
                0 <= j < self@.blocks.len() && (#[trigger] self@.blocks[j]).state
                    == State::Settled && self@.blocks[j].y() == y && self@.blocks[j].right() == x,
    {
        let mut j: usize = 0;
        while j < self.blocks.len()
            invariant
                j <= self.blocks.len(),
                forall|k: int|
                    0 <= k < j ==> !((#[trigger] self@.blocks[k]).state == State::Settled
                        && self@.blocks[k].y() == y && self@.blocks[k].right() == x),
            decreases self.blocks.len() - j,
        {
            let block = &self.blocks[j];
            if block.is_settled() && block.y() == y && block.x() as u16 + block.width() as u16
                == x as u16 {
                assert(self@.blocks[j as int].state == State::Settled);
                return true;
            }
            j += 1;
        }
        false
    }

    /// Whether a settled block of row `y` begins in column `x`.
    fn settled_begins_at(&self, x: u16, y: u8) -> (r: bool)
        ensures
            r == exists|j: int|
                0 <= j < self@.blocks.len() && (#[trigger] self@.blocks[j]).state
                    == State::Settled && self@.blocks[j].y() == y && self@.blocks[j].x() == x,
    {
        let mut j: usize = 0;
        while j < self.blocks.len()
            invariant
                j <= self.blocks.len(),
                forall|k: int|
                    0 <= k < j ==> !((#[trigger] self@.blocks[k]).state == State::Settled
                        && self@.blocks[k].y() == y && self@.blocks[k].x() == x),
            decreases self.blocks.len() - j,
        {
            let block = &self.blocks[j];
            if block.is_settled() && block.y() == y && block.x() as u16 == x {
                assert(self@.blocks[j as int].state == State::Settled);
                return true;
            }
            j += 1;
        }
        false
    }

    /// Moves the focused block one cell to the left. The move is refused,
    /// and the board left as it is, if there is no focused block, if its word
    /// is not typed correctly, at the left edge of the board, and where a
    /// settled block of the same row ends in the column next to it. Returns
    /// whether the block moved.
    pub fn left(&mut self) -> (r: bool)
        requires
            old(self)@.wf(),
        ensures
            r == old(self)@.can_left(),
            final(self)@ == old(self)@.after_left(),
            final(self)@.wf(),
            !r ==> *final(self) == *old(self),
            old(self)@.apart() ==> final(self)@.apart() == !(r && old(self)@.crowded_on_left(
                old(self)@.focus()->0,
            )),
            old(self)@.within() ==> final(self)@.within(),
    {
        let focus_index = match self.get_focused_index() {
            Some(i) => i,
            None => {
                return false;
            },
        };
        let focus = &self.blocks[focus_index];
        if !focus.is_movable() {
            return false;
        }
        let x = focus.x();
        if x == 0 {
            return false;
        }
        let y = focus.y();
        if self.settled_ends_at(x, y) {
            return false;
        }
        self.blocks[focus_index].shift(Offset::new(-1, 0));
        proof {
            assert(self@.blocks =~= old(self)@.blocks.update(
                focus_index as int,
                old(self)@.blocks[focus_index as int].moved(-1, 0),
            ));
            if old(self)@.apart() {
                lemma_step_apart(old(self)@, focus_index as int, -1);
            }
        }
        true
    }

    /// Moves the focused block one cell to the right. The move is refused,
    /// and the board left as it is, if there is no focused block, if its word
    /// is not typed correctly, at the right edge of the board, and where a
    /// settled block of the same row begins in the column next to it. Returns
    /// whether the block moved.
    pub fn right(&mut self) -> (r: bool)
        requires
            old(self)@.wf(),
        ensures
            r == old(self)@.can_right(),
            final(self)@ == old(self)@.after_right(),
            final(self)@.wf(),
            !r ==> *final(self) == *old(self),
            old(self)@.apart() ==> final(self)@.apart() == !(r && old(self)@.crowded_on_right(
                old(self)@.focus()->0,
            )),
            old(self)@.within() ==> final(self)@.within(),
    {
        let focus_index = match self.get_focused_index() {
            Some(i) => i,
            None => {
                return false;
            },
        };
        let focus = &self.blocks[focus_index];
        if !focus.is_movable() {
            return false;
        }
        let x: u16 = focus.x() as u16 + focus.width() as u16;
        if x >= self.width as u16 {
            return false;
        }
        let y = focus.y();
        if self.settled_begins_at(x, y) {
            return false;
        }
        self.blocks[focus_index].shift(Offset::new(1, 0));
        proof {
            assert(self@.blocks =~= old(self)@.blocks.update(
                focus_index as int,
                old(self)@.blocks[focus_index as int].moved(1, 0),
            ));
            if old(self)@.apart() {
                lemma_step_apart(old(self)@, focus_index as int, 1);
            }
        }
        true
    }

    /// Whether block `i` shares a position with another block.
    pub fn collides(&self, i: usize) -> (r: bool)
        requires
            i < self@.blocks.len(),
            self@.wf(),
        ensures
            r == exists|j: int|
                0 <= j < self@.blocks.len() && j != i && self@.blocks[i as int].overlaps(
                    #[trigger] self@.blocks[j],
                ),
    {
        let mut j: usize = 0;
        while j < self.blocks.len()
            invariant
                j <= self.blocks.len(),
                i < self.blocks.len(),
                self@.wf(),
                forall|k: int|
                    0 <= k < j && k != i ==> !self@.blocks[i as int].overlaps(
                        #[trigger] self@.blocks[k],
                    ),
            decreases self.blocks.len() - j,
        {
            if j != i {
                assert(self@.blocks[i as int].wf() && self@.blocks[j as int].wf());
                if self.blocks[i].intersect(&self.blocks[j]) {
                    return true;
                }
            }
            j += 1;
        }
        false
    }

    /// Lets every block that is not settled fall by one row, in the order of
    /// the board; the interactable blocks only if `include_interactable`. A
    /// block that lies on the floor, or that one row further down would share
    /// a position with another block, stays where it is and settles. A block
    /// that settles on the top row ends the fall at once, and the game.
    ///
    /// Returns `GameOver` for that, else `BlocksSettled` if a block settled,
    /// else `Updated` if a block moved, else `None`: nothing changed.
    pub fn fall_tick(&mut self, include_interactable: bool) -> (r: Option<Msg>)
        requires
            old(self)@.wf(),
        ensures
            final(self)@ == old(self)@.with_blocks(old(self)@.fall(include_interactable).blocks),
            r == old(self)@.fall(include_interactable).msg(),
            final(self)@.wf(),
            old(self)@.apart() ==> final(self)@.apart(),
            old(self)@.within() ==> final(self)@.within(),
            all_settled(old(self)@.blocks) ==> r is None,
            r is None ==> *final(self) == *old(self),
    {
        let mut newly_settled = false;
        let mut has_update = false;
        let n = self.blocks.len();
        let mut i: usize = 0;
        while i < n
            invariant
                i <= n,
                n == self@.blocks.len(),
                self@.width == old(self)@.width,
                self@.height == old(self)@.height,
                all_wf(self@.blocks),
                old(self)@.fall(include_interactable) == fall_from(
                    self@.blocks,
                    i as int,
                    self@.height,
                    include_interactable,
                    newly_settled,
                    has_update,
                ),
                old(self)@.apart() ==> apart(self@.blocks),
                old(self)@.within() ==> all_within(self@.blocks, self@.width, self@.height),
                all_settled(old(self)@.blocks) ==> !newly_settled && !has_update,
                !newly_settled && !has_update ==> *self == *old(self),
            decreases n - i,
        {
            let ghost before = self@.blocks;
            let block = &self.blocks[i];
            if !(block.is_settled() || (!include_interactable && block.is_interactable())) {
                let y = block.y();
                let mut stays = y as u16 + 1 >= self.height as u16;
                if !stays {
                    self.blocks[i].shift(Offset::new(0, 1));
                    assert(self@.blocks =~= before.update(i as int, before[i as int].moved(0, 1)));
                    let hit = self.collides(i);
                    proof {
                        let lower = self@.blocks;
                        if hit {
                            let j = choose|j: int|
                                0 <= j < n && j != i && lower[i as int].overlaps(
                                    #[trigger] lower[j],
                                );
                            assert(lower[j] == before[j]);
                        } else {
                            assert forall|j: int| 0 <= j < n && j != i implies !before[i as int].moved(
                                0,
                                1,
                            ).overlaps(#[trigger] before[j]) by {
                                assert(lower[j] == before[j]);
                            }
                        }
                        assert(hit == held(before, i as int, self@.height));
                    }
                    if hit {
                        self.blocks[i].shift(Offset::new(0, -1));
                        assert(before[i as int].moved(0, 1).moved(0, -1).cells
                            =~= before[i as int].cells);
                        assert(self@.blocks =~= before);
                        stays = true;
                    }
                }
                assert(stays == held(before, i as int, self@.height));
                if stays {
                    self.blocks[i].set_state(State::Settled);
                    assert(self@.blocks =~= before.update(
                        i as int,
                        before[i as int].with_state(State::Settled),
                    ));
                    newly_settled = true;
                    if y == 0 {
                        return Some(Msg::GameOver);
                    }
                } else {
                    has_update = true;
                    proof {
                        if apart(before) {
                            assert forall|a: int, b: int|
                                0 <= a < n && 0 <= b < n && a != b implies !(
                            #[trigger] self@.blocks[a]).overlaps(#[trigger] self@.blocks[b]) by {
                                lemma_overlaps_symmetric(self@.blocks[a], self@.blocks[b]);
                            }
                        }
                    }
                }
            }
            i += 1;
        }
        if newly_settled {
            Some(Msg::BlocksSettled)
        } else if has_update {
            Some(Msg::Updated)
        } else {
            None
        }
    }

    /// Puts the blocks in order: settled blocks first, then falling ones, then
    /// interactable ones, and the blocks of one state from the bottom row up
    /// and within a row from left to right. Blocks of one state at one place
    /// keep the order that they had.
    pub fn sort(&mut self)
        ensures
            final(self)@ == old(self)@.sorted(),
            old(self)@.wf() ==> final(self)@.wf(),
            old(self)@.apart() ==> final(self)@.apart(),
            old(self)@.within() ==> final(self)@.within(),
    {
        let n = self.blocks.len();
        let mut i: usize = 0;
        proof {
            assert(self@.blocks.take(0) =~= sorted(old(self)@.blocks.take(0)));
            lemma_sorted(old(self)@.blocks);
            if old(self)@.within() {
                lemma_clear_within(old(self)@);
            }
            if old(self)@.apart() {
                lemma_sorted_apart(old(self)@.blocks);
            }
        }
        while i < n
            invariant
                i <= n,
                n == self@.blocks.len(),
                n == old(self)@.blocks.len(),
                self@.width == old(self)@.width,
                self@.height == old(self)@.height,
                self@.blocks.take(i as int) == sorted(old(self)@.blocks.take(i as int)),
                self@.blocks.skip(i as int) == old(self)@.blocks.skip(i as int),
            decreases n - i,
        {
            let ghost before = self@.blocks;
            let ghost front = before.take(i as int);
            let block = self.blocks.remove(i);
            assert(block@ == before[i as int]);
            assert(block@ == old(self)@.blocks.skip(i as int)[0]);
            assert(self@.blocks =~= before.remove(i as int));
            let mut j: usize = i;
            proof {
                assert(front.take(i as int) =~= front);
                assert(inserted(front, block@) + front.skip(i as int) =~= inserted(front, block@));
            }
            while j > 0 && sorts_first(&block, &self.blocks[j - 1])
                invariant
                    j <= i,
                    i < n,
                    self.blocks@.len() == n - 1,
                    self@.blocks =~= before.remove(i as int),
                    front == before.take(i as int),
                    before.len() == n,
                    inserted(front, block@) =~= inserted(front.take(j as int), block@) + front.skip(
                        j as int,
                    ),
                decreases j,
            {
                proof {
                    let head = front.take(j as int);
                    assert(head.last() == front[j - 1]);
                    assert(front[j - 1] == self@.blocks[j - 1]);
                    assert(self@.blocks[j - 1] == self.blocks@[j - 1]@);
                    assert(sorts_before(block@, head.last()));
                    assert(head.drop_last() =~= front.take(j - 1));
                    assert(inserted(head, block@) == inserted(front.take(j - 1), block@).push(
                        front[j - 1],
                    ));
                    assert(inserted(front.take(j - 1), block@).push(front[j - 1]) + front.skip(
                        j as int,
                    ) =~= inserted(front.take(j - 1), block@) + front.skip(j - 1));
                }
                j -= 1;
            }
            proof {
                let head = front.take(j as int);
                if j > 0 {
                    assert(head.last() == front[j - 1]);
                    assert(front[j - 1] == self@.blocks[j - 1]);
                    assert(self@.blocks[j - 1] == self.blocks@[j - 1]@);
                }
                assert(inserted(head, block@) == head.push(block@));
            }
            self.blocks.insert(j, block);
            proof {
                let now = self@.blocks;
                assert(now =~= before.remove(i as int).insert(j as int, block@));
                assert(now.take(i + 1) =~= front.take(j as int).push(block@) + front.skip(j as int));
                let upto = old(self)@.blocks.take(i + 1);
                assert(upto.drop_last() =~= old(self)@.blocks.take(i as int));
                assert(upto.last() == block@);
                let tail = now.skip(i + 1);
                let kept = old(self)@.blocks.skip(i + 1);
                assert(tail =~= kept) by {
                    assert forall|k: int| 0 <= k < n - i - 1 implies #[trigger] tail[k]
                        == kept[k] by {
                        assert(tail[k] == before[i + 1 + k]);
                        assert(before[i + 1 + k] == before.skip(i as int)[k + 1]);
                    }
                }
            }
            i += 1;
        }
        proof {
            assert(self@.blocks.take(n as int) =~= self@.blocks);
            assert(old(self)@.blocks.take(n as int) =~= old(self)@.blocks);
        }
    }

    /// Which rows are complete, and the lowest of them. The blocks are in
    /// order, so the settled blocks of a row stand side by side from left to
    /// right: the row is complete if the first of them begins at the left
    /// edge of the board, each of the others begins where the one before it
    /// ends, and the last one ends at the right edge.
    fn complete_rows(&self) -> (r: (Vec<bool>, Option<u8>))
        requires
            self@.wf(),
            in_order(self@.blocks),
        ensures
            r.0@.len() == 256,
            forall|row: int|
                0 <= row < 256 ==> #[trigger] r.0@[row] == row_complete(
                    self@.blocks,
                    self@.width,
                    row,
                ),
            match r.1 {
                Some(low) => row_complete(self@.blocks, self@.width, low as int) && forall|
                    row: int,
                |
                    low < row < 256 ==> !#[trigger] row_complete(self@.blocks, self@.width, row),
                None => forall|row: int|
                    0 <= row < 256 ==> !#[trigger] row_complete(self@.blocks, self@.width, row),
            },
    {
        let ghost blocks = self@.blocks;
        let ghost width = self@.width;
        let n = self.blocks.len();
        let mut complete: Vec<bool> = Vec::new();
        let mut filled: usize = 0;
        while filled < 256
            invariant
                filled <= 256,
                complete@.len() == filled,
                forall|row: int| 0 <= row < filled ==> !#[trigger] complete@[row],
            decreases 256 - filled,
        {
            complete.push(false);
            filled += 1;
        }
        let mut lowest: Option<u8> = None;
        let mut i: usize = 0;
        let mut row: u16 = 256;
        while row > 0
            invariant
                row <= 256,
                i <= n,
                n == blocks.len(),
                blocks == self@.blocks,
                width == self@.width,
                all_wf(blocks),
                in_order(blocks),
                complete@.len() == 256,
                forall|r: int|
                    row <= r < 256 ==> #[trigger] complete@[r] == row_complete(blocks, width, r),
                forall|r: int| 0 <= r < row ==> !#[trigger] complete@[r],
                forall|k: int|
                    0 <= k < i ==> (#[trigger] blocks[k]).state == State::Settled && blocks[k].y()
                        >= row,
                i < n && blocks[i as int].state == State::Settled ==> blocks[i as int].y() < row,
                match lowest {
                    Some(low) => low >= row && row_complete(blocks, width, low as int) && forall|
                        r: int,
                    |
                        low < r < 256 ==> !#[trigger] row_complete(blocks, width, r),
                    None => forall|r: int|
                        row <= r < 256 ==> !#[trigger] row_complete(blocks, width, r),
                },
            decreases row,
        {
            row -= 1;
            let y = row as u8;
            let ghost start = i;
            let mut ok = true;
            let mut expected: u16 = 0;
            let ghost mut gap: int = 0;
            proof {
                assert forall|x: int| 0 <= x < 256 implies #[trigger] cover_count(
                    blocks.take(i as int),
                    x,
                    y as int,
                ) == 0 by {
                    lemma_cover_count_skip(blocks, 0, i as int, x, y as int);
                }
            }
            while i < n && self.blocks[i].is_settled() && self.blocks[i].y() == y
                invariant
                    start <= i <= n,
                    n == blocks.len(),
                    blocks == self@.blocks,
                    all_wf(blocks),
                    in_order(blocks),
                    expected <= 256,
                    forall|k: int|
                        0 <= k < i ==> (#[trigger] blocks[k]).state == State::Settled
                            && blocks[k].y() >= y,
                    forall|k: int| start <= k < i ==> (#[trigger] blocks[k]).y() == y,
                    ok ==> forall|x: int|
                        0 <= x < 256 ==> #[trigger] cover_count(blocks.take(i as int), x, y as int)
                            == if x < expected {
                            1nat
                        } else {
                            0nat
                        },
                    !ok ==> start < i && 0 <= gap < 256 && {
                        ||| cover_count(blocks.take(i as int), gap, y as int) >= 2
                        ||| gap >= width && cover_count(blocks.take(i as int), gap, y as int) >= 1
                        ||| gap < width && cover_count(blocks.take(i as int), gap, y as int) == 0
                            && gap < blocks[i - 1].x()
                    },
                decreases n - i,
            {
                let block = &self.blocks[i];
                let begin = block.x() as u16;
                let end = begin + block.width() as u16;
                proof {
                    let b = blocks[i as int];
                    assert(b.wf());
                    assert(self@.blocks[i as int] == self.blocks@[i as int]@);
                    if i > start {
                        assert(!sorts_before(blocks[i as int], blocks[i - 1]));
                    }
                    assert forall|x: int| 0 <= x < 256 implies #[trigger] cover_count(
                        blocks.take(i + 1),
                        x,
                        y as int,
                    ) == cover_count(blocks.take(i as int), x, y as int) + if begin <= x < end {
                        1nat
                    } else {
                        0nat
                    } by {
                        lemma_cover_count_step(blocks, i as int, x, y as int);
                    }
                    if ok && begin != expected {
                        if begin < expected {
                            gap = begin as int;
                            assert(cover_count(blocks.take(i as int), gap, y as int) == 1);
                        } else if expected >= width {
                            gap = begin as int;
                        } else {
                            gap = expected as int;
                            assert(cover_count(blocks.take(i as int), gap, y as int) == 0);
                        }
                        assert(cover_count(blocks.take(i + 1), gap, y as int) == cover_count(
                            blocks.take(i as int),
                            gap,
                            y as int,
                        ) + if begin <= gap < end {
                            1nat
                        } else {
                            0nat
                        });
                    } else if !ok {
                        assert(cover_count(blocks.take(i + 1), gap, y as int) == cover_count(
                            blocks.take(i as int),
                            gap,
                            y as int,
                        ) + if begin <= gap < end {
                            1nat
                        } else {
                            0nat
                        });
                    }
                }
                if ok {
                    if begin != expected {
                        ok = false;
                    } else {
                        expected = end;
                    }
                }
                i += 1;
            }
            let full = ok && self.width >= 1 && expected == self.width as u16;
            proof {
                assert(i < n ==> self@.blocks[i as int] == self.blocks@[i as int]@);
                if i < n && blocks[i as int].state == State::Settled {
                    if i > start {
                        assert(!sorts_before(blocks[i as int], blocks[i - 1]));
                    }
                    assert(blocks[i as int].y() < y);
                }
                assert forall|k: int| i <= k < n implies !(#[trigger] blocks[k].state
                    == State::Settled && blocks[k].y() == y) by {
                    if k > i {
                        assert(!sorts_before(blocks[k], blocks[i as int]));
                    }
                }
                assert(blocks.take(n as int) =~= blocks);
                assert forall|x: int| 0 <= x < 256 implies #[trigger] cover_count(
                    blocks,
                    x,
                    y as int,
                ) == cover_count(blocks.take(i as int), x, y as int) by {
                    lemma_cover_count_skip(blocks, i as int, n as int, x, y as int);
                }
                if ok {
                    if width >= 1 && expected != width {
                        let x = if expected < width {
                            expected as int
                        } else {
                            width as int
                        };
                        assert(cover_count(blocks, x, y as int) != if x < width {
                            1nat
                        } else {
                            0nat
                        });
                    }
                } else {
                    assert(cover_count(blocks, gap, y as int) != if gap < width {
                        1nat
                    } else {
                        0nat
                    });
                }
                assert(full == row_complete(blocks, width, y as int));
            }
            complete.set(y as usize, full);
            if full && lowest.is_none() {
                lowest = Some(y);
            }
        }
        (complete, lowest)
    }

    /// Clears the complete rows and returns the blocks that were in them.
    ///
    /// A row is complete when the settled blocks in it tile the board from
    /// edge to edge. The blocks are put in order first. Every settled block of
    /// a complete row leaves the board, and every settled block that stays and
    /// lies above the lowest complete row falls again.
    pub fn clear_completed(&mut self) -> (removed: Vec<Block>)
        requires
            old(self)@.wf(),
        ensures
            final(self)@ == old(self)@.after_clear(),
            views(removed@) == old(self)@.cleared_blocks(),
            final(self)@.wf(),
            all_wf(views(removed@)),
            old(self)@.apart() ==> final(self)@.apart(),
            old(self)@.within() ==> final(self)@.within(),
    {
        proof {
            if old(self)@.within() {
                lemma_clear_within(old(self)@);
            }
        }
        self.sort();
        let ghost all = old(self)@.blocks;
        let ghost ordered = self@.blocks;
        let ghost width = self@.width;
        proof {
            lemma_sorted(all);
        }
        let (complete, lowest) = self.complete_rows();
        proof {
            assert forall|row: int|
                #![trigger row_complete(ordered, width, row)]
                #![trigger row_complete(all, width, row)]
                row_complete(ordered, width, row) == row_complete(all, width, row) by {
                lemma_row_complete_sorted(all, width, row);
            }
        }
        let mut removed: Vec<Block> = Vec::new();
        let mut i: usize = 0;
        let ghost mut k: int = 0;
        proof {
            assert(self@.blocks.take(0) =~= kept_of(ordered.take(0), all, width));
            assert(views(removed@) =~= removed_of(ordered.take(0), all, width));
            assert(self@.blocks.skip(0) =~= ordered.skip(0));
        }
        while i < self.blocks.len()
            invariant
                0 <= k <= ordered.len(),
                i <= self.blocks.len(),
                self@.blocks.len() - i == ordered.len() - k,
                self@.width == width,
                self@.height == old(self)@.height,
                width == old(self)@.width,
                self@.blocks.take(i as int) == kept_of(ordered.take(k), all, width),
                self@.blocks.skip(i as int) == ordered.skip(k),
                views(removed@) == removed_of(ordered.take(k), all, width),
                complete@.len() == 256,
                forall|row: int|
                    0 <= row < 256 ==> #[trigger] complete@[row] == row_complete(all, width, row),
                match lowest {
                    Some(low) => row_complete(all, width, low as int) && forall|row: int|
                        low < row < 256 ==> !#[trigger] row_complete(all, width, row),
                    None => forall|row: int|
                        0 <= row < 256 ==> !#[trigger] row_complete(all, width, row),
                },
                all_wf(self@.blocks),
                all_wf(views(removed@)),
                apart(all) ==> apart(self@.blocks),
            decreases self.blocks.len() - i,
        {
            let ghost before = self@.blocks;
            let ghost taken = views(removed@);
            let block = &self.blocks[i];
            let row = block.y();
            let settled = block.is_settled();
            proof {
                assert(before[i as int] == before.skip(i as int)[0]);
                assert(before[i as int] == ordered[k]);
                let upto = ordered.take(k + 1);
                assert(upto.drop_last() =~= ordered.take(k));
                assert(upto.last() == ordered[k]);
                assert(cleared_below(all, width, row as int) == (lowest is Some && row
                    < lowest->0)) by {
                    if lowest is Some && row < lowest->0 {
                        assert(row_complete(all, width, lowest->0 as int));
                    }
                }
            }
            if settled && complete[row as usize] {
                let block = self.blocks.remove(i);
                removed.push(block);
                proof {
                    assert(self@.blocks =~= before.remove(i as int));
                    assert(views(removed@) =~= taken.push(ordered[k]));
                    if apart(before) {
                        let now = self@.blocks;
                        assert forall|a: int, b: int|
                            0 <= a < now.len() && 0 <= b < now.len() && a != b implies !(
                        #[trigger] now[a]).overlaps(#[trigger] now[b]) by {
                            let a0 = if a < i {
                                a
                            } else {
                                a + 1
                            };
                            let b0 = if b < i {
                                b
                            } else {
                                b + 1
                            };
                            assert(now[a] == before[a0] && now[b] == before[b0]);
                        }
                    }
                    assert(self@.blocks.take(i as int) =~= before.take(i as int));
                    let rest = self@.blocks.skip(i as int);
                    let wanted = ordered.skip(k + 1);
                    assert(rest =~= wanted) by {
                        assert forall|m: int| 0 <= m < rest.len() implies #[trigger] rest[m]
                            == wanted[m] by {
                            assert(rest[m] == before.skip(i as int)[m + 1]);
                            assert(ordered.skip(k)[m + 1] == wanted[m]);
                        }
                    }
                }
            } else {
                if settled && lowest.is_some() && row < lowest.unwrap() {
                    self.blocks[i].set_state(State::Falling);
                }
                proof {
                    assert(self@.blocks =~= before.update(
                        i as int,
                        cascaded(all, width, ordered[k]),
                    ));
                    assert(self@.blocks.take(i + 1) =~= before.take(i as int).push(
                        cascaded(all, width, ordered[k]),
                    ));
                    let rest = self@.blocks.skip(i + 1);
                    let wanted = ordered.skip(k + 1);
                    assert(rest =~= wanted) by {
                        assert forall|m: int| 0 <= m < rest.len() implies #[trigger] rest[m]
                            == wanted[m] by {
                            assert(rest[m] == before.skip(i as int)[m + 1]);
                            assert(ordered.skip(k)[m + 1] == wanted[m]);
                        }
                    }
                }
                i += 1;
            }
            proof {
                k = k + 1;
            }
        }
        proof {
            assert(self@.blocks.take(self@.blocks.len() as int) =~= self@.blocks);
            assert(ordered.take(k) =~= ordered);
        }
        removed
    }

    /// Whether every block on the board is well formed.
    pub fn is_well_formed(&self) -> (r: bool)
        ensures
            r == self@.wf(),
    {
        let mut i: usize = 0;
        while i < self.blocks.len()
            invariant
                i <= self.blocks.len(),
                forall|k: int| 0 <= k < i ==> (#[trigger] self@.blocks[k]).wf(),
            decreases self.blocks.len() - i,
        {
            if !self.blocks[i].is_well_formed() {
                assert(!self@.blocks[i as int].wf());
                return false;
            }
            i += 1;
        }
        true
    }

    /// Whether no two blocks share a position.
    pub fn no_overlap(&self) -> (r: bool)
        requires
            self@.wf(),
        ensures
            r == self@.apart(),
    {
        let n = self.blocks.len();
        let mut i: usize = 0;
        while i < n
            invariant
                i <= n,
                n == self@.blocks.len(),
                self@.wf(),
                forall|a: int, b: int|
                    0 <= a < i && 0 <= b < n && a != b ==> !(#[trigger] self@.blocks[a]).overlaps(
                        #[trigger] self@.blocks[b],
                    ),
            decreases n - i,
        {
            if self.collides(i) {
                let ghost j = choose|j: int|
                    0 <= j < n && j != i && self@.blocks[i as int].overlaps(
                        #[trigger] self@.blocks[j],
                    );
                assert(self@.blocks[i as int].overlaps(self@.blocks[j]));
                return false;
            }
            i += 1;
        }
        true
    }
}

/// The place of `state` in the order of blocks.
fn rank(state: State) -> (r: u8)
    ensures
        r == state_rank(state),
{
    match state {
        State::Settled => 0,
        State::Falling => 1,
        State::Interactable => 2,
    }
}

/// Whether `a` comes strictly before `b` in the order of blocks.
fn sorts_first(a: &Block, b: &Block) -> (r: bool)
    ensures
        r == sorts_before(a@, b@),
{
    let rank_a = rank(a.state());
    let rank_b = rank(b.state());
    if rank_a != rank_b {
        rank_a < rank_b
    } else if a.y() != b.y() {
        a.y() > b.y()
    } else {
        a.x() < b.x()
    }
}

} // verus!
