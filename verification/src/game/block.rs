//! A block: a word laid out on one row of the board.
pub mod bounding_box;

use crate::game::block::bounding_box::{BoundingBox, MixAdd, Offset};
use crate::game::chance::random_upto;
use crate::game::english::{fitting_count, random_word, reveal_words, word_text, WORD_COUNT};
use crate::game::position::BoardPosition;
use vstd::prelude::*;
use vstd::string::*;
use vstd::utf8::is_ascii_chars;

verus! {

/// What a block is doing. The states are ordered: settled blocks come first,
/// then falling ones, then interactable ones.
#[derive(Debug, Clone, Copy, PartialEq, Eq, Structural, PartialOrd, Ord)]
pub enum State {
    Settled,
    Falling,
    Interactable,
}

/// One letter of a block: the letter to type, the letter typed, and where the
/// cell lies on the board.
#[derive(Debug, Clone, Copy, PartialEq, Eq)]
pub struct BlockCell {
    pub assigned_char: u8,
    pub input_char: Option<u8>,
    pub position: BoardPosition,
}

impl BlockCell {
    /// Whether the letter typed is the letter assigned.
    pub open spec fn correct(self) -> bool {
        self.input_char == Some(self.assigned_char)
    }

    /// An untyped cell, unless `assigned_char` is not ASCII.
    pub fn new(assigned_char: u8, position: BoardPosition) -> (r: Option<Self>)
        ensures
            r == if assigned_char < 128 {
                Some(BlockCell { assigned_char, input_char: None, position })
            } else {
                None::<BlockCell>
            },
    {
        if assigned_char >= 128 {
            return None;
        }
        Some(Self { assigned_char, input_char: None, position })
    }

    /// An untyped cell, for a caller that knows `assigned_char` to be ASCII.
    pub fn new_unchecked(assigned_char: u8, position: BoardPosition) -> (r: Self)
        requires
            assigned_char < 128,
        ensures
            r == (BlockCell { assigned_char, input_char: None, position }),
    {
        Self { assigned_char, input_char: None, position }
    }

    #[inline]
    pub fn is_correct(&self) -> (r: bool)
        ensures
            r == self.correct(),
    {
        match self.input_char {
            Some(ic) => ic == self.assigned_char,
            None => false,
        }
    }
}

/// Whether `ch` can be typed into a block: the ASCII letters can.
pub open spec fn is_letter(ch: char) -> bool {
    ('a' <= ch && ch <= 'z') || ('A' <= ch && ch <= 'Z')
}

/// Where a span of `extent` cells that starts at `start` comes to lie when it
/// is pushed by `d`: it moves as far as the coordinates `0..=255` let it.
pub open spec fn pushed(start: int, extent: int, d: int) -> int {
    if start + d < 0 {
        0
    } else if start + extent + d > 256 {
        256 - extent
    } else {
        start + d
    }
}

/// The index of the first cell from `i` on that has no input, or the number
/// of cells if there is none.
pub open spec fn first_empty(cells: Seq<BlockCell>, i: int) -> int
    decreases cells.len() - i,
{
    if i < 0 || i >= cells.len() {
        cells.len() as int
    } else if cells[i].input_char is None {
        i
    } else {
        first_empty(cells, i + 1)
    }
}

/// The index of the last cell before `i` that has an input, or `-1` if there
/// is none.
pub open spec fn last_filled(cells: Seq<BlockCell>, i: int) -> int
    decreases i,
{
    if i <= 0 || i > cells.len() {
        -1
    } else if cells[i - 1].input_char is Some {
        i - 1
    } else {
        last_filled(cells, i - 1)
    }
}

/// What a block holds: its state, its cells from left to right, and the box
/// around them.
pub struct BlockView {
    pub state: State,
    pub cells: Seq<BlockCell>,
    pub bounding_box: BoundingBox,
}

impl BlockView {
    pub open spec fn x(self) -> int {
        self.bounding_box.x as int
    }

    pub open spec fn y(self) -> int {
        self.bounding_box.y as int
    }

    pub open spec fn width(self) -> int {
        self.bounding_box.width as int
    }

    /// The first column to the right of the block.
    pub open spec fn right(self) -> int {
        self.bounding_box.x + self.bounding_box.width
    }

    /// A block is a line of at least one cell: the cells lie side by side on
    /// one row, the box is exactly the row of cells, and every assigned letter
    /// is ASCII.
    pub open spec fn wf(self) -> bool {
        &&& self.cells.len() >= 1
        &&& self.bounding_box.width == self.cells.len()
        &&& self.bounding_box.height == 1
        &&& self.bounding_box.x + self.cells.len() <= 256
        &&& forall|i: int|
            0 <= i < self.cells.len() ==> {
                &&& (#[trigger] self.cells[i]).position.x == self.bounding_box.x + i
                &&& self.cells[i].position.y == self.bounding_box.y
                &&& self.cells[i].assigned_char < 128
            }
    }

    /// Every cell holds the letter assigned to it.
    pub open spec fn is_correct(self) -> bool {
        forall|i: int| 0 <= i < self.cells.len() ==> (#[trigger] self.cells[i]).correct()
    }

    /// A block can be moved once it is interactable and typed correctly.
    pub open spec fn is_movable(self) -> bool {
        self.state == State::Interactable && self.is_correct()
    }

    /// The two blocks share a position.
    pub open spec fn overlaps(self, other: Self) -> bool {
        exists|i: int, j: int|
            0 <= i < self.cells.len() && 0 <= j < other.cells.len() && (
            #[trigger] self.cells[i]).position == (#[trigger] other.cells[j]).position
    }

    /// The cells of the two blocks lie at the same positions.
    pub open spec fn same_places(self, other: Self) -> bool {
        self.cells.len() == other.cells.len() && forall|i: int|
            0 <= i < self.cells.len() ==> (#[trigger] self.cells[i]).position
                == other.cells[i].position
    }

    /// The same block in another state.
    pub open spec fn with_state(self, state: State) -> Self {
        BlockView { state, ..self }
    }

    /// The block with its box and every cell moved by exactly `(dx, dy)`.
    pub open spec fn moved(self, dx: int, dy: int) -> Self {
        BlockView {
            state: self.state,
            cells: Seq::new(
                self.cells.len(),
                |i: int|
                    BlockCell {
                        position: BoardPosition {
                            x: (self.cells[i].position.x + dx) as u8,
                            y: (self.cells[i].position.y + dy) as u8,
                        },
                        ..self.cells[i]
                    },
            ),
            bounding_box: BoundingBox {
                x: (self.bounding_box.x + dx) as u8,
                y: (self.bounding_box.y + dy) as u8,
                ..self.bounding_box
            },
        }
    }

    /// How far the block travels when it is shifted by `offset`: the whole
    /// offset, unless an edge of the coordinate range stops the block first.
    pub open spec fn reach(self, offset: Offset) -> (int, int) {
        (
            pushed(self.x(), self.width(), offset.x as int) - self.x(),
            pushed(self.y(), self.bounding_box.height as int, offset.y as int) - self.y(),
        )
    }

    /// The block shifted by `offset`. It moves in one piece.
    pub open spec fn shifted(self, offset: Offset) -> Self {
        self.moved(self.reach(offset).0, self.reach(offset).1)
    }

    /// Whether typing `ch` changes the block.
    pub open spec fn can_add(self, ch: char) -> bool {
        is_letter(ch) && self.state == State::Interactable && first_empty(self.cells, 0)
            < self.cells.len()
    }

    /// The block after `ch` was typed: the first cell without an input holds
    /// it.
    pub open spec fn after_add(self, ch: char) -> Self {
        if self.can_add(ch) {
            let k = first_empty(self.cells, 0);
            BlockView {
                cells: self.cells.update(
                    k,
                    BlockCell { input_char: Some(ch as u8), ..self.cells[k] },
                ),
                ..self
            }
        } else {
            self
        }
    }

    /// Whether deleting a letter changes the block.
    pub open spec fn can_delete(self) -> bool {
        self.state == State::Interactable && last_filled(self.cells, self.cells.len() as int)
            >= 0
    }

    /// The block after a letter was deleted: the last cell with an input has
    /// lost it.
    pub open spec fn after_delete(self) -> Self {
        if self.can_delete() {
            let k = last_filled(self.cells, self.cells.len() as int);
            BlockView {
                cells: self.cells.update(k, BlockCell { input_char: None, ..self.cells[k] }),
                ..self
            }
        } else {
            self
        }
    }

    /// Whether the inputs of the first cells are the bytes of `expected`, as
    /// far as both reach.
    pub open spec fn input_starts(self, expected: Seq<u8>) -> bool {
        forall|i: int|
            0 <= i < self.cells.len() && i < expected.len() ==> (#[trigger] self.cells[i]).input_char
                == Some(expected[i])
    }
}

/// Whether a line of `text` that starts in column `x` is a block: the text is
/// ASCII and not empty, its length can be counted in a `u8`, and its last
/// letter has a column.
pub open spec fn line_fits(text: Seq<char>, x: u8) -> bool {
    is_ascii_chars(text) && 1 <= text.len() <= 255 && x + text.len() <= 256
}

/// The untyped block that spells `text` from `(x, y)` to the right.
pub open spec fn line(text: Seq<char>, state: State, x: u8, y: u8) -> BlockView {
    BlockView {
        state,
        cells: Seq::new(
            text.len(),
            |i: int|
                BlockCell {
                    assigned_char: text[i] as u8,
                    input_char: None,
                    position: BoardPosition { x: (x + i) as u8, y },
                },
        ),
        bounding_box: BoundingBox { x, y, width: text.len() as u8, height: 1 },
    }
}

/// Whether `block` can be what a board `width` cells wide spawns: a word of
/// the dictionary, untyped and interactable, on the top row and between the
/// edges of the board.
pub open spec fn spawnable(block: BlockView, width: u8) -> bool {
    exists|i: int, x: u8|
        0 <= i < fitting_count(width as int) && x + word_text(i).len() <= width && block == line(
            word_text(i),
            State::Interactable,
            x,
            0,
        )
}

/// The first cell without an input, looked for from `i` on, is not before
/// `i`.
pub proof fn lemma_first_empty(cells: Seq<BlockCell>, i: int)
    requires
        0 <= i <= cells.len(),
    ensures
        i <= first_empty(cells, i) <= cells.len(),
    decreases cells.len() - i,
{
    if i < cells.len() && cells[i].input_char is Some {
        lemma_first_empty(cells, i + 1);
    }
}

/// The last cell with an input, looked for before `i`, is before `i`.
pub proof fn lemma_last_filled(cells: Seq<BlockCell>, i: int)
    requires
        0 <= i <= cells.len(),
    ensures
        -1 <= last_filled(cells, i) < i,
    decreases i,
{
    if i > 0 && cells[i - 1].input_char is None {
        lemma_last_filled(cells, i - 1);
    }
}

/// Typing and deleting leave every cell where it is, and a well-formed block
/// well formed.
pub proof fn lemma_typing_in_place(block: BlockView, ch: char)
    ensures
        block.same_places(block.after_add(ch)),
        block.same_places(block.after_delete()),
        block.wf() ==> block.after_add(ch).wf() && block.after_delete().wf(),
        block.after_add(ch).state == block.state,
        block.after_delete().state == block.state,
{
    lemma_first_empty(block.cells, 0);
    lemma_last_filled(block.cells, block.cells.len() as int);
}

/// Blocks whose cells lie at the same positions share positions with the same
/// blocks.
pub proof fn lemma_same_places(a: BlockView, b: BlockView, other: BlockView)
    requires
        a.same_places(b),
    ensures
        a.overlaps(other) == b.overlaps(other),
        other.overlaps(a) == other.overlaps(b),
{
    if a.overlaps(other) {
        let (i, j) = choose|i: int, j: int|
            0 <= i < a.cells.len() && 0 <= j < other.cells.len() && (#[trigger] a.cells[i]).position
                == (#[trigger] other.cells[j]).position;
        assert(b.cells[i].position == other.cells[j].position);
    }
    if b.overlaps(other) {
        let (i, j) = choose|i: int, j: int|
            0 <= i < b.cells.len() && 0 <= j < other.cells.len() && (#[trigger] b.cells[i]).position
                == (#[trigger] other.cells[j]).position;
        assert(a.cells[i].position == other.cells[j].position);
    }
    if other.overlaps(a) {
        let (j, i) = choose|j: int, i: int|
            0 <= j < other.cells.len() && 0 <= i < a.cells.len() && (
            #[trigger] other.cells[j]).position == (#[trigger] a.cells[i]).position;
        assert(other.cells[j].position == b.cells[i].position);
    }
    if other.overlaps(b) {
        let (j, i) = choose|j: int, i: int|
            0 <= j < other.cells.len() && 0 <= i < b.cells.len() && (
            #[trigger] other.cells[j]).position == (#[trigger] b.cells[i]).position;
        assert(other.cells[j].position == a.cells[i].position);
    }
}

/// A board that is at least one cell wide has a block that it can spawn.
pub proof fn lemma_some_spawnable(width: u8)
    requires
        width >= 1,
    ensures
        exists|block: BlockView| spawnable(block, width),
{
    reveal_words();
    assert(word_text(0).len() <= 1 <==> 0 < fitting_count(1));
    let block = line(word_text(0), State::Interactable, 0, 0);
    assert(0 <= 0 < fitting_count(width as int) && 0u8 + word_text(0).len() <= width && block
        == line(word_text(0), State::Interactable, 0u8, 0));
    assert(spawnable(block, width));
}

/// A block that a board can spawn is well formed, and lies on the top row
/// between the edges of the board.
pub proof fn lemma_spawnable_wf(block: BlockView, width: u8)
    requires
        spawnable(block, width),
    ensures
        block.wf(),
        block.state == State::Interactable,
        block.y() == 0,
        block.right() <= width,
{
    reveal_words();
    let (i, x) = choose|i: int, x: u8|
        0 <= i < fitting_count(width as int) && x + word_text(i).len() <= width && block == line(
            word_text(i),
            State::Interactable,
            x,
            0,
        );
    assert(word_text(i).len() <= width as int <==> i < fitting_count(width as int));
    assert(fitting_count(width as int) <= WORD_COUNT);
    lemma_line_wf(word_text(i), State::Interactable, x, 0);
}

/// A line that fits is a well-formed block.
pub proof fn lemma_line_wf(text: Seq<char>, state: State, x: u8, y: u8)
    requires
        line_fits(text, x),
    ensures
        line(text, state, x, y).wf(),
        line(text, state, x, y).state == state,
        line(text, state, x, y).x() == x,
        line(text, state, x, y).y() == y,
        line(text, state, x, y).width() == text.len(),
{
    let b = line(text, state, x, y);
    assert forall|i: int| 0 <= i < b.cells.len() implies (#[trigger] b.cells[i]).assigned_char
        < 128 by {
        assert('\0' <= text[i] <= '\u{7f}');
    }
}

/// Two well-formed blocks share a position exactly when their boxes
/// intersect.
pub proof fn lemma_overlap_is_box_intersection(a: BlockView, b: BlockView)
    requires
        a.wf(),
        b.wf(),
    ensures
        a.overlaps(b) == a.bounding_box.intersects(b.bounding_box),
{
    if a.bounding_box.intersects(b.bounding_box) {
        let col = if a.x() >= b.x() {
            a.x()
        } else {
            b.x()
        };
        let i = col - a.x();
        let j = col - b.x();
        assert(a.cells[i].position == b.cells[j].position);
    }
    if a.overlaps(b) {
        let (i, j) = choose|i: int, j: int|
            0 <= i < a.cells.len() && 0 <= j < b.cells.len() && (#[trigger] a.cells[i]).position
                == (#[trigger] b.cells[j]).position;
        assert(a.cells[i].position.x == b.cells[j].position.x);
    }
}

#[derive(Debug, Clone, PartialEq, Eq)]
pub struct Block {
    state: State,
    cells: Vec<BlockCell>,
    bounding_box: BoundingBox,
}

impl View for Block {
    type V = BlockView;

    closed spec fn view(&self) -> BlockView {
        BlockView { state: self.state, cells: self.cells@, bounding_box: self.bounding_box }
    }
}

impl Block {
    /// Draws a word of at most `board_width` letters and lays it out on the
    /// top row, somewhere between the edges of the board.
    pub fn random(board_width: u8) -> (r: Self)
        requires
            board_width >= 1,
        ensures
            r@.wf(),
            spawnable(r@, board_width),
    {
        let text = random_word(board_width);
        let len = text.unicode_len();
        let x = random_upto(board_width - len as u8);
        let made = Self::new_line(text, State::Interactable, x, 0);
        proof {
            lemma_line_wf(text@, State::Interactable, x, 0);
        }
        made.unwrap()
    }

    /// The untyped block that spells `assigned_text` from `(x, y)` to the
    /// right, unless the text is not ASCII, is empty, or reaches beyond the
    /// last column.
    pub fn new_line(assigned_text: &str, state: State, x: u8, y: u8) -> (r: Option<Self>)
        ensures
            r is Some <==> line_fits(assigned_text@, x),
            r is Some ==> r->0@ == line(assigned_text@, state, x, y) && r->0@.wf(),
    {
        if !assigned_text.is_ascii() {
            return None;
        }
        broadcast use is_ascii_spec_bytes;

        let bytes = assigned_text.as_bytes();
        let n = bytes.len();
        if n == 0 || n > 255 || n > 256 - x as usize {
            return None;
        }
        let mut cells: Vec<BlockCell> = Vec::new();
        let mut i: usize = 0;
        while i < n
            invariant
                i <= n,
                n == bytes@.len(),
                n == assigned_text@.len(),
                x + n <= 256,
                cells@.len() == i,
                forall|k: int| 0 <= k < n ==> bytes@[k] == assigned_text@[k] as u8,
                forall|k: int|
                    0 <= k < i ==> cells@[k] == line(assigned_text@, state, x, y).cells[k],
            decreases n - i,
        {
            cells.push(
                BlockCell {
                    assigned_char: bytes[i],
                    input_char: None,
                    position: BoardPosition { x: x + i as u8, y },
                },
            );
            i += 1;
        }
        let block = Self {
            state,
            cells,
            bounding_box: BoundingBox { x, y, width: n as u8, height: 1 },
        };
        proof {
            lemma_line_wf(assigned_text@, state, x, y);
            assert(block@.cells =~= line(assigned_text@, state, x, y).cells);
        }
        Some(block)
    }

    /// Whether the block is well formed: a line of at least one cell with its
    /// box around it, all of its letters ASCII.
    pub fn is_well_formed(&self) -> (r: bool)
        ensures
            r == self@.wf(),
    {
        let n = self.cells.len();
        if n == 0 || n > 255 || self.bounding_box.width as usize != n || self.bounding_box.height
            != 1 || self.bounding_box.x as usize + n > 256 {
            return false;
        }
        let mut i: usize = 0;
        while i < n
            invariant
                i <= n,
                n == self@.cells.len(),
                self@.bounding_box.x + n <= 256,
                forall|k: int|
                    0 <= k < i ==> {
                        &&& (#[trigger] self@.cells[k]).position.x == self@.bounding_box.x + k
                        &&& self@.cells[k].position.y == self@.bounding_box.y
                        &&& self@.cells[k].assigned_char < 128
                    },
            decreases n - i,
        {
            let cell = &self.cells[i];
            if cell.position.x as usize != self.bounding_box.x as usize + i || cell.position.y
                != self.bounding_box.y || cell.assigned_char >= 128 {
                assert(!({
                    &&& self@.cells[i as int].position.x == self@.bounding_box.x + i
                    &&& self@.cells[i as int].position.y == self@.bounding_box.y
                    &&& self@.cells[i as int].assigned_char < 128
                }));
                return false;
            }
            i += 1;
        }
        true
    }

    #[inline]
    pub fn state(&self) -> (r: State)
        ensures
            r == self@.state,
    {
        self.state
    }

    #[inline]
    pub fn cells(&self) -> (r: &Vec<BlockCell>)
        ensures
            r@ == self@.cells,
    {
        &self.cells
    }

    #[inline]
    pub fn bounding_box(&self) -> (r: BoundingBox)
        ensures
            r == self@.bounding_box,
    {
        self.bounding_box
    }

    #[inline]
    pub fn x(&self) -> (r: u8)
        ensures
            r == self@.x(),
    {
        self.bounding_box.x
    }

    #[inline]
    pub fn y(&self) -> (r: u8)
        ensures
            r == self@.y(),
    {
        self.bounding_box.y
    }

    /// The position of the first cell: the top left corner of the box.
    #[inline]
    pub fn position(&self) -> (r: BoardPosition)
        ensures
            r == (BoardPosition { x: self@.bounding_box.x, y: self@.bounding_box.y }),
    {
        BoardPosition { x: self.bounding_box.x, y: self.bounding_box.y }
    }

    #[inline]
    pub fn width(&self) -> (r: u8)
        ensures
            r == self@.width(),
    {
        self.bounding_box.width
    }

    pub fn is_correct(&self) -> (r: bool)
        ensures
            r == self@.is_correct(),
    {
        let mut i: usize = 0;
        while i < self.cells.len()
            invariant
                i <= self.cells.len(),
                forall|k: int| 0 <= k < i ==> (#[trigger] self@.cells[k]).correct(),
            decreases self.cells.len() - i,
        {
            if !self.cells[i].is_correct() {
                assert(!self@.cells[i as int].correct());
                return false;
            }
            i += 1;
        }
        true
    }

    /// Types `ch` into the first cell that has no input. Only an interactable
    /// block takes a letter, and only an ASCII letter is taken. Returns
    /// whether the block changed.
    pub fn add_char(&mut self, ch: char) -> (r: bool)
        ensures
            r == old(self)@.can_add(ch),
            final(self)@ == old(self)@.after_add(ch),
            !r ==> *final(self) == *old(self),
            old(self)@.wf() ==> final(self)@.wf(),
    {
        let letter = (ch >= 'a' && ch <= 'z') || (ch >= 'A' && ch <= 'Z');
        if !letter || !self.is_interactable() {
            return false;
        }
        let mut i: usize = 0;
        while i < self.cells.len()
            invariant
                i <= self.cells.len(),
                *self == *old(self),
                is_letter(ch),
                self@.state == State::Interactable,
                first_empty(self@.cells, 0) == first_empty(self@.cells, i as int),
            decreases self.cells.len() - i,
        {
            if self.cells[i].input_char.is_none() {
                let cell = self.cells[i];
                self.cells.set(i, BlockCell { input_char: Some(ch as u8), ..cell });
                return true;
            }
            i += 1;
        }
        assert(first_empty(self@.cells, self@.cells.len() as int) == self@.cells.len());
        false
    }

    /// Takes the input out of the last cell that has one. Only an
    /// interactable block gives a letter up. Returns whether the block
    /// changed.
    pub fn delete_char(&mut self) -> (r: bool)
        ensures
            r == old(self)@.can_delete(),
            final(self)@ == old(self)@.after_delete(),
            !r ==> *final(self) == *old(self),
            old(self)@.wf() ==> final(self)@.wf(),
    {
        if !self.is_interactable() {
            return false;
        }
        let mut i: usize = self.cells.len();
        while i > 0
            invariant
                i <= self.cells.len(),
                *self == *old(self),
                self@.state == State::Interactable,
                last_filled(self@.cells, self@.cells.len() as int) == last_filled(
                    self@.cells,
                    i as int,
                ),
            decreases i,
        {
            if self.cells[i - 1].input_char.is_some() {
                let cell = self.cells[i - 1];
                self.cells.set(i - 1, BlockCell { input_char: None, ..cell });
                return true;
            }
            i -= 1;
        }
        false
    }

    #[inline]
    pub fn is_settled(&self) -> (r: bool)
        ensures
            r == (self@.state == State::Settled),
    {
        matches!(self.state, State::Settled)
    }

    #[inline]
    pub fn is_interactable(&self) -> (r: bool)
        ensures
            r == (self@.state == State::Interactable),
    {
        matches!(self.state, State::Interactable)
    }

    #[inline]
    pub fn is_falling(&self) -> (r: bool)
        ensures
            r == (self@.state == State::Falling),
    {
        matches!(self.state, State::Falling)
    }

    #[inline]
    pub fn is_movable(&self) -> (r: bool)
        ensures
            r == self@.is_movable(),
    {
        self.is_interactable() && self.is_correct()
    }

    /// Puts the block into `state`.
    pub(crate) fn set_state(&mut self, state: State)
        ensures
            final(self)@ == old(self)@.with_state(state),
    {
        self.state = state;
    }

    /// Shifts the box and every cell by the same amount: by `offset`, or by as
    /// much of it as the block can travel before it meets an edge of the
    /// coordinate range.
    pub fn shift(&mut self, offset: Offset)
        requires
            old(self)@.wf(),
        ensures
            final(self)@ == old(self)@.shifted(offset),
            final(self)@.wf(),
    {
        let x: i16 = self.bounding_box.x as i16;
        let y: i16 = self.bounding_box.y as i16;
        let width: i16 = self.bounding_box.width as i16;
        let off_x: i16 = offset.x as i16;
        let off_y: i16 = offset.y as i16;
        let dx: i16 = if x + off_x < 0 {
            -x
        } else if x + width + off_x > 256 {
            256 - width - x
        } else {
            off_x
        };
        let dy: i16 = if y + off_y < 0 {
            -y
        } else if y + 1 + off_y > 256 {
            255 - y
        } else {
            off_y
        };
        let travel = Offset { x: dx as i8, y: dy as i8 };
        self.bounding_box.shift(travel);
        let n = self.cells.len();
        let mut i: usize = 0;
        while i < n
            invariant
                i <= n,
                n == self.cells@.len(),
                n == old(self)@.cells.len(),
                old(self)@.wf(),
                travel.x == old(self)@.reach(offset).0,
                travel.y == old(self)@.reach(offset).1,
                self.state == old(self).state,
                self.bounding_box == old(self)@.shifted(offset).bounding_box,
                forall|k: int|
                    0 <= k < i ==> self.cells@[k] == old(self)@.shifted(offset).cells[k],
                forall|k: int| i <= k < n ==> self.cells@[k] == old(self)@.cells[k],
            decreases n - i,
        {
            let cell = self.cells[i];
            self.cells.set(i, BlockCell { position: cell.position.mix_add(travel), ..cell });
            i += 1;
        }
        proof {
            assert(self@.cells =~= old(self)@.shifted(offset).cells);
        }
    }

    /// Whether the two blocks share a position. The boxes are compared first,
    /// the cells only where the boxes intersect.
    pub fn intersect(&self, other: &Self) -> (r: bool)
        ensures
            r == (self@.bounding_box.intersects(other@.bounding_box) && self@.overlaps(other@)),
            self@.wf() && other@.wf() ==> r == self@.overlaps(other@),
    {
        proof {
            if self@.wf() && other@.wf() {
                lemma_overlap_is_box_intersection(self@, other@);
            }
        }
        if !self.bounding_box.intersect(other.bounding_box) {
            return false;
        }
        let mut i: usize = 0;
        while i < self.cells.len()
            invariant
                i <= self.cells.len(),
                self@.bounding_box.intersects(other@.bounding_box),
                forall|a: int, b: int|
                    0 <= a < i && 0 <= b < other@.cells.len() ==> (#[trigger] self@.cells[a]).position
                        != (#[trigger] other@.cells[b]).position,
            decreases self.cells.len() - i,
        {
            let mut j: usize = 0;
            while j < other.cells.len()
                invariant
                    i < self.cells.len(),
                    j <= other.cells.len(),
                    self@.bounding_box.intersects(other@.bounding_box),
                    forall|b: int|
                        0 <= b < j ==> self@.cells[i as int].position != (
                        #[trigger] other@.cells[b]).position,
                decreases other.cells.len() - j,
            {
                if self.cells[i].position == other.cells[j].position {
                    assert(self@.cells[i as int].position == other@.cells[j as int].position);
                    return true;
                }
                j += 1;
            }
            i += 1;
        }
        false
    }

    /// An interactable block on the top row.
    pub fn with_text_x(assigned_text: &str, x: u8) -> (r: Self)
        requires
            line_fits(assigned_text@, x),
        ensures
            r@ == line(assigned_text@, State::Interactable, x, 0),
            r@.wf(),
    {
        Self::new_line(assigned_text, State::Interactable, x, 0).unwrap()
    }

    pub fn new_interactable(assigned_text: &str, x: u8, y: u8) -> (r: Self)
        requires
            line_fits(assigned_text@, x),
        ensures
            r@ == line(assigned_text@, State::Interactable, x, y),
            r@.wf(),
    {
        Self::new_line(assigned_text, State::Interactable, x, y).unwrap()
    }

    pub fn new_settled(assigned_text: &str, x: u8, y: u8) -> (r: Self)
        requires
            line_fits(assigned_text@, x),
        ensures
            r@ == line(assigned_text@, State::Settled, x, y),
            r@.wf(),
    {
        Self::new_line(assigned_text, State::Settled, x, y).unwrap()
    }

    pub fn new_falling(assigned_text: &str, x: u8, y: u8) -> (r: Self)
        requires
            line_fits(assigned_text@, x),
        ensures
            r@ == line(assigned_text@, State::Falling, x, y),
            r@.wf(),
    {
        Self::new_line(assigned_text, State::Falling, x, y).unwrap()
    }

    /// Whether the letters typed so far are the bytes of `expected_text`, cell
    /// by cell, as far as both reach.
    pub fn check_input_text(&self, expected_text: &str) -> (r: bool)
        ensures
            r == self@.input_starts(expected_text.spec_bytes()),
    {
        let bytes = expected_text.as_bytes();
        let mut i: usize = 0;
        while i < self.cells.len() && i < bytes.len()
            invariant
                i <= self.cells.len(),
                i <= bytes@.len(),
                bytes@ == expected_text.spec_bytes(),
                forall|k: int|
                    0 <= k < i ==> (#[trigger] self@.cells[k]).input_char == Some(bytes@[k]),
            decreases self.cells.len() - i,
        {
            match self.cells[i].input_char {
                Some(c) => {
                    if c != bytes[i] {
                        return false;
                    }
                },
                None => {
                    return false;
                },
            }
            i += 1;
        }
        true
    }
}

} // verus!
