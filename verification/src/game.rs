//! The game: blocks, the board they fall on, the timer that paces them, and
//! the events that drive it all.
pub mod block;
pub mod board;
mod chance;
pub mod english;
pub mod position;
pub mod settings;
pub mod timer;

use crate::game::block::{
    lemma_some_spawnable, lemma_spawnable_wf, lemma_typing_in_place, line, spawnable, Block,
    BlockView,
};
use crate::game::board::order::sorted;
use crate::game::board::places::lemma_replaced_in_place;
use crate::game::board::rows::rows_of;
use crate::game::board::{lemma_focus_from, Board, BoardView, Msg};
use crate::game::settings::{default_settings, Settings};
use crate::game::timer::{Timer, TimerView};
use vstd::prelude::*;
use vstd::string::*;

verus! {

/// Where a game stands: it shows its splash board, it is being played, or it
/// is over.
#[derive(Debug, Clone, Copy, PartialEq, Eq, Structural)]
pub enum State {
    Splash,
    Playing,
    GameOver,
}

/// What can happen to a game. A tick carries the time that has passed since
/// the tick before, in the units of the settings.
#[derive(Debug, Clone, Copy, PartialEq, Eq)]
pub enum Event {
    Tick(u32),
    Type(char),
    Delete,
    Next,
    Left,
    Right,
    NewGame,
}

/// The event that a key stands for, if it stands for one. `key` is the name
/// of the key, or what it types; `ctrl_key` says whether the control key was
/// held down with it.
///
/// Enter, Tab and the space bar release the focused block. The arrow keys
/// move it, and so do `h` and `l` with the control key. Backspace deletes.
/// Any other key that types one ASCII character types it.
pub open spec fn key_event(key: Seq<char>, ctrl_key: bool) -> Option<Event> {
    if key == "Enter"@ || key == "Tab"@ || key == " "@ {
        Some(Event::Next)
    } else if key == "ArrowLeft"@ || (key == "h"@ && ctrl_key) {
        Some(Event::Left)
    } else if key == "ArrowRight"@ || (key == "l"@ && ctrl_key) {
        Some(Event::Right)
    } else if key == "Backspace"@ {
        Some(Event::Delete)
    } else if key.len() == 1 && key[0] <= '\u{7f}' {
        Some(Event::Type(key[0]))
    } else {
        None
    }
}

/// Whether the two texts are the same.
fn same(a: &str, b: &str) -> (r: bool)
    ensures
        r == (a@ == b@),
{
    a.to_owned() == b.to_owned()
}

impl Event {
    /// The event that a key stands for, if it stands for one.
    pub fn from_key(key: &str, ctrl_key: bool) -> (r: Option<Event>)
        ensures
            r == key_event(key@, ctrl_key),
    {
        if same(key, "Enter") || same(key, "Tab") || same(key, " ") {
            Some(Event::Next)
        } else if same(key, "ArrowLeft") || (same(key, "h") && ctrl_key) {
            Some(Event::Left)
        } else if same(key, "ArrowRight") || (same(key, "l") && ctrl_key) {
            Some(Event::Right)
        } else if same(key, "Backspace") {
            Some(Event::Delete)
        } else if key.unicode_len() == 1 && key.get_char(0) <= '\u{7f}' {
            Some(Event::Type(key.get_char(0)))
        } else {
            None
        }
    }
}

/// A score raised by `rows`. It stops at the greatest number that a `usize`
/// holds.
pub open spec fn raised(score: usize, rows: nat) -> usize {
    if score + rows > usize::MAX {
        usize::MAX
    } else {
        (score + rows) as usize
    }
}

/// The settings of the splash board: the default ones.
pub open spec fn splash_settings() -> Settings {
    Settings { width: 12, height: 16, ..default_settings() }
}

/// The blocks of the splash board, in the order in which they are laid out.
pub open spec fn splash_blocks() -> Seq<BlockView> {
    seq![
        line("Typetris"@, block::State::Interactable, 2, 0),
        line("It's"@, block::State::Interactable, 0, 4),
        line("like"@, block::State::Interactable, 3, 5),
        line("Tetris"@, block::State::Interactable, 6, 6),
        line("but"@, block::State::Interactable, 8, 8),
        line("make"@, block::State::Interactable, 4, 9),
        line("it"@, block::State::Interactable, 2, 10),
        line("a"@, block::State::Interactable, 4, 11),
        line("typing"@, block::State::Interactable, 5, 12).after_add('t').after_add('y').after_add(
            'i',
        ).after_add('n'),
        line("game"@, block::State::Settled, 4, 15),
    ]
}

/// What a game holds.
pub struct GameView {
    pub settings: Settings,
    pub state: State,
    pub board: BoardView,
    pub timer: TimerView,
    pub score: usize,
}

impl GameView {
    /// The blocks of the game are well formed, and the board of this game
    /// and of the next one are wide enough for the shortest word.
    pub open spec fn wf(self) -> bool {
        self.board.wf() && self.board.width >= 1 && self.settings.width >= 1
    }

    /// Every block lies on the board, and the board of this game and of the
    /// next one have a top row for the blocks that are spawned.
    pub open spec fn within(self) -> bool {
        self.board.within() && self.board.height >= 1 && self.settings.height >= 1
    }

    /// While the game is being played, no two blocks share a position.
    pub open spec fn playing_apart(self) -> bool {
        self.state == State::Playing ==> self.board.apart()
    }

    /// The game that shows the splash board.
    pub open spec fn splash() -> Self {
        GameView {
            settings: splash_settings(),
            state: State::Splash,
            board: BoardView { blocks: sorted(splash_blocks()), width: 12, height: 16 },
            timer: TimerView::fresh(
                splash_settings().fall_interval,
                splash_settings().spawn_interval,
                splash_settings().drift_interval,
            ),
            score: 0,
        }
    }

    /// A new game with `settings`, where `draw` is the block that was drawn
    /// for a board that starts with one.
    pub open spec fn fresh(settings: Settings, draw: BlockView) -> Self {
        if settings.starts_with_splash {
            GameView {
                settings: Settings { starts_with_splash: false, ..settings },
                ..Self::splash()
            }
        } else {
            GameView {
                settings,
                state: State::Playing,
                board: BoardView {
                    blocks: if settings.starts_with_one {
                        seq![draw]
                    } else {
                        Seq::empty()
                    },
                    width: settings.width,
                    height: settings.height,
                },
                timer: TimerView::fresh(
                    settings.fall_interval,
                    settings.spawn_interval,
                    settings.drift_interval,
                ),
                score: 0,
            }
        }
    }

    /// What the game shows: all of it but the timer.
    pub open spec fn shows(self) -> (Settings, State, BoardView, usize) {
        (self.settings, self.state, self.board, self.score)
    }

    /// The same game with another board.
    pub open spec fn with_board(self, board: BoardView) -> Self {
        GameView { board, ..self }
    }

    /// The board after its blocks fell by one row, the interactable ones
    /// too if `drift`, before any row is cleared.
    pub open spec fn settled(self, drift: bool) -> BoardView {
        self.board.with_blocks(self.board.fall(drift).blocks)
    }

    /// The game after its blocks fell by one row, the interactable ones too
    /// if `drift`. A block that settled on the top row ends the game. Where
    /// blocks settled otherwise, the complete rows are cleared and the score
    /// rises by the number of rows that blocks were cleared from.
    pub open spec fn after_fall(self, drift: bool) -> Self {
        let fall = self.board.fall(drift);
        let fallen = self.settled(drift);
        if fall.game_over {
            GameView { board: fallen, state: State::GameOver, ..self }
        } else if fall.settled {
            GameView {
                board: fallen.after_clear(),
                score: raised(self.score, rows_of(fallen.cleared_blocks()).len()),
                ..self
            }
        } else {
            GameView { board: fallen, ..self }
        }
    }

    /// The game after `block` was spawned. A block that shares a position
    /// with a block of the board ends the game.
    pub open spec fn after_spawn(self, block: BlockView) -> Self {
        GameView {
            board: self.board.with_block(block),
            state: if self.board.hits(block) {
                State::GameOver
            } else {
                self.state
            },
            ..self
        }
    }

    /// The game after a tick of `delta`, where `draw` is the block that was
    /// drawn if a spawn was due: first the blocks fall, if that is due, then
    /// the block is spawned.
    pub open spec fn after_tick(self, delta: u32, draw: BlockView) -> Self {
        let signals = self.timer.signals(delta);
        let ticked = GameView { timer: self.timer.after_tick(delta), ..self };
        let fallen = if signals.should_fall {
            ticked.after_fall(signals.should_drift)
        } else {
            ticked
        };
        if signals.should_spawn {
            fallen.after_spawn(draw)
        } else {
            fallen
        }
    }

    /// Whether a tick of `delta` changes what the board shows: a block is
    /// spawned, or a fall is due that moves or settles a block.
    pub open spec fn tick_changes(self, delta: u32) -> bool {
        let signals = self.timer.signals(delta);
        signals.should_spawn || (signals.should_fall && self.board.fall(
            signals.should_drift,
        ).msg() is Some)
    }

    /// The game after an event that draws no block. Events other than
    /// `NewGame` change nothing unless the game is being played.
    pub open spec fn after(self, event: Event) -> Self {
        if self.state != State::Playing {
            self
        } else {
            match event {
                Event::Type(ch) => self.with_board(self.board.after_type(ch)),
                Event::Delete => self.with_board(self.board.after_delete()),
                Event::Next => self.with_board(self.board.after_focus_next()),
                Event::Left => self.with_board(self.board.after_left()),
                Event::Right => self.with_board(self.board.after_right()),
                _ => self,
            }
        }
    }

    /// Whether `event` changes what the game shows.
    pub open spec fn changes(self, event: Event) -> bool {
        match event {
            Event::NewGame => true,
            Event::Tick(delta) => self.state == State::Playing && self.tick_changes(delta),
            Event::Type(ch) => self.state == State::Playing && self.board.can_type(ch),
            Event::Delete => self.state == State::Playing && self.board.can_delete(),
            Event::Next => self.state == State::Playing && self.board.focus() is Some,
            Event::Left => self.state == State::Playing && self.board.can_left(),
            Event::Right => self.state == State::Playing && self.board.can_right(),
        }
    }

    /// Whether `event` moves the focused block into a cell that another block
    /// lies over.
    pub open spec fn crowds(self, event: Event) -> bool {
        self.state == State::Playing && match event {
            Event::Left => self.board.can_left() && self.board.crowded_on_left(
                self.board.focus()->0,
            ),
            Event::Right => self.board.can_right() && self.board.crowded_on_right(
                self.board.focus()->0,
            ),
            _ => false,
        }
    }
}

#[derive(Debug, Clone, PartialEq, Eq)]
pub struct Game {
    settings: Settings,
    state: State,
    board: Board,
    timer: Timer,
    score: usize,
}

impl View for Game {
    type V = GameView;

    closed spec fn view(&self) -> GameView {
        GameView {
            settings: self.settings,
            state: self.state,
            board: self.board@,
            timer: self.timer@,
            score: self.score,
        }
    }
}

impl Default for Game {
    fn default() -> (r: Self)
        ensures
            r@.wf(),
            exists|draw: BlockView|
                spawnable(draw, default_settings().width) && r@ == GameView::fresh(
                    default_settings(),
                    draw,
                ),
    {
        Self::new(Settings::default())
    }
}

impl Game {
    /// The game that shows the splash board: ten words that say what the
    /// game is, one of them half typed.
    pub fn splash() -> (r: Self)
        ensures
            r@ == GameView::splash(),
            r@.wf(),
            r@.within(),
    {
        proof {
            reveal_strlit("Typetris");
            reveal_strlit("It's");
            reveal_strlit("like");
            reveal_strlit("Tetris");
            reveal_strlit("but");
            reveal_strlit("make");
            reveal_strlit("it");
            reveal_strlit("a");
            reveal_strlit("typing");
            reveal_strlit("game");
        }
        let mut board = Board::new(12, 16, false);
        board.push_block(Block::new_interactable("Typetris", 2, 0));
        board.push_block(Block::new_interactable("It's", 0, 4));
        board.push_block(Block::new_interactable("like", 3, 5));
        board.push_block(Block::new_interactable("Tetris", 6, 6));
        board.push_block(Block::new_interactable("but", 8, 8));
        board.push_block(Block::new_interactable("make", 4, 9));
        board.push_block(Block::new_interactable("it", 2, 10));
        board.push_block(Block::new_interactable("a", 4, 11));
        let mut block = Block::new_interactable("typing", 5, 12);
        block.add_char('t');
        block.add_char('y');
        block.add_char('i');
        block.add_char('n');
        board.push_block(block);
        board.push_block(Block::new_settled("game", 4, 15));
        assert(board@.blocks =~= splash_blocks());
        board.sort();
        let settings = Settings::default().with_width(12).with_height(16);
        Self {
            board,
            timer: Timer::new(
                settings.fall_interval,
                settings.spawn_interval,
                settings.drift_interval,
            ),
            score: 0,
            state: State::Splash,
            settings,
        }
    }

    /// A new game. With `starts_with_splash` it shows the splash board and
    /// waits for `NewGame`; else it is being played, on an empty board or, with
    /// `starts_with_one`, on a board with a first block.
    pub fn new(settings: Settings) -> (r: Self)
        requires
            settings.width >= 1,
        ensures
            r@.wf(),
            exists|draw: BlockView|
                spawnable(draw, settings.width) && r@ == GameView::fresh(settings, draw),
            settings.height >= 1 ==> r@.within(),
    {
        if settings.starts_with_splash {
            let game = Self::splash().with_settings(settings.with_starts_with_splash(false));
            proof {
                lemma_some_spawnable(settings.width);
                let draw = choose|draw: BlockView| spawnable(draw, settings.width);
                assert(spawnable(draw, settings.width) && game@ == GameView::fresh(settings, draw));
            }
            game
        } else {
            let board = Board::new(settings.width, settings.height, settings.starts_with_one);
            let game = Self {
                board,
                timer: Timer::new(
                    settings.fall_interval,
                    settings.spawn_interval,
                    settings.drift_interval,
                ),
                score: 0,
                state: State::Playing,
                settings,
            };
            proof {
                lemma_some_spawnable(settings.width);
                let draw = if settings.starts_with_one {
                    game@.board.blocks[0]
                } else {
                    choose|draw: BlockView| spawnable(draw, settings.width)
                };
                assert(game@.board.blocks =~= GameView::fresh(settings, draw).board.blocks);
                assert(spawnable(draw, settings.width) && game@ == GameView::fresh(settings, draw));
            }
            game
        }
    }

    /// The same game with other settings, which the next new game starts
    /// with.
    pub fn with_settings(self, settings: Settings) -> (r: Self)
        ensures
            r@ == (GameView { settings, ..self@ }),
    {
        let mut game = self;
        game.settings = settings;
        game
    }

    /// Whether the game is well formed: the events can be handled.
    pub fn is_well_formed(&self) -> (r: bool)
        ensures
            r == self@.wf(),
    {
        self.board.is_well_formed() && self.board.width() >= 1 && self.settings.width >= 1
    }

    #[inline]
    pub fn settings(&self) -> (r: &Settings)
        ensures
            *r == self@.settings,
    {
        &self.settings
    }

    #[inline]
    pub fn state(&self) -> (r: State)
        ensures
            r == self@.state,
    {
        self.state
    }

    #[inline]
    pub fn board(&self) -> (r: &Board)
        ensures
            r@ == self@.board,
    {
        &self.board
    }

    /// The board, to lay out a position on it.
    #[inline]
    pub fn board_mut(&mut self) -> (r: &mut Board)
        ensures
            (*r)@ == old(self)@.board,
            final(self)@ == old(self)@.with_board((*final(r))@),
    {
        &mut self.board
    }

    #[inline]
    pub fn score(&self) -> (r: usize)
        ensures
            r == self@.score,
    {
        self.score
    }

    /// Handles `event` and returns whether what the game shows has changed.
    ///
    /// `NewGame` starts a new game with the settings of this one, whatever
    /// state the game is in. Every other event is passed over unless the game
    /// is being played.
    pub fn handle_event(&mut self, event: Event) -> (r: bool)
        requires
            old(self)@.wf(),
        ensures
            final(self)@.wf(),
            r == old(self)@.changes(event),
            match event {
                Event::NewGame => exists|draw: BlockView|
                    spawnable(draw, old(self)@.settings.width) && final(self)@ == GameView::fresh(
                        old(self)@.settings,
                        draw,
                    ),
                Event::Tick(delta) => if old(self)@.state == State::Playing {
                    exists|draw: BlockView|
                        spawnable(draw, old(self)@.board.width) && final(self)@ == old(
                            self,
                        )@.after_tick(delta, draw)
                } else {
                    final(self)@ == old(self)@
                },
                _ => final(self)@ == old(self)@.after(event),
            },
            old(self)@.playing_apart() && !old(self)@.crowds(event) ==> final(self)@.playing_apart(),
            old(self)@.within() ==> final(self)@.within(),
            event is NewGame || final(self)@.score >= old(self)@.score,
            !r ==> final(self)@.shows() == old(self)@.shows(),
    {
        match event {
            Event::NewGame => {
                self.new_game();
                true
            },
            Event::Tick(delta_time) => {
                if self.is_playing() {
                    self.tick(delta_time)
                } else {
                    false
                }
            },
            Event::Type(ch) => {
                if self.is_playing() {
                    self.add_char(ch)
                } else {
                    false
                }
            },
            Event::Delete => {
                if self.is_playing() {
                    self.delete_char()
                } else {
                    false
                }
            },
            Event::Next => {
                if self.is_playing() {
                    self.focus_next()
                } else {
                    false
                }
            },
            Event::Left => {
                if self.is_playing() {
                    self.left()
                } else {
                    false
                }
            },
            Event::Right => {
                if self.is_playing() {
                    self.right()
                } else {
                    false
                }
            },
        }
    }

    /// Lets `delta_time` pass: the blocks fall if that is due, and a block
    /// that is drawn at random is spawned if that is due. Returns whether
    /// what the board shows has changed.
    pub fn tick(&mut self, delta_time: u32) -> (r: bool)
        requires
            old(self)@.wf(),
        ensures
            final(self)@.wf(),
            r == old(self)@.tick_changes(delta_time),
            exists|draw: BlockView|
                spawnable(draw, old(self)@.board.width) && final(self)@ == old(self)@.after_tick(
                    delta_time,
                    draw,
                ),
            old(self)@.playing_apart() ==> final(self)@.playing_apart(),
            old(self)@.within() ==> final(self)@.within(),
            final(self)@.score >= old(self)@.score,
            !r ==> final(self)@.shows() == old(self)@.shows(),
    {
        let timer_msg = self.timer.tick(delta_time);
        let mut ret = false;
        if timer_msg.should_fall() {
            ret = self.fall(timer_msg.should_drift());
        }
        if timer_msg.should_spawn() {
            let block = Block::random(self.board.width());
            proof {
                lemma_spawnable_wf(block@, self@.board.width);
            }
            self.spawn(block);
            ret = true;
            proof {
                let draw = block@;
                assert(spawnable(draw, old(self)@.board.width) && self@ == old(self)@.after_tick(
                    delta_time,
                    draw,
                ));
            }
        } else {
            proof {
                lemma_some_spawnable(self@.board.width);
                let draw = choose|draw: BlockView| spawnable(draw, old(self)@.board.width);
                assert(spawnable(draw, old(self)@.board.width) && self@ == old(self)@.after_tick(
                    delta_time,
                    draw,
                ));
            }
        }
        ret
    }

    /// Lets the blocks fall by one row, the interactable ones too if `drift`.
    /// A block that settles on the top row ends the game. Where blocks settle
    /// otherwise, the complete rows are cleared, and the score rises by one
    /// for each row that blocks were cleared from. Returns whether a block
    /// moved or settled.
    pub fn fall(&mut self, drift: bool) -> (r: bool)
        requires
            old(self)@.wf(),
        ensures
            final(self)@.wf(),
            final(self)@ == old(self)@.after_fall(drift),
            r == old(self)@.board.fall(drift).msg() is Some,
            old(self)@.board.apart() ==> final(self)@.board.apart(),
            old(self)@.within() ==> final(self)@.within(),
            final(self)@.score == if old(self)@.board.fall(drift).msg() == Some(
                Msg::BlocksSettled,
            ) {
                raised(old(self)@.score, rows_of(old(self)@.settled(drift).cleared_blocks()).len())
            } else {
                old(self)@.score
            },
            final(self)@.score >= old(self)@.score,
            !r ==> *final(self) == *old(self),
    {
        match self.board.fall_tick(drift) {
            Some(Msg::GameOver) => {
                self.state = State::GameOver;
                true
            },
            Some(Msg::BlocksSettled) => {
                let cleared = self.board.clear_completed();
                let rows = board::distinct_rows(&cleared);
                self.score = if rows > usize::MAX - self.score {
                    usize::MAX
                } else {
                    self.score + rows
                };
                true
            },
            Some(Msg::Updated) => true,
            None => false,
        }
    }

    /// Puts `block` on the board. The game is over if the block shares a
    /// position with a block that was there: the board is too full.
    pub fn spawn(&mut self, block: Block)
        requires
            old(self)@.wf(),
            block@.wf(),
        ensures
            final(self)@.wf(),
            final(self)@ == old(self)@.after_spawn(block@),
            old(self)@.playing_apart() ==> final(self)@.playing_apart(),
            old(self)@.within() && old(self)@.board.holds(block@) ==> final(self)@.within(),
    {
        self.board.push_block(block);
        let last = self.board.blocks().len() - 1;
        let ghost before = old(self)@.board.blocks;
        let ghost now = self@.board.blocks;
        proof {
            assert(now.len() == before.len() + 1);
            assert(now[last as int] == block@);
            assert forall|j: int| 0 <= j < before.len() implies now[j] == before[j] by {}
        }
        let hit = self.board.collides(last);
        proof {
            if hit {
                let j = choose|j: int|
                    0 <= j < now.len() && j != last && now[last as int].overlaps(#[trigger] now[j]);
                assert(block@.overlaps(before[j]));
            }
            if old(self)@.board.hits(block@) {
                let j = choose|j: int|
                    0 <= j < before.len() && block@.overlaps(#[trigger] before[j]);
                assert(now[last as int].overlaps(now[j]));
            }
        }
        if hit {
            self.state = State::GameOver;
        }
    }

    /// Types `ch` into the focused block. Returns whether a block took it.
    pub fn add_char(&mut self, ch: char) -> (r: bool)
        requires
            old(self)@.wf(),
        ensures
            final(self)@.wf(),
            r == old(self)@.board.can_type(ch),
            final(self)@ == old(self)@.with_board(old(self)@.board.after_type(ch)),
            old(self)@.within() ==> final(self)@.within(),
            old(self)@.board.apart() ==> final(self)@.board.apart(),
            !r ==> final(self)@ == old(self)@,
    {
        let changed = match self.board.get_focused_mut() {
            Some(focus) => focus.add_char(ch),
            None => false,
        };
        proof {
            let before = old(self)@.board;
            if before.focus() is Some {
                let f = before.focus()->0;
                lemma_focus_from(before.blocks, 0);
                assert(before.blocks[f].wf());
                lemma_typing_in_place(before.blocks[f], ch);
                lemma_replaced_in_place(before.blocks, f, before.blocks[f].after_add(ch));
                assert(before.blocks.update(f, before.blocks[f]) =~= before.blocks);
            }
        }
        changed
    }

    /// Deletes the last letter typed into the focused block. Returns whether
    /// a block gave one up.
    pub fn delete_char(&mut self) -> (r: bool)
        requires
            old(self)@.wf(),
        ensures
            final(self)@.wf(),
            r == old(self)@.board.can_delete(),
            final(self)@ == old(self)@.with_board(old(self)@.board.after_delete()),
            old(self)@.within() ==> final(self)@.within(),
            old(self)@.board.apart() ==> final(self)@.board.apart(),
            !r ==> final(self)@ == old(self)@,
    {
        let changed = match self.board.get_focused_mut() {
            Some(focus) => focus.delete_char(),
            None => false,
        };
        proof {
            let before = old(self)@.board;
            if before.focus() is Some {
                let f = before.focus()->0;
                lemma_focus_from(before.blocks, 0);
                assert(before.blocks[f].wf());
                lemma_typing_in_place(before.blocks[f], 'a');
                lemma_replaced_in_place(before.blocks, f, before.blocks[f].after_delete());
                assert(before.blocks.update(f, before.blocks[f]) =~= before.blocks);
            }
        }
        changed
    }

    /// Releases the focused block, which then falls.
    #[inline]
    pub fn focus_next(&mut self) -> (r: bool)
        requires
            old(self)@.wf(),
        ensures
            final(self)@.wf(),
            r == old(self)@.board.focus() is Some,
            final(self)@ == old(self)@.with_board(old(self)@.board.after_focus_next()),
            old(self)@.within() ==> final(self)@.within(),
            old(self)@.board.apart() ==> final(self)@.board.apart(),
    {
        self.board.focus_next()
    }

    /// Moves the focused block one cell to the left.
    #[inline]
    pub fn left(&mut self) -> (r: bool)
        requires
            old(self)@.wf(),
        ensures
            final(self)@.wf(),
            r == old(self)@.board.can_left(),
            final(self)@ == old(self)@.with_board(old(self)@.board.after_left()),
            old(self)@.within() ==> final(self)@.within(),
            old(self)@.board.apart() ==> final(self)@.board.apart() == !(r && old(
                self,
            )@.board.crowded_on_left(old(self)@.board.focus()->0)),
    {
        self.board.left()
    }

    /// Moves the focused block one cell to the right.
    #[inline]
    pub fn right(&mut self) -> (r: bool)
        requires
            old(self)@.wf(),
        ensures
            final(self)@.wf(),
            r == old(self)@.board.can_right(),
            final(self)@ == old(self)@.with_board(old(self)@.board.after_right()),
            old(self)@.within() ==> final(self)@.within(),
            old(self)@.board.apart() ==> final(self)@.board.apart() == !(r && old(
                self,
            )@.board.crowded_on_right(old(self)@.board.focus()->0)),
    {
        self.board.right()
    }

    #[inline]
    pub fn is_game_over(&self) -> (r: bool)
        ensures
            r == (self@.state == State::GameOver),
    {
        self.state == State::GameOver
    }

    #[inline]
    pub fn is_playing(&self) -> (r: bool)
        ensures
            r == (self@.state == State::Playing),
    {
        self.state == State::Playing
    }

    #[inline]
    pub fn is_splash(&self) -> (r: bool)
        ensures
            r == (self@.state == State::Splash),
    {
        self.state == State::Splash
    }

    /// Starts a new game with the settings of this one.
    fn new_game(&mut self)
        requires
            old(self)@.settings.width >= 1,
        ensures
            final(self)@.wf(),
            exists|draw: BlockView|
                spawnable(draw, old(self)@.settings.width) && final(self)@ == GameView::fresh(
                    old(self)@.settings,
                    draw,
                ),
            old(self)@.settings.height >= 1 ==> final(self)@.within(),
    {
        *self = Self::new(self.settings);
    }
}

} // verus!
