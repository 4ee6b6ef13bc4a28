use typetris::game::block::Block;
use typetris::game::board::{Board, Msg};
use typetris::game::settings::Settings;
use typetris::game::{Event, Game, State};

/// Seconds, as the game counts them here: in milliseconds.
fn s(seconds: f64) -> u32 {
    (seconds * 1000.0).round() as u32
}

fn tick(seconds: f64) -> Event {
    Event::Tick(s(seconds))
}

/// The default settings, their intervals counted as the tests count time.
fn defaults() -> Settings {
    let d = Settings::default();
    d.with_fall_interval(d.fall_interval * 1000).with_spawn_interval(d.spawn_interval * 1000)
}

fn assert_unchanged(a: &Game, f: impl FnOnce(&mut Game) -> bool) {
    let mut b = a.clone();
    assert!(f(&mut b));
    assert_eq!(a, &b);
}

fn fall_until_settled(game: &mut Game) {
    while !matches!(game.board_mut().fall_tick(true), Some(Msg::BlocksSettled)) {}
}

fn repeat_event(game: &mut Game, event: Event, n: usize) {
    for _ in 0..n {
        game.handle_event(event);
    }
}

fn handle_and_assert(g: &mut Game, event: Event, expected_text: &str) {
    assert!(g.handle_event(event));
    assert!(g.board().get_focused().is_some_and(|b| b.check_input_text(expected_text)));
}

#[test]
fn settled_unchanged() {
    let mut game = Game::new(defaults());
    fall_until_settled(&mut game);
    assert_unchanged(&game, |g| !g.add_char('a'));
    assert_unchanged(&game, |g| !g.delete_char());
}

#[test]
fn empty_unchanged() {
    let game = Game::new(defaults().with_starts_with_one(false));
    assert_unchanged(&game, |g| !g.add_char('a'));
    assert_unchanged(&game, |g| !g.delete_char());
}

#[test]
fn complex() {
    let mut game = Game::new(defaults().with_starts_with_one(false));
    game.board_mut().push_block(Block::with_text_x("one", 1));

    // one block at the top
    handle_and_assert(&mut game, Event::Type('a'), "a");
    handle_and_assert(&mut game, Event::Type('b'), "ab");
    handle_and_assert(&mut game, Event::Delete, "a");

    game.board_mut().fall_tick(true);
    game.board_mut().fall_tick(true);
    game.board_mut().fall_tick(true);
    game.board_mut().push_block(Block::with_text_x("two", 4));

    // one block in the middle (focus), one block at the top
    handle_and_assert(&mut game, Event::Type('m'), "am");

    fall_until_settled(&mut game);
    // one block settled at the bottom, one block in the middle (focus)
    handle_and_assert(&mut game, Event::Type('r'), "r");
    handle_and_assert(&mut game, Event::Type('m'), "rm");
    game.board_mut().push_block(Block::with_text_x("three", 0));
    // one block settled at the bottom, one block in the middle (focus),
    // one block at the top
    handle_and_assert(&mut game, Event::Delete, "r");
    handle_and_assert(&mut game, Event::Delete, "");
    handle_and_assert(&mut game, Event::Type('d'), "d");

    game.focus_next();
    handle_and_assert(&mut game, Event::Type('g'), "g");
    handle_and_assert(&mut game, Event::Type('g'), "gg");

    game.focus_next();
    assert_unchanged(&game, |g| !g.handle_event(Event::Type('x')));
}

#[test]
fn mod_t0() {
    let settings = defaults()
        .with_spawn_interval(s(6.0))
        .with_fall_interval(s(1.0))
        .with_drift_interval(1);
    let mut game = Game::new(settings);
    *game.board_mut() = Board::populated();
    game.board_mut().push_block(Block::with_text_x("rusty", 2));

    assert!(game.handle_event(tick(1.1)));
    assert!(!game.handle_event(Event::Right));
    assert!(game.handle_event(Event::Type('r')));
    assert!(game.handle_event(Event::Type('u')));
    assert!(game.handle_event(Event::Type('s')));
    assert!(game.handle_event(Event::Type('t')));
    assert!(game.handle_event(Event::Type('y')));
    assert!(!game.handle_event(Event::Type('p')));

    assert!(!game.handle_event(tick(0.1)));
    assert!(game.handle_event(tick(1.0)));
    assert!(game.handle_event(tick(1.0)));
    game.board_mut().push_block(Block::with_text_x("kitten", 8));

    assert!(game.handle_event(Event::Left));
    assert!(game.handle_event(Event::Left));
    assert!(!game.handle_event(Event::Left));

    assert!(game.handle_event(tick(1.0)));
    assert!(game.handle_event(tick(1.0)));
    assert!(game.handle_event(tick(1.0)));
    assert!(game.handle_event(Event::Next));
    assert!(game.handle_event(Event::Type('k')));
    assert!(game.handle_event(Event::Type('i')));
    assert!(game.handle_event(Event::Type('t')));
    assert!(game.handle_event(Event::Type('t')));
    assert!(game.handle_event(Event::Type('e')));
    assert!(game.handle_event(Event::Type('n')));
    assert!(game.handle_event(tick(1.0)));
    assert!(game.handle_event(tick(1.0)));
    assert!(game.handle_event(tick(1.0)));
    assert!(game.handle_event(Event::Right));
    assert!(game.handle_event(Event::Right));

    for _ in 0..20 {
        assert!(game.handle_event(tick(1.0)));
    }

    assert_eq!(game.score(), 3);

    for _ in 0..500 {
        game.handle_event(tick(1.0));
        if game.is_game_over() {
            return;
        }
    }
    panic!("the game should end after running without playing for a while");
}

#[test]
fn mod_t1() {
    // The longest word in the dictionary is 8 letters long, so a 10-wide board means
    // one block won't fill a row by itself.
    let settings = defaults()
        .with_starts_with_one(true)
        .with_width(10)
        .with_height(4)
        .with_spawn_interval(s(2.0))
        .with_fall_interval(s(0.25))
        .with_drift_interval(4);
    let mut game = Game::new(settings);

    for _ in 0..4 {
        let text = game
            .board()
            .get_focused()
            .unwrap()
            .cells()
            .iter()
            .map(|c| char::from(c.assigned_char))
            .collect::<Vec<_>>();
        for ch in text {
            game.handle_event(Event::Type(ch));
        }
        for _ in 0..10 {
            game.handle_event(Event::Left);
        }
        game.handle_event(Event::Next);
        game.handle_event(tick(1.0));
        game.handle_event(tick(1.0));
    }

    assert_eq!(game.state(), State::GameOver);
}

#[test]
fn mod_t2() {
    let settings = defaults()
        .with_starts_with_one(false)
        .with_width(4)
        .with_height(4)
        .with_spawn_interval(s(4.0))
        .with_fall_interval(s(1.0))
        .with_drift_interval(4);
    let mut game = Game::new(settings);

    game.board_mut().push_block(Block::with_text_x("an", 0));
    assert!(game.handle_event(Event::Next));
    assert!(game.handle_event(tick(1.1)));
    assert!(game.handle_event(tick(1.0)));
    game.board_mut().push_block(Block::with_text_x("ny", 2));
    assert!(game.handle_event(Event::Next));
    assert!(game.handle_event(tick(1.0)));
    assert!(game.handle_event(tick(1.0)));
    // new block spawns here after 4.1 time unit.
    assert!(game.handle_event(tick(1.0)));
    assert!(game.handle_event(tick(1.0)));
    // blocks settle and clear
    assert_eq!(game.board().blocks().len(), 1);
    assert_eq!(game.score(), 1);
    assert!(game.board().get_focused().is_some());
}

#[test]
fn free_fall() {
    let settings = defaults()
        .with_starts_with_one(true)
        .with_spawn_interval(s(2.0))
        .with_fall_interval(s(0.2))
        .with_drift_interval(5);
    let mut game = Game::new(settings);

    assert!(!game.handle_event(tick(0.25)));
    repeat_event(&mut game, tick(0.2), 4);
    assert!(game.board().get_focused().is_some_and(|b| b.y() == 1));

    assert!(game.handle_event(Event::Next));
    repeat_event(&mut game, tick(0.2), 14);
    assert!(game.board().blocks().first().is_some_and(|b| b.y() == 15));
    assert!(game.board().get_focused().is_some_and(|b| b.y() == 1));
    assert!(game.handle_event(tick(0.2)));
    assert!(game.board().get_focused().is_some_and(|b| b.y() == 2));
    assert!(game.board().blocks().first().is_some_and(|b| b.is_settled() && b.y() == 15));
}

#[test]
fn skim_left() {
    let settings = defaults()
        .with_starts_with_one(false)
        .with_width(8)
        .with_height(8)
        .with_fall_interval(s(0.2))
        .with_drift_interval(1);
    let mut game = Game::new(settings);
    for y in 4..7 {
        game.board_mut().push_block(Block::new_settled("why", 0, y));
    }
    game.board_mut().push_block(Block::new_interactable("me", 3, 3));
    assert!(game.handle_event(Event::Type('m')));
    assert!(game.handle_event(Event::Type('e')));
    assert!(game.handle_event(Event::Left));
    assert!(game.handle_event(Event::Right));
    assert!(game.handle_event(tick(0.25)));
    assert!(!game.handle_event(Event::Left));
    assert!(game.handle_event(Event::Right));
    assert!(game.handle_event(Event::Left));
}

#[test]
fn skim_right() {
    let settings = defaults()
        .with_starts_with_one(false)
        .with_width(8)
        .with_height(8)
        .with_fall_interval(s(0.2))
        .with_drift_interval(1);
    let mut game = Game::new(settings);
    for y in 4..7 {
        game.board_mut().push_block(Block::new_settled("why", 5, y));
    }
    game.board_mut().push_block(Block::new_interactable("me", 3, 3));
    assert!(game.handle_event(Event::Type('m')));
    assert!(game.handle_event(Event::Type('e')));
    assert!(game.handle_event(Event::Right));
    assert!(game.handle_event(Event::Left));
    assert!(game.handle_event(tick(0.25)));
    assert!(!game.handle_event(Event::Right));
    assert!(game.handle_event(Event::Left));
    assert!(game.handle_event(Event::Right));
}

#[test]
fn skim_settle() {
    let settings = defaults()
        .with_starts_with_one(false)
        .with_width(8)
        .with_height(8)
        .with_fall_interval(s(0.2))
        .with_drift_interval(3);
    let mut game = Game::new(settings);
    for y in 4..7 {
        game.board_mut().push_block(Block::new_settled("Cotton", 0, y));
    }
    game.board_mut().push_block(Block::new_interactable("me", 6, 3));
    assert!(game.handle_event(Event::Type('m')));
    assert!(game.handle_event(Event::Type('e')));
    assert!(game.handle_event(Event::Left));
    assert!(!game.handle_event(tick(0.25)));
    assert!(game.handle_event(Event::Left));
    assert!(!game.handle_event(tick(0.2)));
    assert!(game.handle_event(Event::Left));
    assert!(game.handle_event(tick(0.2)));
    assert!(game.board().get_focused().is_none());
}

#[test]
fn mod_full() {
    let settings = defaults()
        .with_starts_with_one(false)
        .with_width(8)
        .with_height(8)
        .with_fall_interval(s(1.0))
        .with_drift_interval(1);
    let mut game = Game::new(settings);
    for y in 1..7 {
        game.board_mut().push_block(Block::new_settled("Rennoir", 0, y));
    }
    game.board_mut().push_block(Block::new_interactable("Aline", 0, 0));
    assert!(!game.handle_event(Event::Right));
    assert!(game.handle_event(Event::Type('A')));
    assert!(game.handle_event(Event::Type('l')));
    assert!(game.handle_event(Event::Type('i')));
    assert!(game.handle_event(Event::Type('c')));
    assert!(game.handle_event(Event::Delete));
    assert!(game.handle_event(Event::Type('n')));
    assert!(game.handle_event(Event::Type('e')));
    assert!(game.handle_event(Event::Right));
    assert!(game.handle_event(Event::Right));
    assert!(game.handle_event(Event::Right));
    assert!(!game.handle_event(Event::Right));
    assert!(game.handle_event(tick(1.1)));
    assert_eq!(game.state(), State::GameOver);
}

#[test]
fn splash() {
    let settings = defaults()
        .with_fall_interval(s(1.0))
        .with_drift_interval(1)
        .with_starts_with_splash(true);
    let mut game = Game::new(settings);
    assert_eq!(game.state(), State::Splash);
    assert_eq!(game.board(), Game::splash().board());
    assert_unchanged(&game, |g| !g.handle_event(tick(1.1)));
    assert_unchanged(&game, |g| !g.handle_event(Event::Left));
    assert_unchanged(&game, |g| !g.handle_event(Event::Right));
    assert_unchanged(&game, |g| !g.handle_event(Event::Type('a')));
    assert_unchanged(&game, |g| !g.handle_event(Event::Delete));
    assert!(game.handle_event(Event::NewGame));
    assert_eq!(game.board().blocks().len(), 1);
    assert_eq!(game.board().width(), settings.width);
    assert_eq!(game.board().height(), settings.height);
    assert!(game.handle_event(tick(1.1)));
    assert!(game.handle_event(Event::Type('a')));
}

#[test]
fn splash_board_is_laid_out_in_order() {
    let game = Game::splash();
    assert!(game.is_splash());
    assert!(!game.is_playing());
    assert!(!game.is_game_over());
    assert_eq!(game.score(), 0);
    assert_eq!((game.board().width(), game.board().height()), (12, 16));
    assert_eq!(game.settings(), &Settings::default());
    let mut typing = Block::new_interactable("typing", 5, 12);
    for ch in "tyin".chars() {
        typing.add_char(ch);
    }
    assert_eq!(
        game.board().blocks(),
        &vec![
            Block::new_settled("game", 4, 15),
            typing,
            Block::new_interactable("a", 4, 11),
            Block::new_interactable("it", 2, 10),
            Block::new_interactable("make", 4, 9),
            Block::new_interactable("but", 8, 8),
            Block::new_interactable("Tetris", 6, 6),
            Block::new_interactable("like", 3, 5),
            Block::new_interactable("It's", 0, 4),
            Block::new_interactable("Typetris", 2, 0),
        ]
    );
    assert!(game.board().no_overlap());
}

#[test]
fn game_over_passes_every_event_over_but_new_game() {
    let mut game = Game::new(defaults().with_starts_with_one(false).with_width(4).with_height(1));
    game.board_mut().push_block(Block::with_text_x("an", 0));
    assert!(game.handle_event(Event::Next));
    assert!(game.handle_event(Event::Tick(defaults().fall_interval)));
    assert!(game.is_game_over());
    assert_unchanged(&game, |g| !g.handle_event(Event::Tick(u32::MAX)));
    assert_unchanged(&game, |g| !g.handle_event(Event::Left));
    assert_unchanged(&game, |g| !g.handle_event(Event::Right));
    assert_unchanged(&game, |g| !g.handle_event(Event::Type('a')));
    assert_unchanged(&game, |g| !g.handle_event(Event::Delete));
    assert_unchanged(&game, |g| !g.handle_event(Event::Next));
    assert!(game.handle_event(Event::NewGame));
    assert!(game.is_playing());
    assert_eq!(game.score(), 0);
    assert!(game.board().blocks().is_empty());
}

#[test]
fn two_rows_cleared_at_once_score_two() {
    let mut game = Game::new(
        defaults().with_starts_with_one(false).with_width(4).with_height(4).with_drift_interval(9),
    );
    game.board_mut().push_block(Block::new_settled("ab", 0, 3));
    game.board_mut().push_block(Block::new_settled("cd", 2, 3));
    game.board_mut().push_block(Block::new_settled("ef", 0, 2));
    game.board_mut().push_block(Block::new_settled("gh", 2, 2));
    game.board_mut().push_block(Block::new_settled("i", 0, 1));
    game.board_mut().push_block(Block::new_falling("j", 3, 0));
    assert!(game.fall(false));
    assert_eq!(game.score(), 0);
    assert!(game.fall(false));
    assert_eq!(game.score(), 2);
    assert_eq!(
        game.board().blocks(),
        &vec![Block::new_falling("i", 0, 1), Block::new_falling("j", 3, 1)]
    );
    assert!(game.is_playing());
    assert!(game.fall(false));
    assert!(game.fall(false));
    assert!(game.board().blocks().iter().all(|b| b.is_falling() && b.y() == 3));
    assert!(game.fall(false));
    assert_eq!(game.score(), 2);
    assert!(game.board().blocks().iter().all(|b| b.is_settled() && b.y() == 3));
    assert!(!game.fall(true));
}

#[test]
fn spawning_onto_a_block_ends_the_game() {
    let mut game = Game::new(defaults().with_starts_with_one(false).with_width(8).with_height(8));
    game.board_mut().push_block(Block::new_falling("ab", 0, 0));
    game.spawn(Block::with_text_x("cd", 2));
    assert!(game.is_playing());
    assert_eq!(game.board().blocks().len(), 2);
    game.spawn(Block::with_text_x("ef", 3));
    assert!(game.is_game_over());
    assert_eq!(game.board().blocks().len(), 3);
    assert_eq!(game.board().blocks()[2], Block::with_text_x("ef", 3));
}

#[test]
fn a_tick_falls_first_and_spawns_then() {
    let mut game = Game::new(
        defaults()
            .with_starts_with_one(false)
            .with_width(8)
            .with_height(8)
            .with_fall_interval(10)
            .with_spawn_interval(10)
            .with_drift_interval(1),
    );
    assert!(!game.handle_event(Event::Tick(9)));
    assert!(game.board().blocks().is_empty());
    assert!(game.handle_event(Event::Tick(1)));
    assert_eq!(game.board().blocks().len(), 1);
    assert_eq!(game.board().blocks()[0].y(), 0);
    assert!(game.handle_event(Event::Tick(10)));
    assert_eq!(game.board().blocks().len(), 2);
    assert_eq!(game.board().blocks()[0].y(), 1);
    assert_eq!(game.board().blocks()[1].y(), 0);
    assert!(game.board().no_overlap());
}

#[test]
fn with_settings_changes_the_settings_only() {
    let game = Game::new(defaults().with_starts_with_one(false));
    let other = defaults().with_width(3).with_height(5);
    let changed = game.clone().with_settings(other);
    assert_eq!(changed.settings(), &other);
    assert_eq!(changed.board(), game.board());
    assert_eq!(changed.state(), game.state());
    assert_eq!(changed.score(), game.score());
    let mut next = changed;
    assert!(next.handle_event(Event::NewGame));
    assert_eq!((next.board().width(), next.board().height()), (3, 5));
}

#[test]
fn default_game_and_settings() {
    let d = Settings::default();
    assert_eq!(
        d,
        Settings {
            width: 12,
            height: 16,
            starts_with_one: true,
            starts_with_splash: false,
            fall_interval: 100,
            spawn_interval: 4000,
            drift_interval: 8,
        }
    );
    let game = Game::default();
    assert!(game.is_playing());
    assert_eq!(game.settings(), &d);
    assert_eq!(game.board().blocks().len(), 1);
    assert_eq!(game.score(), 0);
}

#[test]
fn left_and_right_go_through_the_game() {
    let mut game = Game::new(defaults().with_starts_with_one(false).with_width(4).with_height(4));
    game.board_mut().push_block(Block::with_text_x("an", 1));
    assert!(!game.left());
    assert!(game.add_char('a'));
    assert!(game.add_char('n'));
    assert!(game.left());
    assert!(!game.left());
    assert!(game.right());
    assert!(game.right());
    assert!(!game.right());
    assert!(game.delete_char());
    assert!(!game.left());
    assert!(game.focus_next());
    assert!(!game.focus_next());
    assert!(!game.tick(100));
    assert!(game.tick(defaults().fall_interval));
    assert_eq!(game.board().blocks()[0].y(), 1);
}

#[test]
fn keys_stand_for_events() {
    for ctrl in [false, true] {
        assert_eq!(Event::from_key("Enter", ctrl), Some(Event::Next));
        assert_eq!(Event::from_key("Tab", ctrl), Some(Event::Next));
        assert_eq!(Event::from_key(" ", ctrl), Some(Event::Next));
        assert_eq!(Event::from_key("ArrowLeft", ctrl), Some(Event::Left));
        assert_eq!(Event::from_key("ArrowRight", ctrl), Some(Event::Right));
        assert_eq!(Event::from_key("Backspace", ctrl), Some(Event::Delete));
        assert_eq!(Event::from_key("a", ctrl), Some(Event::Type('a')));
        assert_eq!(Event::from_key("Z", ctrl), Some(Event::Type('Z')));
        assert_eq!(Event::from_key("7", ctrl), Some(Event::Type('7')));
        assert_eq!(Event::from_key("\u{7f}", ctrl), Some(Event::Type('\u{7f}')));
        assert_eq!(Event::from_key("é", ctrl), None);
        assert_eq!(Event::from_key("ab", ctrl), None);
        assert_eq!(Event::from_key("", ctrl), None);
        assert_eq!(Event::from_key("Shift", ctrl), None);
        assert_eq!(Event::from_key("enter", ctrl), None);
        assert_eq!(Event::from_key("ArrowUp", ctrl), None);
    }
    assert_eq!(Event::from_key("h", true), Some(Event::Left));
    assert_eq!(Event::from_key("l", true), Some(Event::Right));
    assert_eq!(Event::from_key("h", false), Some(Event::Type('h')));
    assert_eq!(Event::from_key("l", false), Some(Event::Type('l')));
    assert_eq!(Event::from_key("H", true), Some(Event::Type('H')));
}

#[test]
fn keys_drive_a_game() {
    let mut game = Game::new(defaults().with_starts_with_one(false).with_width(4).with_height(4));
    game.board_mut().push_block(Block::with_text_x("hi", 1));
    for (key, ctrl, changed) in [
        ("h", false, true),
        ("x", false, true),
        ("Backspace", false, true),
        ("i", false, true),
        ("!", false, false),
        ("h", true, true),
        ("h", true, false),
        ("ArrowRight", false, true),
        ("l", true, true),
        ("ArrowRight", false, false),
        ("Enter", false, true),
        (" ", false, false),
    ] {
        let event = Event::from_key(key, ctrl).unwrap();
        assert_eq!(game.handle_event(event), changed, "{key}");
    }
    assert_eq!(game.board().blocks()[0].x(), 2);
    assert!(game.board().blocks()[0].is_falling());
}

#[test]
fn games_stay_well_formed() {
    let mut game = Game::new(
        defaults()
            .with_width(6)
            .with_height(6)
            .with_fall_interval(10)
            .with_spawn_interval(35)
            .with_drift_interval(3),
    );
    assert!(game.is_well_formed());
    assert!(Game::splash().is_well_formed());
    let events = [
        Event::Type('a'),
        Event::Tick(10),
        Event::Left,
        Event::Type('e'),
        Event::Right,
        Event::Tick(7),
        Event::Delete,
        Event::Next,
        Event::Tick(25),
    ];
    let mut rounds = 0;
    while !game.is_game_over() {
        for event in events {
            game.handle_event(event);
            assert!(game.is_well_formed());
            assert!(game.board().is_well_formed());
            assert!(game.board().blocks().iter().all(|b| b.is_well_formed()));
            assert!(game.board().blocks().iter().all(|b| b.y() < 6 && b.x() + b.width() <= 6));
        }
        rounds += 1;
        assert!(rounds < 10_000);
    }
    assert!(game.handle_event(Event::NewGame));
    assert!(game.is_well_formed());
    assert!(game.is_playing());
}
