use typetris::game::block::bounding_box::{BoundingBox, Offset};
use typetris::game::block::{Block, BlockCell, State};
use typetris::game::english;
use typetris::game::position::BoardPosition;

fn make_block(text: &'static str) -> Block {
    Block::new_line(text, State::Interactable, 0, 0).expect("text should be ascii only")
}

fn add_and_assert(b: &mut Block, ch: char, has_update: bool, is_correct: bool, expected_text: &str) {
    assert_eq!(b.add_char(ch), has_update);
    assert_eq!(b.state(), State::Interactable);
    assert_eq!(b.is_correct(), is_correct);
    assert!(b.check_input_text(expected_text));
}

fn delete_and_assert(b: &mut Block, has_update: bool, is_correct: bool, expected_text: &str) {
    assert_eq!(b.delete_char(), has_update);
    assert_eq!(b.state(), State::Interactable);
    assert_eq!(b.is_correct(), is_correct);
    assert!(b.check_input_text(expected_text));
}

fn inputs(b: &Block) -> Vec<Option<u8>> {
    b.cells().iter().map(|c| c.input_char).collect()
}

#[test]
fn invalid_chars() {
    let mut b = make_block("unicode");
    add_and_assert(&mut b, '.', false, false, "");
    add_and_assert(&mut b, '%', false, false, "");
    add_and_assert(&mut b, ' ', false, false, "");
    add_and_assert(&mut b, '"', false, false, "");
    add_and_assert(&mut b, '0', false, false, "");
}

#[test]
fn block_t0() {
    let mut b = make_block("a");
    add_and_assert(&mut b, 'a', true, true, "a");
    add_and_assert(&mut b, 'b', false, true, "a");
    delete_and_assert(&mut b, true, false, "");
    add_and_assert(&mut b, 'B', true, false, "B");
}

#[test]
fn block_t1() {
    let mut b = make_block("a");
    add_and_assert(&mut b, 'b', true, false, "b");
    add_and_assert(&mut b, 'c', false, false, "b");
    delete_and_assert(&mut b, true, false, "");
    add_and_assert(&mut b, 'a', true, true, "a");
}

#[test]
fn block_t2() {
    let mut b = make_block("abc");
    add_and_assert(&mut b, 'a', true, false, "a");
    add_and_assert(&mut b, 'b', true, false, "ab");
    add_and_assert(&mut b, 'C', true, false, "abC");
    add_and_assert(&mut b, 'd', false, false, "abC");
    delete_and_assert(&mut b, true, false, "ab");
    add_and_assert(&mut b, 'c', true, true, "abc");
    delete_and_assert(&mut b, true, false, "ab");
    delete_and_assert(&mut b, true, false, "a");
    delete_and_assert(&mut b, true, false, "");
    delete_and_assert(&mut b, false, false, "");
}

#[test]
fn t3() {
    for state in [State::Falling, State::Settled] {
        let a = Block::new_line("a", state, 0, 0).expect("ascii text should be valid");
        let mut b = a.clone();
        assert!(!b.add_char('a'));
        assert_eq!(a, b);
    }
}

#[test]
fn t4() {
    for state in [State::Falling, State::Settled] {
        let a = Block::new_line("abc", state, 0, 0).expect("ascii text should be valid");
        let mut b = a.clone();
        assert!(!b.delete_char());
        assert_eq!(a, b);
    }
}

#[test]
fn typing_fills_exactly_the_cells_named() {
    let mut b = make_block("abc");
    assert_eq!(inputs(&b), vec![None, None, None]);
    assert!(b.add_char('a'));
    assert!(b.add_char('b'));
    assert!(b.add_char('C'));
    assert_eq!(inputs(&b), vec![Some(b'a'), Some(b'b'), Some(b'C')]);
    assert!(!b.is_correct());
    assert!(b.delete_char());
    assert_eq!(inputs(&b), vec![Some(b'a'), Some(b'b'), None]);
    assert!(b.add_char('c'));
    assert_eq!(inputs(&b), vec![Some(b'a'), Some(b'b'), Some(b'c')]);
    assert!(b.is_correct());
    assert!(b.is_movable());
}

#[test]
fn letters_at_the_ends_of_the_alphabet_are_taken() {
    for ch in ['a', 'z', 'A', 'Z'] {
        let mut b = make_block("q");
        assert!(b.add_char(ch));
        assert_eq!(inputs(&b), vec![Some(ch as u8)]);
    }
    for ch in ['`', '{', '@', '[', 'é', '1'] {
        let mut b = make_block("q");
        assert!(!b.add_char(ch));
        assert_eq!(inputs(&b), vec![None]);
    }
}

#[test]
fn new_line_lays_cells_out_to_the_right() {
    let b = Block::new_line("why", State::Falling, 3, 7).unwrap();
    assert_eq!(b.state(), State::Falling);
    assert!(b.is_falling());
    assert!(!b.is_settled());
    assert!(!b.is_interactable());
    assert_eq!(b.bounding_box(), BoundingBox::new(3, 7, 3, 1));
    assert_eq!((b.x(), b.y(), b.width()), (3, 7, 3));
    assert_eq!(b.position(), BoardPosition::new(3, 7));
    let cells: Vec<BlockCell> = b.cells().clone();
    assert_eq!(cells.len(), 3);
    for (i, (cell, ch)) in cells.iter().zip("why".bytes()).enumerate() {
        assert_eq!(cell.assigned_char, ch);
        assert_eq!(cell.input_char, None);
        assert_eq!(cell.position, BoardPosition::new(3 + i as u8, 7));
        assert!(!cell.is_correct());
    }
}

#[test]
fn new_line_refuses_what_is_no_line() {
    assert!(Block::new_line("naïve", State::Interactable, 0, 0).is_none());
    assert!(Block::new_line("日本", State::Settled, 0, 0).is_none());
    assert!(Block::new_line("", State::Interactable, 0, 0).is_none());
    // the last letter would lie in column 256
    assert!(Block::new_line("ab", State::Interactable, 255, 0).is_none());
    assert!(Block::new_line("ab", State::Interactable, 254, 0).is_some());
    let long = "x".repeat(256);
    assert!(Block::new_line(&long, State::Interactable, 0, 0).is_none());
    let fits = "x".repeat(255);
    assert_eq!(Block::new_line(&fits, State::Interactable, 1, 0).unwrap().width(), 255);
    assert!(Block::new_line(&fits, State::Interactable, 2, 0).is_none());
}

#[test]
fn cells_are_made_of_ascii_only() {
    let p = BoardPosition::new(1, 2);
    assert_eq!(
        BlockCell::new(b'a', p),
        Some(BlockCell { assigned_char: b'a', input_char: None, position: p })
    );
    assert_eq!(BlockCell::new(127, p).map(|c| c.assigned_char), Some(127));
    assert_eq!(BlockCell::new(128, p), None);
    assert_eq!(BlockCell::new(255, p), None);
    assert_eq!(BlockCell::new_unchecked(b'z', p), BlockCell::new(b'z', p).unwrap());
    let typed = BlockCell { assigned_char: b'a', input_char: Some(b'a'), position: p };
    assert!(typed.is_correct());
    let wrong = BlockCell { assigned_char: b'a', input_char: Some(b'A'), position: p };
    assert!(!wrong.is_correct());
}

#[test]
fn shift_moves_box_and_cells_alike() {
    let mut b = Block::new_settled("abc", 5, 5);
    b.shift(Offset::new(-2, 3));
    assert_eq!(b.bounding_box(), BoundingBox::new(3, 8, 3, 1));
    let xs: Vec<(u8, u8)> = b.cells().iter().map(|c| (c.position.x, c.position.y)).collect();
    assert_eq!(xs, vec![(3, 8), (4, 8), (5, 8)]);
    assert_eq!(b.state(), State::Settled);
}

#[test]
fn shift_stops_at_the_edges_in_one_piece() {
    let mut b = Block::new_falling("abc", 1, 1);
    b.shift(Offset::new(-5, -5));
    assert_eq!(b.bounding_box(), BoundingBox::new(0, 0, 3, 1));
    let xs: Vec<u8> = b.cells().iter().map(|c| c.position.x).collect();
    assert_eq!(xs, vec![0, 1, 2]);
    let mut c = Block::new_falling("abc", 250, 250);
    c.shift(Offset::new(100, 100));
    assert_eq!(c.bounding_box(), BoundingBox::new(253, 255, 3, 1));
    let xs: Vec<u8> = c.cells().iter().map(|c| c.position.x).collect();
    assert_eq!(xs, vec![253, 254, 255]);
}

#[test]
fn shift_there_and_back_is_the_same_block() {
    let a = Block::new_interactable("word", 4, 4);
    let mut b = a.clone();
    b.shift(Offset::new(0, 1));
    assert_ne!(a, b);
    b.shift(Offset::new(0, -1));
    assert_eq!(a, b);
}

#[test]
fn intersect_is_sharing_a_cell() {
    let a = Block::new_settled("abc", 2, 4);
    assert!(a.intersect(&a));
    assert!(a.intersect(&Block::new_settled("x", 4, 4)));
    assert!(Block::new_settled("x", 4, 4).intersect(&a));
    assert!(!a.intersect(&Block::new_settled("x", 5, 4)));
    assert!(!a.intersect(&Block::new_settled("xy", 0, 4)));
    assert!(a.intersect(&Block::new_settled("xyz", 0, 4)));
    assert!(!a.intersect(&Block::new_settled("abc", 2, 5)));
    assert!(!a.intersect(&Block::new_settled("abc", 2, 3)));
}

#[test]
fn check_input_text_compares_as_far_as_both_reach() {
    let mut b = make_block("abc");
    assert!(b.check_input_text(""));
    assert!(!b.check_input_text("a"));
    b.add_char('a');
    assert!(b.check_input_text("a"));
    assert!(!b.check_input_text("ab"));
    assert!(!b.check_input_text("b"));
    b.add_char('b');
    b.add_char('c');
    assert!(b.check_input_text("abcdef"));
}

#[test]
fn helpers_make_lines_in_their_state() {
    assert_eq!(
        Block::with_text_x("one", 4),
        Block::new_line("one", State::Interactable, 4, 0).unwrap()
    );
    assert_eq!(
        Block::new_interactable("one", 4, 2),
        Block::new_line("one", State::Interactable, 4, 2).unwrap()
    );
    assert_eq!(
        Block::new_settled("one", 4, 2),
        Block::new_line("one", State::Settled, 4, 2).unwrap()
    );
    assert_eq!(
        Block::new_falling("one", 4, 2),
        Block::new_line("one", State::Falling, 4, 2).unwrap()
    );
}

#[test]
fn random_blocks_fit_the_board() {
    for width in 1..=40u8 {
        for _ in 0..50 {
            let b = Block::random(width);
            assert!(!b.cells().is_empty());
            assert!(b.width() <= width);
            assert!(b.x() as u16 + b.width() as u16 <= width as u16);
            assert_eq!(b.y(), 0);
            assert_eq!(b.bounding_box().height, 1);
            assert_eq!(b.width() as usize, b.cells().len());
            assert_eq!(b.state(), State::Interactable);
            assert!(b.cells().iter().all(|c| c.input_char.is_none()));
            assert!(b.cells().iter().all(|c| c.assigned_char.is_ascii_alphabetic()));
            for (i, c) in b.cells().iter().enumerate() {
                assert_eq!(c.position, BoardPosition::new(b.x() + i as u8, 0));
            }
            let text: String = b.cells().iter().map(|c| c.assigned_char as char).collect();
            assert!((0..english::WORD_COUNT).any(|i| english::word(i) == text));
        }
    }
}

#[test]
fn random_blocks_vary() {
    let mut texts = std::collections::BTreeSet::new();
    let mut columns = std::collections::BTreeSet::new();
    for _ in 0..400 {
        let b = Block::random(12);
        texts.insert(b.cells().iter().map(|c| c.assigned_char).collect::<Vec<u8>>());
        columns.insert(b.x());
    }
    assert!(texts.len() > 1);
    assert!(columns.len() > 1);
}

#[test]
fn random_blocks_lie_anywhere_between_the_edges() {
    let blocks: Vec<Block> = (0..400).map(|_| Block::random(12)).collect();
    // not every block lies against the right edge, nor against the left one
    assert!(blocks.iter().any(|b| b.x() + b.width() < 12));
    assert!(blocks.iter().any(|b| b.x() + b.width() == 12));
    assert!(blocks.iter().any(|b| b.x() > 0));
    assert!(blocks.iter().any(|b| b.x() == 0));
    // a board of one column has room for one word at one place
    for _ in 0..20 {
        assert_eq!(Block::random(1), Block::with_text_x("a", 0));
    }
    // on a board of two columns the word of one letter lies left or right
    let narrow: Vec<Block> = (0..400).map(|_| Block::random(2)).collect();
    assert!(narrow.iter().any(|b| b.width() == 1 && b.x() == 0));
    assert!(narrow.iter().any(|b| b.width() == 1 && b.x() == 1));
    assert!(narrow.iter().any(|b| b.width() == 2 && b.x() == 0));
}

#[test]
fn states_are_ordered_as_blocks_are_sorted() {
    assert!(State::Settled < State::Falling);
    assert!(State::Falling < State::Interactable);
    let mut states = vec![State::Interactable, State::Settled, State::Falling];
    states.sort();
    assert_eq!(states, vec![State::Settled, State::Falling, State::Interactable]);
}

#[test]
fn dictionary_is_sorted_by_length() {
    assert_eq!(english::word(0), "a");
    let mut last = 0;
    for i in 0..english::WORD_COUNT {
        let w = english::word(i);
        assert!(w.is_ascii());
        assert!(w.bytes().all(|b| b.is_ascii_lowercase()));
        assert!(!w.is_empty() && w.len() <= english::MAX_WORD_LENGTH as usize);
        assert!(w.len() >= last);
        last = w.len();
    }
    for max in 0..=20u8 {
        let n = english::fitting(max);
        let count = (0..english::WORD_COUNT)
            .filter(|&i| english::word(i).len() <= max as usize)
            .count();
        assert_eq!(n, count);
    }
    assert_eq!(english::fitting(0), 0);
    assert_eq!(english::fitting(1), 1);
    assert_eq!(english::fitting(255), english::WORD_COUNT);
}

#[test]
fn random_words_fit() {
    for max in 1..=10u8 {
        for _ in 0..50 {
            let w = english::random_word(max);
            assert!(w.len() <= max as usize);
            assert!(!w.is_empty());
        }
    }
    assert_eq!(english::random_word(1), "a");
}
