//! The dictionary that blocks draw their words from.
use crate::game::chance::choose_below;
use vstd::prelude::*;
use vstd::string::*;
use vstd::utf8::is_ascii_chars;

verus! {

/// The number of words in the dictionary.
pub const WORD_COUNT: usize = 45;

/// The length of the longest word.
pub const MAX_WORD_LENGTH: u8 = 8;

/// The `i`-th word of the dictionary. The words stand in the order of their
/// lengths, the shortest first.
pub open spec fn word_text(i: int) -> Seq<char> {
    if i == 0 {
        "a"@
    } else if i == 1 {
        "an"@
    } else if i == 2 {
        "be"@
    } else if i == 3 {
        "do"@
    } else if i == 4 {
        "go"@
    } else if i == 5 {
        "if"@
    } else if i == 6 {
        "it"@
    } else if i == 7 {
        "of"@
    } else if i == 8 {
        "to"@
    } else if i == 9 {
        "we"@
    } else if i == 10 {
        "and"@
    } else if i == 11 {
        "box"@
    } else if i == 12 {
        "cat"@
    } else if i == 13 {
        "fun"@
    } else if i == 14 {
        "key"@
    } else if i == 15 {
        "row"@
    } else if i == 16 {
        "the"@
    } else if i == 17 {
        "why"@
    } else if i == 18 {
        "code"@
    } else if i == 19 {
        "fall"@
    } else if i == 20 {
        "game"@
    } else if i == 21 {
        "line"@
    } else if i == 22 {
        "play"@
    } else if i == 23 {
        "rust"@
    } else if i == 24 {
        "type"@
    } else if i == 25 {
        "word"@
    } else if i == 26 {
        "block"@
    } else if i == 27 {
        "board"@
    } else if i == 28 {
        "clear"@
    } else if i == 29 {
        "drift"@
    } else if i == 30 {
        "score"@
    } else if i == 31 {
        "timer"@
    } else if i == 32 {
        "bottom"@
    } else if i == 33 {
        "letter"@
    } else if i == 34 {
        "puzzle"@
    } else if i == 35 {
        "settle"@
    } else if i == 36 {
        "typing"@
    } else if i == 37 {
        "cascade"@
    } else if i == 38 {
        "falling"@
    } else if i == 39 {
        "spawned"@
    } else if i == 40 {
        "stacked"@
    } else if i == 41 {
        "complete"@
    } else if i == 42 {
        "interact"@
    } else if i == 43 {
        "keyboard"@
    } else {
        "position"@
    }
}

/// The number of words that are at most `max_length` letters long. They are
/// the first words of the dictionary.
pub open spec fn fitting_count(max_length: int) -> int {
    if max_length <= 0 {
        0
    } else if max_length <= 1 {
        1
    } else if max_length <= 2 {
        10
    } else if max_length <= 3 {
        18
    } else if max_length <= 4 {
        26
    } else if max_length <= 5 {
        32
    } else if max_length <= 6 {
        37
    } else if max_length <= 7 {
        41
    } else {
        45
    }
}

/// Makes the text of every word known to the verifier.
pub proof fn reveal_words()
    ensures
        forall|i: int|
            0 <= i < WORD_COUNT ==> 1 <= (#[trigger] word_text(i)).len() <= MAX_WORD_LENGTH
                && is_ascii_chars(word_text(i)),
        forall|i: int, max_length: int|
            0 <= i < WORD_COUNT ==> (#[trigger] word_text(i).len() <= max_length <==> i
                < #[trigger] fitting_count(max_length)),
{
    reveal_strlit("a");
    reveal_strlit("an");
    reveal_strlit("be");
    reveal_strlit("do");
    reveal_strlit("go");
    reveal_strlit("if");
    reveal_strlit("it");
    reveal_strlit("of");
    reveal_strlit("to");
    reveal_strlit("we");
    reveal_strlit("and");
    reveal_strlit("box");
    reveal_strlit("cat");
    reveal_strlit("fun");
    reveal_strlit("key");
    reveal_strlit("row");
    reveal_strlit("the");
    reveal_strlit("why");
    reveal_strlit("code");
    reveal_strlit("fall");
    reveal_strlit("game");
    reveal_strlit("line");
    reveal_strlit("play");
    reveal_strlit("rust");
    reveal_strlit("type");
    reveal_strlit("word");
    reveal_strlit("block");
    reveal_strlit("board");
    reveal_strlit("clear");
    reveal_strlit("drift");
    reveal_strlit("score");
    reveal_strlit("timer");
    reveal_strlit("bottom");
    reveal_strlit("letter");
    reveal_strlit("puzzle");
    reveal_strlit("settle");
    reveal_strlit("typing");
    reveal_strlit("cascade");
    reveal_strlit("falling");
    reveal_strlit("spawned");
    reveal_strlit("stacked");
    reveal_strlit("complete");
    reveal_strlit("interact");
    reveal_strlit("keyboard");
    reveal_strlit("position");
}

/// The `i`-th word of the dictionary.
pub fn word(i: usize) -> (r: &'static str)
    requires
        i < WORD_COUNT,
    ensures
        r@ == word_text(i as int),
        is_ascii(r),
        1 <= r@.len() <= MAX_WORD_LENGTH,
{
    let r = match i {
        0 => "a",
        1 => "an",
        2 => "be",
        3 => "do",
        4 => "go",
        5 => "if",
        6 => "it",
        7 => "of",
        8 => "to",
        9 => "we",
        10 => "and",
        11 => "box",
        12 => "cat",
        13 => "fun",
        14 => "key",
        15 => "row",
        16 => "the",
        17 => "why",
        18 => "code",
        19 => "fall",
        20 => "game",
        21 => "line",
        22 => "play",
        23 => "rust",
        24 => "type",
        25 => "word",
        26 => "block",
        27 => "board",
        28 => "clear",
        29 => "drift",
        30 => "score",
        31 => "timer",
        32 => "bottom",
        33 => "letter",
        34 => "puzzle",
        35 => "settle",
        36 => "typing",
        37 => "cascade",
        38 => "falling",
        39 => "spawned",
        40 => "stacked",
        41 => "complete",
        42 => "interact",
        43 => "keyboard",
        _ => "position",
    };
    proof {
        reveal_words();
        assert(word_text(i as int).len() >= 1);
    }
    r
}

/// The number of words that are at most `max_length` letters long.
pub fn fitting(max_length: u8) -> (r: usize)
    ensures
        r == fitting_count(max_length as int),
        r <= WORD_COUNT,
        max_length >= 1 ==> r >= 1,
{
    match max_length {
        0 => 0,
        1 => 1,
        2 => 10,
        3 => 18,
        4 => 26,
        5 => 32,
        6 => 37,
        7 => 41,
        _ => 45,
    }
}

/// Draws a word of at most `max_length` letters, each such word of the
/// dictionary being as likely as any other.
pub fn random_word(max_length: u8) -> (r: &'static str)
    requires
        max_length >= 1,
    ensures
        exists|i: int| 0 <= i < fitting_count(max_length as int) && r@ == word_text(i),
        is_ascii(r),
        1 <= r@.len() <= max_length,
{
    let count = fitting(max_length);
    let drawn = choose_below(count);
    let i = match drawn {
        Some(i) => i,
        None => 0,
    };
    proof {
        reveal_words();
    }
    word(i)
}

} // verus!
