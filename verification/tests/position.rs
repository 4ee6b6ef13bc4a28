use std::cmp::Ordering;
use typetris::game::block::bounding_box::{MixAdd, Offset};
use typetris::game::board::BoardPosition;

#[test]
fn lower_rows_come_first() {
    let bottom = BoardPosition::new(5, 9);
    let top = BoardPosition::new(0, 2);
    assert_eq!(bottom.cmp(&top), Ordering::Less);
    assert_eq!(top.cmp(&bottom), Ordering::Greater);
    assert!(bottom < top);
    assert!(top > bottom);
}

#[test]
fn within_a_row_left_comes_first() {
    let left = BoardPosition::new(1, 4);
    let right = BoardPosition::new(2, 4);
    assert_eq!(left.cmp(&right), Ordering::Less);
    assert_eq!(right.cmp(&left), Ordering::Greater);
    assert_eq!(left.cmp(&left), Ordering::Equal);
    assert_eq!(left.partial_cmp(&right), Some(Ordering::Less));
    assert!(left <= left);
    assert!(left < right);
}

#[test]
fn order_is_total_on_a_grid() {
    let mut all = Vec::new();
    for y in 0..6u8 {
        for x in 0..6u8 {
            all.push(BoardPosition::new(x, y));
        }
    }
    for a in &all {
        for b in &all {
            let ab = a.cmp(b);
            let ba = b.cmp(a);
            assert_eq!(ab, ba.reverse());
            assert_eq!(ab == Ordering::Equal, a == b);
            for c in &all {
                if ab == Ordering::Less && b.cmp(c) == Ordering::Less {
                    assert_eq!(a.cmp(c), Ordering::Less);
                }
            }
        }
    }
}

#[test]
fn default_is_the_origin() {
    assert_eq!(BoardPosition::default(), BoardPosition::new(0, 0));
    assert_eq!(BoardPosition::new(3, 4), BoardPosition { x: 3, y: 4 });
}

#[test]
fn positions_shift_saturating() {
    assert_eq!(BoardPosition::new(3, 4).mix_add(Offset::new(0, 1)), BoardPosition::new(3, 5));
    assert_eq!(BoardPosition::new(3, 4).mix_add(Offset::new(-4, -4)), BoardPosition::new(0, 0));
    let mut p = BoardPosition::new(250, 250);
    p.mix_add_assign(Offset::new(10, 5));
    assert_eq!(p, BoardPosition::new(255, 255));
}
