use tetris::utils::{is_multiple_of, pos, rotate_around, Pos, BOARD_HEIGHT, BOARD_WIDTH};

#[test]
fn board_is_ten_by_twenty_four() {
    assert_eq!(BOARD_WIDTH, 10);
    assert_eq!(BOARD_HEIGHT, 24);
}

#[test]
fn new_and_pos_build_the_same_position() {
    let a = Pos::new(3, -7);
    let b = pos(3, -7);
    assert_eq!(a, b);
    assert_eq!(a.x, 3);
    assert_eq!(a.y, -7);
}

#[test]
fn add_is_component_wise() {
    assert_eq!(pos(2, 5).add(pos(-3, 11)), pos(-1, 16));
    assert_eq!(pos(0, 0).add(pos(7, -7)), pos(7, -7));
    assert_eq!(pos(i32::MAX - 1, i32::MIN + 1).add(pos(1, -1)), pos(i32::MAX, i32::MIN));
}

#[test]
fn sub_is_component_wise() {
    assert_eq!(pos(2, 5).sub(pos(-3, 11)), pos(5, -6));
    assert_eq!(pos(4, 4).sub(pos(4, 4)), pos(0, 0));
}

#[test]
fn mul_is_component_wise() {
    assert_eq!(pos(2, 5).mul(pos(-3, 11)), pos(-6, 55));
    assert_eq!(pos(9, -9).mul(pos(0, 1)), pos(0, -9));
}

#[test]
fn quarter_turn_sends_offset_x_y_to_minus_y_x() {
    // offset (1, 0) from the anchor becomes (0, 1)
    assert_eq!(rotate_around(pos(4, 3), pos(3, 3)), pos(3, 4));
    // offset (0, 1) becomes (-1, 0)
    assert_eq!(rotate_around(pos(3, 4), pos(3, 3)), pos(2, 3));
    // offset (-1, 0) becomes (0, -1)
    assert_eq!(rotate_around(pos(2, 3), pos(3, 3)), pos(3, 2));
    // offset (0, -1) becomes (1, 0)
    assert_eq!(rotate_around(pos(3, 2), pos(3, 3)), pos(4, 3));
    // offset (2, -3) becomes (3, 2)
    assert_eq!(rotate_around(pos(7, 2), pos(5, 5)), pos(8, 7));
}

#[test]
fn quarter_turn_about_the_origin() {
    assert_eq!(rotate_around(pos(1, 2), pos(0, 0)), pos(-2, 1));
    assert_eq!(rotate_around(pos(-4, 0), pos(0, 0)), pos(0, -4));
}

#[test]
fn quarter_turn_leaves_the_anchor_in_place() {
    assert_eq!(rotate_around(pos(5, 9), pos(5, 9)), pos(5, 9));
    assert_eq!(rotate_around(pos(-2, 0), pos(-2, 0)), pos(-2, 0));
}

#[test]
fn four_quarter_turns_return_to_the_start() {
    let anchors = [pos(0, 0), pos(3, 3), pos(-5, 7), pos(9, 23)];
    let points = [pos(0, 0), pos(1, 0), pos(4, -2), pos(-7, 12), pos(9, 23), pos(100, -100)];
    for anchor in anchors {
        for point in points {
            let once = rotate_around(point, anchor);
            let twice = rotate_around(once, anchor);
            let thrice = rotate_around(twice, anchor);
            let back = rotate_around(thrice, anchor);
            assert_eq!(back, point);
        }
    }
}

#[test]
fn two_quarter_turns_mirror_through_the_anchor() {
    let anchor = pos(3, 3);
    let point = pos(5, 4);
    let twice = rotate_around(rotate_around(point, anchor), anchor);
    assert_eq!(twice, pos(1, 2));
}

#[test]
fn quarter_turn_near_the_ends_of_the_range() {
    // the result is representable although the differences are large
    assert_eq!(rotate_around(pos(i32::MAX, 0), pos(i32::MAX, 0)), pos(i32::MAX, 0));
    assert_eq!(rotate_around(pos(i32::MAX - 1, 5), pos(i32::MAX, 5)), pos(i32::MAX, 4));
    assert_eq!(rotate_around(pos(0, i32::MIN + 1), pos(0, i32::MIN)), pos(-1, i32::MIN));
}

#[test]
fn multiples_of_a_positive_step() {
    assert!(is_multiple_of(0, 30));
    assert!(is_multiple_of(30, 30));
    assert!(is_multiple_of(60, 30));
    assert!(!is_multiple_of(1, 30));
    assert!(!is_multiple_of(29, 30));
    assert!(!is_multiple_of(31, 30));
    assert!(is_multiple_of(5, 5));
    assert!(is_multiple_of(17, 1));
}

#[test]
fn multiples_with_negative_numbers() {
    assert!(is_multiple_of(-10, 5));
    assert!(is_multiple_of(10, -5));
    assert!(is_multiple_of(-10, -5));
    assert!(!is_multiple_of(-11, 5));
    assert!(!is_multiple_of(11, -5));
    assert!(is_multiple_of(i32::MIN, -1));
    assert!(is_multiple_of(i32::MIN, 1));
    assert!(is_multiple_of(i32::MIN, i32::MIN));
    assert!(!is_multiple_of(i32::MAX, i32::MIN));
    assert!(is_multiple_of(i32::MIN, 2));
    assert!(!is_multiple_of(i32::MAX, 2));
}
