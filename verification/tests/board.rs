use tetris::game::{shape_for_draw, Game, CLEAR_BONUS, FALL_BONUS};
use tetris::shapes::{new_i, new_j, new_l, new_o, new_s, new_t, new_z, Input, Shape, ShapeVariant};
use tetris::utils::{pos, Pos};

fn tiles(cells: &[(i32, i32)]) -> Vec<Pos> {
    cells.iter().map(|&(x, y)| pos(x, y)).collect()
}

fn placed(mut shape: Shape, cells: &[(i32, i32)]) -> Shape {
    shape.tiles = tiles(cells);
    shape
}

fn settled(cells: &[(i32, i32)]) -> Shape {
    let mut shape = placed(new_i(), &[(0, 23), (1, 23), (2, 23), (3, 23)]);
    shape.update_locked_status(&Vec::new());
    placed(shape, cells)
}

fn idle() -> Input {
    Input { left: false, right: false, rotate: false }
}

fn board(locked: Vec<Shape>, falling: Option<Shape>, score: usize, next: Shape) -> Game {
    match Game::from_parts(locked, falling, score, next) {
        Some(game) => game,
        None => panic!("the parts do not form a valid game"),
    }
}

fn settled_tiles(game: &Game) -> Vec<Pos> {
    let mut all = Vec::new();
    for shape in game.locked_shapes() {
        all.extend(shape.tiles.iter().copied());
    }
    all.sort_by_key(|tile| (tile.y, tile.x));
    all
}

fn falling_tiles(game: &Game) -> Option<Vec<Pos>> {
    game.falling_shape().as_ref().map(|shape| shape.tiles.clone())
}

fn is_fresh(shape: &Shape) -> bool {
    [new_i(), new_o(), new_t(), new_s(), new_z(), new_j(), new_l()].iter().any(|fresh| {
        fresh.variant == shape.variant
            && fresh.tiles == shape.tiles
            && fresh.anchor_index() == shape.anchor_index()
            && !shape.locked()
    })
}

fn full_row(y: i32) -> Vec<Shape> {
    vec![
        settled(&[(0, y), (1, y), (2, y), (3, y)]),
        settled(&[(4, y), (5, y), (6, y), (7, y)]),
        settled(&[(8, y), (9, y)]),
    ]
}

#[test]
fn the_bonuses_are_ten_and_a_thousand() {
    assert_eq!(FALL_BONUS, 10);
    assert_eq!(CLEAR_BONUS, 1000);
}

#[test]
fn a_new_game_is_empty() {
    let game = Game::new();
    assert_eq!(game.score(), 0);
    assert!(game.locked_shapes().is_empty());
    assert!(game.falling_shape().is_none());
    assert!(is_fresh(&game.next_shape));
    assert!(game.is_valid());
    assert!(!game.bottom_row_filled());
}

#[test]
fn every_draw_from_zero_to_six_has_its_piece() {
    let expected = [
        ShapeVariant::I,
        ShapeVariant::O,
        ShapeVariant::T,
        ShapeVariant::S,
        ShapeVariant::Z,
        ShapeVariant::J,
        ShapeVariant::L,
    ];
    for (drawn, variant) in expected.iter().enumerate() {
        let shape = shape_for_draw(drawn as i32).expect("a piece for each of the seven draws");
        assert_eq!(shape.variant, *variant);
        assert!(is_fresh(&shape));
    }
    assert_eq!(shape_for_draw(2).map(|s| s.tiles), Some(new_t().tiles));
    assert_eq!(shape_for_draw(6).map(|s| s.tiles), Some(new_l().tiles));
}

#[test]
fn other_draws_have_no_piece() {
    assert!(shape_for_draw(7).is_none());
    assert!(shape_for_draw(-1).is_none());
    assert!(shape_for_draw(100).is_none());
    assert!(shape_for_draw(i32::MAX).is_none());
    assert!(shape_for_draw(i32::MIN).is_none());
}

#[test]
fn spawned_shapes_are_new_pieces_of_changing_variants() {
    let mut seen = Vec::new();
    for _ in 0..400 {
        let shape = Game::spawn_shape();
        assert!(is_fresh(&shape));
        if !seen.contains(&shape.variant) {
            seen.push(shape.variant);
        }
    }
    // a generator that handed back one of its bounds would show one variant
    assert!(seen.len() >= 2);
}

#[test]
fn from_parts_takes_valid_parts() {
    let game = board(full_row(23), Some(placed(new_t(), &[(4, 1), (5, 1), (5, 0), (6, 1)])), 70, new_s());
    assert_eq!(game.score(), 70);
    assert_eq!(game.locked_shapes().len(), 3);
    assert_eq!(falling_tiles(&game), Some(tiles(&[(4, 1), (5, 1), (5, 0), (6, 1)])));
    assert_eq!(game.next_shape.variant, ShapeVariant::S);
    assert_eq!(game.next_shape().tiles, new_s().tiles);
    assert!(game.is_valid());
}

#[test]
fn from_parts_refuses_settled_tiles_off_the_board() {
    assert!(Game::from_parts(vec![settled(&[(0, 24)])], None, 0, new_i()).is_none());
    assert!(Game::from_parts(vec![settled(&[(10, 3)])], None, 0, new_i()).is_none());
    assert!(Game::from_parts(vec![settled(&[(-1, 3)])], None, 0, new_i()).is_none());
    assert!(Game::from_parts(vec![settled(&[(3, 3)]), settled(&[(3, 30)])], None, 0, new_i()).is_none());
    assert!(Game::from_parts(vec![settled(&[(9, 23), (0, -5)])], None, 0, new_i()).is_some());
}

#[test]
fn from_parts_refuses_a_piece_in_play_that_cannot_be_controlled() {
    assert!(Game::from_parts(Vec::new(), Some(new_i()), 0, new_i()).is_none());
    assert!(Game::from_parts(Vec::new(), Some(settled(&[(3, 0), (4, 0), (5, 0), (6, 0)])), 0, new_i()).is_none());
    assert!(Game::from_parts(Vec::new(), Some(placed(new_i(), &[(3, 0)])), 0, new_i()).is_none());
    let mut centred = new_i();
    centred.center_x();
    assert!(Game::from_parts(Vec::new(), Some(centred), 0, new_i()).is_some());
}

#[test]
fn from_parts_refuses_a_next_piece_that_cannot_enter() {
    let mut centred = new_i();
    centred.center_x();
    // moved by five columns once more it would leave the board
    assert!(Game::from_parts(Vec::new(), None, 0, centred).is_none());
    assert!(Game::from_parts(Vec::new(), None, 0, settled(&[(0, 0)])).is_none());
    assert!(Game::from_parts(Vec::new(), None, 0, new_l()).is_some());
}

#[test]
fn a_changed_next_shape_shows_in_is_valid() {
    let mut game = board(Vec::new(), None, 0, new_l());
    assert!(game.is_valid());
    game.next_shape = placed(new_l(), &[(8, 0), (9, 0), (7, 0), (6, 0)]);
    assert!(!game.is_valid());
    game.next_shape = new_o();
    assert!(game.is_valid());
}

#[test]
fn the_next_piece_enters_on_a_gravity_tick() {
    let mut game = board(Vec::new(), None, 0, new_t());
    game.update(&30, &30, 1, &idle());
    // at the spawn column, not yet fallen, and without a fall bonus
    assert_eq!(falling_tiles(&game), Some(tiles(&[(4, 1), (5, 1), (5, 0), (6, 1)])));
    assert_eq!(game.falling_shape().as_ref().map(|s| s.variant), Some(ShapeVariant::T));
    assert_eq!(game.score(), 0);
    assert!(game.locked_shapes().is_empty());
    assert!(is_fresh(&game.next_shape));
    assert!(game.is_valid());
}

#[test]
fn nothing_enters_between_gravity_ticks() {
    let mut game = board(Vec::new(), None, 40, new_t());
    for ticks in [1, 2, 29, 31, 59, -1, -29] {
        game.update(&ticks, &30, 0, &idle());
        assert!(game.falling_shape().is_none());
        assert_eq!(game.score(), 40);
        assert_eq!(game.next_shape.variant, ShapeVariant::T);
        assert_eq!(game.next_shape.tiles, new_t().tiles);
    }
}

#[test]
fn the_piece_in_play_falls_on_a_gravity_tick_and_earns_ten() {
    let piece = placed(new_t(), &[(4, 1), (5, 1), (5, 0), (6, 1)]);
    let mut game = board(Vec::new(), Some(piece), 0, new_i());
    game.update(&60, &30, 1, &idle());
    assert_eq!(falling_tiles(&game), Some(tiles(&[(4, 2), (5, 2), (5, 1), (6, 2)])));
    assert_eq!(game.score(), 10);
    // the next piece waits
    assert_eq!(game.next_shape.variant, ShapeVariant::I);
    assert_eq!(game.next_shape.tiles, new_i().tiles);
}

#[test]
fn the_piece_in_play_rests_between_gravity_ticks() {
    let piece = placed(new_t(), &[(4, 1), (5, 1), (5, 0), (6, 1)]);
    let mut game = board(Vec::new(), Some(piece), 120, new_i());
    for ticks in 1..30 {
        game.update(&ticks, &30, 1, &idle());
        assert_eq!(falling_tiles(&game), Some(tiles(&[(4, 1), (5, 1), (5, 0), (6, 1)])));
        assert_eq!(game.score(), 120);
    }
}

#[test]
fn the_score_grows_by_ten_for_every_gravity_tick_of_a_falling_piece() {
    let piece = placed(new_o(), &[(4, 0), (5, 0), (4, 1), (5, 1)]);
    let mut game = board(Vec::new(), Some(piece), 0, new_i());
    let mut expected = 0;
    for ticks in 1..=100 {
        game.update(&ticks, &5, 1, &idle());
        if ticks % 5 == 0 {
            expected += 10;
        }
        assert_eq!(game.score(), expected);
    }
    assert_eq!(game.score(), 200);
    assert_eq!(falling_tiles(&game), Some(tiles(&[(4, 20), (5, 20), (4, 21), (5, 21)])));
}

#[test]
fn a_fast_interval_makes_the_piece_fall_more_often() {
    let piece = placed(new_o(), &[(4, 0), (5, 0), (4, 1), (5, 1)]);
    let mut slow = board(Vec::new(), Some(piece.clone()), 0, new_i());
    let mut fast = board(Vec::new(), Some(piece), 0, new_i());
    for ticks in 1..=30 {
        slow.update(&ticks, &30, 1, &idle());
        fast.update(&ticks, &5, 1, &idle());
    }
    assert_eq!(slow.score(), 10);
    assert_eq!(fast.score(), 60);
    assert_eq!(falling_tiles(&slow), Some(tiles(&[(4, 1), (5, 1), (4, 2), (5, 2)])));
    assert_eq!(falling_tiles(&fast), Some(tiles(&[(4, 6), (5, 6), (4, 7), (5, 7)])));
}

#[test]
fn a_negative_interval_ticks_on_its_multiples() {
    let piece = placed(new_o(), &[(4, 0), (5, 0), (4, 1), (5, 1)]);
    let mut game = board(Vec::new(), Some(piece), 0, new_i());
    game.update(&10, &-5, 1, &idle());
    assert_eq!(game.score(), 10);
    game.update(&11, &-5, 1, &idle());
    assert_eq!(game.score(), 10);
    game.update(&i32::MIN, &-1, 1, &idle());
    assert_eq!(game.score(), 20);
}

#[test]
fn a_piece_that_enters_onto_settled_tiles_ends_the_game() {
    // the T piece enters at (4, 1), (5, 1), (5, 0), (6, 1)
    let locked = vec![settled(&[(4, 1), (4, 2), (4, 3), (4, 4)]), settled(&[(0, 23), (1, 23)])];
    let mut game = board(locked, None, 730, new_t());
    game.update(&30, &30, 1, &idle());
    assert!(game.locked_shapes().is_empty());
    assert!(game.falling_shape().is_none());
    assert_eq!(game.score(), 0);
    assert!(is_fresh(&game.next_shape));
    assert!(game.is_valid());
}

#[test]
fn a_piece_that_enters_beside_settled_tiles_goes_on() {
    // the T piece enters at (4, 1), (5, 1), (5, 0), (6, 1)
    let locked = vec![settled(&[(4, 0), (6, 0), (3, 1), (7, 1)])];
    let mut game = board(locked, None, 730, new_t());
    game.update(&30, &30, 1, &idle());
    assert_eq!(game.locked_shapes().len(), 1);
    assert_eq!(falling_tiles(&game), Some(tiles(&[(4, 1), (5, 1), (5, 0), (6, 1)])));
    assert_eq!(game.score(), 730);
}

#[test]
fn a_piece_that_enters_on_top_of_a_settled_tile_locks_at_once() {
    let locked = vec![settled(&[(5, 2)])];
    let mut game = board(locked, None, 730, new_t());
    game.update(&30, &30, 1, &idle());
    assert!(game.falling_shape().is_none());
    assert_eq!(game.locked_shapes().len(), 2);
    assert_eq!(settled_tiles(&game), tiles(&[(5, 0), (4, 1), (5, 1), (6, 1), (5, 2)]));
    assert_eq!(game.score(), 730);
}

#[test]
fn after_the_end_the_game_starts_again() {
    let locked = vec![settled(&[(4, 1)])];
    let mut game = board(locked, None, 730, new_t());
    game.update(&30, &30, 1, &idle());
    assert_eq!(game.score(), 0);
    game.update(&60, &30, 1, &idle());
    let entered = game.falling_shape().as_ref().expect("a piece enters on the next gravity tick");
    assert!(entered.tiles.iter().all(|tile| 3 <= tile.x && tile.x <= 6 && 0 <= tile.y && tile.y <= 1));
    assert_eq!(game.score(), 0);
    game.update(&90, &30, 1, &idle());
    assert_eq!(game.score(), 10);
}

#[test]
fn a_piece_locks_when_gravity_brings_it_to_the_last_row() {
    let piece = placed(new_i(), &[(3, 22), (4, 22), (5, 22), (6, 22)]);
    let mut game = board(Vec::new(), Some(piece), 0, new_o());
    // between gravity ticks it hangs in row 22, unlocked
    game.update(&29, &30, 1, &idle());
    assert_eq!(falling_tiles(&game), Some(tiles(&[(3, 22), (4, 22), (5, 22), (6, 22)])));
    assert!(game.locked_shapes().is_empty());
    // the gravity tick brings it to row 23, where it locks
    game.update(&30, &30, 1, &idle());
    assert!(game.falling_shape().is_none());
    assert_eq!(game.locked_shapes().len(), 1);
    assert!(game.locked_shapes()[0].locked());
    assert_eq!(game.locked_shapes()[0].variant, ShapeVariant::I);
    assert_eq!(settled_tiles(&game), tiles(&[(3, 23), (4, 23), (5, 23), (6, 23)]));
    assert_eq!(game.score(), 10);
}

#[test]
fn a_piece_does_not_lock_one_row_above_the_last() {
    let piece = placed(new_i(), &[(3, 21), (4, 21), (5, 21), (6, 21)]);
    let mut game = board(Vec::new(), Some(piece), 0, new_o());
    game.update(&30, &30, 1, &idle());
    assert_eq!(falling_tiles(&game), Some(tiles(&[(3, 22), (4, 22), (5, 22), (6, 22)])));
    assert!(!game.falling_shape().as_ref().map(|s| s.locked()).unwrap_or(true));
    assert!(game.locked_shapes().is_empty());
}

#[test]
fn a_piece_locks_on_a_settled_tile_between_gravity_ticks_too() {
    let piece = placed(new_i(), &[(3, 9), (4, 9), (5, 9), (6, 9)]);
    let mut game = board(vec![settled(&[(5, 10)])], Some(piece), 0, new_o());
    game.update(&7, &30, 1, &idle());
    assert!(game.falling_shape().is_none());
    assert_eq!(game.locked_shapes().len(), 2);
    assert_eq!(settled_tiles(&game), tiles(&[(3, 9), (4, 9), (5, 9), (6, 9), (5, 10)]));
    assert_eq!(game.score(), 0);
}

#[test]
fn a_locked_piece_makes_room_for_the_next_one() {
    let piece = placed(new_i(), &[(3, 22), (4, 22), (5, 22), (6, 22)]);
    let mut game = board(Vec::new(), Some(piece), 0, new_o());
    game.update(&30, &30, 1, &idle());
    assert!(game.falling_shape().is_none());
    game.update(&31, &30, 2, &idle());
    assert!(game.falling_shape().is_none());
    game.update(&60, &30, 3, &idle());
    assert_eq!(falling_tiles(&game), Some(tiles(&[(4, 0), (5, 0), (4, 1), (5, 1)])));
    assert_eq!(game.score(), 10);
}

#[test]
fn the_player_moves_the_piece_on_every_fifth_count() {
    let piece = placed(new_t(), &[(4, 1), (5, 1), (5, 0), (6, 1)]);
    let mut game = board(Vec::new(), Some(piece), 0, new_o());
    let left = Input { left: true, right: false, rotate: false };
    let right = Input { left: false, right: true, rotate: false };
    game.update(&1, &30, 5, &left);
    assert_eq!(falling_tiles(&game), Some(tiles(&[(3, 1), (4, 1), (4, 0), (5, 1)])));
    game.update(&2, &30, 6, &left);
    assert_eq!(falling_tiles(&game), Some(tiles(&[(3, 1), (4, 1), (4, 0), (5, 1)])));
    game.update(&3, &30, 10, &right);
    assert_eq!(falling_tiles(&game), Some(tiles(&[(4, 1), (5, 1), (5, 0), (6, 1)])));
    assert_eq!(game.score(), 0);
}

#[test]
fn the_player_turns_the_piece() {
    let piece = placed(new_t(), &[(4, 1), (5, 1), (5, 0), (6, 1)]);
    let mut game = board(Vec::new(), Some(piece), 0, new_o());
    let turn = Input { left: false, right: false, rotate: true };
    game.update(&1, &30, 1, &turn);
    assert_eq!(falling_tiles(&game), Some(tiles(&[(5, 0), (5, 1), (6, 1), (5, 2)])));
}

#[test]
fn input_comes_after_gravity_and_locking() {
    // the piece falls to row 23 and locks before the player can move it
    let piece = placed(new_i(), &[(3, 22), (4, 22), (5, 22), (6, 22)]);
    let mut game = board(Vec::new(), Some(piece), 0, new_o());
    let left = Input { left: true, right: false, rotate: true };
    game.update(&30, &30, 0, &left);
    assert_eq!(settled_tiles(&game), tiles(&[(3, 23), (4, 23), (5, 23), (6, 23)]));
    // a piece that stays in play falls first and moves then
    let piece = placed(new_i(), &[(3, 2), (4, 2), (5, 2), (6, 2)]);
    let mut game = board(Vec::new(), Some(piece), 0, new_o());
    let left = Input { left: true, right: false, rotate: false };
    game.update(&30, &30, 0, &left);
    assert_eq!(falling_tiles(&game), Some(tiles(&[(2, 3), (3, 3), (4, 3), (5, 3)])));
}

#[test]
fn a_turn_may_reach_below_the_last_row() {
    // the flat I piece in row 22 turns about (4, 22) into rows 21 to 24;
    // on the next update it locks and loses the tile below the screen
    let piece = placed(new_i(), &[(3, 22), (4, 22), (5, 22), (6, 22)]);
    let mut game = board(Vec::new(), Some(piece), 0, new_o());
    let turn = Input { left: false, right: false, rotate: true };
    game.update(&1, &30, 1, &turn);
    assert_eq!(falling_tiles(&game), Some(tiles(&[(4, 21), (4, 22), (4, 23), (4, 24)])));
    assert!(game.is_valid());
    game.update(&2, &30, 2, &idle());
    assert!(game.falling_shape().is_none());
    assert_eq!(settled_tiles(&game), tiles(&[(4, 21), (4, 22), (4, 23)]));
    assert!(game.is_valid());
}

#[test]
fn the_bottom_row_is_filled_when_every_column_is_settled() {
    let game = board(full_row(23), None, 0, new_o());
    assert!(game.bottom_row_filled());
}

#[test]
fn the_bottom_row_is_not_filled_with_a_gap() {
    for gap in 0..10 {
        let cells: Vec<(i32, i32)> = (0..10).filter(|&x| x != gap).map(|x| (x, 23)).collect();
        let game = board(vec![settled(&cells)], None, 0, new_o());
        assert!(!game.bottom_row_filled());
    }
    let game = board(full_row(22), None, 0, new_o());
    assert!(!game.bottom_row_filled());
    let game = board(Vec::new(), None, 0, new_o());
    assert!(!game.bottom_row_filled());
}

#[test]
fn ten_tiles_in_the_bottom_row_do_not_fill_it_if_a_column_is_empty() {
    // column 0 twice, column 9 not at all
    let locked = vec![
        settled(&[(0, 23), (1, 23), (2, 23), (3, 23)]),
        settled(&[(4, 23), (5, 23), (6, 23), (7, 23)]),
        settled(&[(8, 23), (0, 23)]),
    ];
    let game = board(locked, None, 0, new_o());
    assert!(!game.bottom_row_filled());
}

#[test]
fn more_than_ten_tiles_fill_the_bottom_row_too() {
    let mut locked = full_row(23);
    locked.push(settled(&[(0, 23), (5, 23), (5, 22)]));
    let game = board(locked, None, 0, new_o());
    assert!(game.bottom_row_filled());
}

#[test]
fn the_piece_in_play_does_not_count_for_the_bottom_row() {
    let cells: Vec<(i32, i32)> = (0..6).map(|x| (x, 23)).collect();
    let piece = placed(new_i(), &[(6, 23), (7, 23), (8, 23), (9, 23)]);
    let unlocked = board(vec![settled(&cells)], Some(piece), 0, new_o());
    assert!(!unlocked.bottom_row_filled());
}

#[test]
fn a_filled_bottom_row_is_cleared() {
    let mut game = board(full_row(23), None, 50, new_o());
    game.update(&1, &30, 1, &idle());
    assert_eq!(game.score(), 1050);
    // the tiles went to row 24 and were dropped; row 23 is empty again
    assert!(settled_tiles(&game).is_empty());
    assert!(!game.bottom_row_filled());
    // the emptied shapes stay in the list
    assert_eq!(game.locked_shapes().len(), 3);
    assert!(game.is_valid());
    game.update(&2, &30, 2, &idle());
    assert_eq!(game.score(), 1050);
}

#[test]
fn clearing_moves_every_settled_tile_down_by_one_row() {
    let mut locked = full_row(23);
    locked.push(settled(&[(2, 22), (2, 21), (7, 10)]));
    let mut game = board(locked, None, 0, new_o());
    game.update(&1, &30, 1, &idle());
    assert_eq!(game.score(), 1000);
    assert_eq!(settled_tiles(&game), tiles(&[(7, 11), (2, 22), (2, 23)]));
    assert!(!game.bottom_row_filled());
}

#[test]
fn only_the_bottom_row_is_ever_cleared() {
    let mut locked = full_row(22);
    locked.push(settled(&[(0, 23)]));
    let mut game = board(locked, None, 0, new_o());
    game.update(&1, &30, 1, &idle());
    assert_eq!(game.score(), 0);
    assert_eq!(settled_tiles(&game).len(), 11);
}

#[test]
fn two_filled_rows_are_cleared_on_two_updates() {
    let mut locked = full_row(23);
    locked.extend(full_row(22));
    let mut game = board(locked, None, 0, new_o());
    game.update(&1, &30, 1, &idle());
    assert_eq!(game.score(), 1000);
    assert_eq!(settled_tiles(&game).len(), 10);
    assert!(game.bottom_row_filled());
    game.update(&2, &30, 2, &idle());
    assert_eq!(game.score(), 2000);
    assert!(settled_tiles(&game).is_empty());
    game.update(&3, &30, 3, &idle());
    assert_eq!(game.score(), 2000);
}

#[test]
fn a_piece_that_completes_the_bottom_row_earns_both_bonuses_once() {
    let cells: Vec<(i32, i32)> = (0..6).map(|x| (x, 23)).collect();
    let piece = placed(new_i(), &[(6, 22), (7, 22), (8, 22), (9, 22)]);
    let mut game = board(vec![settled(&cells)], Some(piece), 300, new_o());
    game.update(&30, &30, 1, &idle());
    assert_eq!(game.score(), 300 + 10 + 1000);
    assert!(game.falling_shape().is_none());
    assert!(settled_tiles(&game).is_empty());
}

#[test]
fn falling_and_clearing_on_one_update_add_up() {
    let piece = placed(new_o(), &[(4, 0), (5, 0), (4, 1), (5, 1)]);
    let mut game = board(full_row(23), Some(piece), 0, new_i());
    game.update(&30, &30, 1, &idle());
    assert_eq!(game.score(), 1010);
    assert_eq!(falling_tiles(&game), Some(tiles(&[(4, 1), (5, 1), (4, 2), (5, 2)])));
    game.update(&31, &30, 2, &idle());
    assert_eq!(game.score(), 1010);
}

#[test]
fn reset_empties_the_board_and_keeps_the_next_shape() {
    let piece = placed(new_o(), &[(4, 0), (5, 0), (4, 1), (5, 1)]);
    let mut game = board(full_row(23), Some(piece), 990, new_j());
    game.reset();
    assert!(game.locked_shapes().is_empty());
    assert!(game.falling_shape().is_none());
    assert_eq!(game.score(), 0);
    assert_eq!(game.next_shape.variant, ShapeVariant::J);
    assert_eq!(game.next_shape.tiles, new_j().tiles);
}

#[test]
fn spawn_next_takes_the_piece_it_is_given_as_the_next_one() {
    let mut game = board(Vec::new(), None, 5, new_s());
    game.spawn_next(new_z());
    assert_eq!(falling_tiles(&game), Some(tiles(&[(4, 1), (5, 1), (5, 0), (6, 0)])));
    assert_eq!(game.falling_shape().as_ref().map(|s| s.variant), Some(ShapeVariant::S));
    assert_eq!(game.next_shape.variant, ShapeVariant::Z);
    assert_eq!(game.next_shape.tiles, new_z().tiles);
    assert_eq!(game.score(), 5);
}

#[test]
fn spawn_next_starts_over_on_a_collision() {
    let mut game = board(vec![settled(&[(6, 0)])], None, 5, new_s());
    game.spawn_next(new_z());
    assert!(game.falling_shape().is_none());
    assert!(game.locked_shapes().is_empty());
    assert_eq!(game.score(), 0);
    assert_eq!(game.next_shape.variant, ShapeVariant::Z);
}

#[test]
fn descend_drops_the_piece_and_adds_ten() {
    let piece = placed(new_o(), &[(4, 0), (5, 0), (4, 1), (5, 1)]);
    let mut game = board(Vec::new(), Some(piece), 5, new_i());
    game.descend();
    assert_eq!(falling_tiles(&game), Some(tiles(&[(4, 1), (5, 1), (4, 2), (5, 2)])));
    assert_eq!(game.score(), 15);
    let mut empty = board(Vec::new(), None, 5, new_i());
    empty.descend();
    assert_eq!(empty.score(), 5);
    assert!(empty.falling_shape().is_none());
}

#[test]
fn lock_falling_hands_a_locked_piece_over() {
    let piece = placed(new_o(), &[(4, 22), (5, 22), (4, 23), (5, 23)]);
    let mut game = board(vec![settled(&[(0, 23)])], Some(piece), 5, new_i());
    game.lock_falling();
    assert!(game.falling_shape().is_none());
    assert_eq!(game.locked_shapes().len(), 2);
    assert_eq!(game.locked_shapes()[1].tiles, tiles(&[(4, 22), (5, 22), (4, 23), (5, 23)]));
    assert!(game.locked_shapes()[1].locked());
    assert_eq!(game.score(), 5);
    let piece = placed(new_o(), &[(4, 2), (5, 2), (4, 3), (5, 3)]);
    let mut game = board(vec![settled(&[(0, 23)])], Some(piece), 5, new_i());
    game.lock_falling();
    assert_eq!(falling_tiles(&game), Some(tiles(&[(4, 2), (5, 2), (4, 3), (5, 3)])));
    assert_eq!(game.locked_shapes().len(), 1);
}

#[test]
fn steer_applies_the_input_to_the_piece_in_play() {
    let piece = placed(new_i(), &[(3, 5), (4, 5), (5, 5), (6, 5)]);
    let mut game = board(vec![settled(&[(7, 5)])], Some(piece), 5, new_i());
    game.steer(0, &Input { left: false, right: true, rotate: false });
    assert_eq!(falling_tiles(&game), Some(tiles(&[(3, 5), (4, 5), (5, 5), (6, 5)])));
    game.steer(0, &Input { left: true, right: false, rotate: false });
    assert_eq!(falling_tiles(&game), Some(tiles(&[(2, 5), (3, 5), (4, 5), (5, 5)])));
    game.steer(1, &Input { left: true, right: false, rotate: true });
    assert_eq!(falling_tiles(&game), Some(tiles(&[(3, 4), (3, 5), (3, 6), (3, 7)])));
    let mut empty = game_without_piece();
    empty.steer(0, &Input { left: true, right: true, rotate: true });
    assert!(empty.falling_shape().is_none());
}

fn game_without_piece() -> Game {
    board(vec![settled(&[(7, 5)])], None, 5, new_i())
}

#[test]
fn clear_bottom_row_leaves_an_unfilled_row_alone() {
    let mut game = board(vec![settled(&[(0, 23), (1, 23), (5, 5)])], None, 5, new_i());
    game.clear_bottom_row();
    assert_eq!(game.score(), 5);
    assert_eq!(settled_tiles(&game), tiles(&[(5, 5), (0, 23), (1, 23)]));
}

#[test]
fn clear_bottom_row_shifts_and_prune_drops() {
    let mut locked = full_row(23);
    locked.push(settled(&[(3, 22)]));
    let mut game = board(locked, None, 5, new_i());
    game.clear_bottom_row();
    assert_eq!(game.score(), 1005);
    assert_eq!(settled_tiles(&game).len(), 11);
    assert!(settled_tiles(&game).iter().all(|tile| tile.y == 24 || *tile == pos(3, 23)));
    game.prune();
    assert_eq!(settled_tiles(&game), tiles(&[(3, 23)]));
    assert_eq!(game.score(), 1005);
}

#[test]
fn landing_prediction_follows_the_piece_in_play() {
    let piece = placed(new_i(), &[(3, 2), (4, 2), (5, 2), (6, 2)]);
    let game = board(vec![settled(&[(4, 20), (5, 23)])], Some(piece), 0, new_i());
    assert_eq!(game.landing_prediction(), tiles(&[(3, 23), (4, 19), (5, 22), (6, 23)]));
    let empty = game_without_piece();
    assert!(empty.landing_prediction().is_empty());
}

#[test]
fn a_long_game_stays_valid() {
    let mut game = Game::new();
    let mut total: usize = 0;
    let mut starts = 0;
    let mut ticks = 1;
    let mut move_count = 0;
    for frame in 0..12000 {
        let input = Input {
            left: frame % 7 == 0,
            right: frame % 11 == 0,
            rotate: frame % 13 == 0,
        };
        let interval = if frame % 50 < 25 { 5 } else { 30 };
        let before = game.score();
        let had_piece = game.falling_shape().is_some();
        game.update(&ticks, &interval, move_count, &input);
        assert!(game.is_valid());
        let after = game.score();
        if after < before || (after == 0 && before == 0 && !had_piece && game.falling_shape().is_none() && ticks % interval == 0) {
            starts += 1;
            total = 0;
            assert_eq!(after, 0);
            assert!(game.locked_shapes().is_empty());
        } else {
            let gained = after - before;
            assert!(gained == 0 || gained == 10 || gained == 1000 || gained == 1010);
            if gained == 10 || gained == 1010 {
                assert!(had_piece && ticks % interval == 0);
            }
            if had_piece && ticks % interval == 0 {
                assert!(gained == 10 || gained == 1010);
            }
            total += gained;
        }
        assert_eq!(after, total);
        for shape in game.locked_shapes() {
            for tile in &shape.tiles {
                assert!(0 <= tile.x && tile.x < 10 && tile.y < 24);
            }
        }
        if let Some(shape) = game.falling_shape() {
            assert_eq!(shape.tiles.len(), 4);
            assert!(!shape.locked());
            assert!(shape.tiles.iter().all(|tile| 0 <= tile.x && tile.x < 10));
        }
        assert!(is_fresh(&game.next_shape));
        ticks += 1;
        move_count += 1;
    }
    // pieces pile up at the spawn column until one cannot enter
    assert!(starts >= 1);
}
