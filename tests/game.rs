use snake_pixels::canvas::Canvas;
use snake_pixels::color::{BG_COLOR, FOOD_COLOR, HEAD_COLOR, TAIL_COLOR};
use snake_pixels::game::{handle_keypress, Key, State};
use snake_pixels::vec2::Vec2;

fn board(head: Vec2, tail: Vec<Vec2>, v: Vec2, food: Vec<Vec2>) -> State {
    State {
        tick: 400,
        food_tick: 1500,
        next_update: 400,
        next_food: 1500,
        fps_update: 0,
        width: 15,
        height: 15,
        v,
        head,
        tail,
        food,
    }
}

#[test]
fn new_state_opening_position() {
    let s = State::new(1000);
    assert_eq!(s.head, Vec2(8, 7));
    assert_eq!(s.tail, vec![Vec2(7, 7), Vec2(6, 7)]);
    assert_eq!(s.v, Vec2(1, 0));
    assert_eq!((s.width, s.height), (15, 15));
    assert_eq!(s.next_update, 1400);
    assert_eq!(s.next_food, 2500);
    assert_eq!(s.fps_update, 1000);
    assert!(s.food.is_empty());
}

#[test]
fn new_state_deadlines_saturate() {
    let s = State::new(u64::MAX - 100);
    assert_eq!(s.next_update, u64::MAX);
    assert_eq!(s.next_food, u64::MAX);
}

#[test]
fn step_from_opening_position() {
    let mut s = State::new(0);
    assert!(!s.step());
    assert_eq!(s.head, Vec2(9, 7));
    assert_eq!(s.tail, vec![Vec2(8, 7), Vec2(7, 7)]);
}

#[test]
fn step_off_right_edge_ends_game() {
    let mut s = board(Vec2(14, 7), vec![Vec2(13, 7), Vec2(12, 7)], Vec2(1, 0), vec![]);
    assert!(s.step());
    assert_eq!(s.head, Vec2(14, 7));
    assert_eq!(s.tail, vec![Vec2(13, 7), Vec2(12, 7)]);
}

#[test]
fn step_off_bottom_edge_ends_game() {
    let mut s = board(Vec2(3, 0), vec![Vec2(3, 1)], Vec2(0, -1), vec![]);
    assert!(s.step());
    assert_eq!(s.head, Vec2(3, 0));
    assert_eq!(s.tail, vec![Vec2(3, 1)]);
}

#[test]
fn reversal_runs_into_tail() {
    let mut s = State::new(0);
    s.on_keypress(Key::Left);
    assert_eq!(s.v, Vec2(-1, 0));
    assert!(s.step());
    assert_eq!(s.head, Vec2(8, 7));
    assert_eq!(s.tail, vec![Vec2(7, 7), Vec2(6, 7)]);
}

#[test]
fn moving_into_vacated_last_cell_is_allowed() {
    let tail = vec![Vec2(5, 4), Vec2(4, 4), Vec2(4, 5)];
    let mut s = board(Vec2(5, 5), tail, Vec2(-1, 0), vec![]);
    assert!(!s.step());
    assert_eq!(s.head, Vec2(4, 5));
    assert_eq!(s.tail, vec![Vec2(5, 5), Vec2(5, 4), Vec2(4, 4)]);
}

#[test]
fn moving_into_middle_tail_cell_ends_game() {
    let tail = vec![Vec2(5, 4), Vec2(4, 4), Vec2(4, 5), Vec2(3, 5)];
    let mut s = board(Vec2(5, 5), tail.clone(), Vec2(-1, 0), vec![]);
    assert!(s.step());
    assert_eq!(s.head, Vec2(5, 5));
    assert_eq!(s.tail, tail);
}

#[test]
fn eating_grows_tail_and_removes_food() {
    let food = vec![Vec2(1, 1), Vec2(9, 7), Vec2(2, 2)];
    let mut s = board(Vec2(8, 7), vec![Vec2(7, 7), Vec2(6, 7)], Vec2(1, 0), food);
    assert!(!s.step());
    assert_eq!(s.head, Vec2(9, 7));
    assert_eq!(s.tail, vec![Vec2(8, 7), Vec2(7, 7), Vec2(6, 7)]);
    assert_eq!(s.food, vec![Vec2(1, 1), Vec2(2, 2)]);
}

#[test]
fn saturated_board_gets_no_food() {
    let mut s = board(Vec2(0, 0), vec![Vec2(1, 0), Vec2(1, 1)], Vec2(0, 1), vec![]);
    s.width = 2;
    s.height = 2;
    assert!(s.add_food());
    assert!(s.food.is_empty());
}

#[test]
fn saturation_counts_food_too() {
    let mut s = board(Vec2(0, 0), vec![Vec2(1, 0)], Vec2(0, 1), vec![Vec2(1, 1)]);
    s.width = 2;
    s.height = 2;
    assert!(s.add_food());
    assert_eq!(s.food, vec![Vec2(1, 1)]);
}

#[test]
fn food_goes_on_a_free_cell() {
    let mut s = State::new(0);
    for n in 1..=20usize {
        assert!(!s.add_food());
        assert_eq!(s.food.len(), n);
        let p = s.food[n - 1];
        assert!(p.0 >= 0 && p.0 < 15 && p.1 >= 0 && p.1 < 15);
        assert_ne!(p, s.head);
        assert!(!s.tail.contains(&p));
        assert!(!s.food[..n - 1].contains(&p));
    }
}

#[test]
fn food_on_nearly_full_board_takes_last_free_cells() {
    // a 3 by 2 grid with one free cell left over the guard
    let mut s = board(Vec2(0, 0), vec![Vec2(1, 0), Vec2(2, 0)], Vec2(0, 1), vec![]);
    s.width = 3;
    s.height = 2;
    assert!(!s.add_food());
    let p = s.food[0];
    assert!(p == Vec2(0, 1) || p == Vec2(1, 1) || p == Vec2(2, 1));
}

#[test]
fn update_before_deadlines_places_first_food() {
    let mut s = State::new(0);
    assert!(!s.update(100));
    assert_eq!(s.head, Vec2(8, 7));
    assert_eq!(s.food.len(), 1);
    assert_eq!(s.next_food, 1600);
    assert_eq!(s.next_update, 400);
}

#[test]
fn update_after_deadline_steps_once() {
    let mut s = State::new(0);
    assert!(!s.update(401));
    assert_eq!(s.head, Vec2(9, 7));
    assert_eq!(s.next_update, 801);
    assert_eq!(s.food.len(), 1);
    // the food deadline has not passed and food is present
    assert!(!s.update(500));
    assert_eq!(s.food.len(), 1);
    assert_eq!(s.head, Vec2(9, 7));
}

#[test]
fn update_stops_on_collision() {
    let mut s = board(Vec2(14, 7), vec![Vec2(13, 7)], Vec2(1, 0), vec![Vec2(0, 0)]);
    assert!(s.update(401));
    assert_eq!(s.head, Vec2(14, 7));
    assert_eq!(s.next_update, 400);
}

#[test]
fn update_stops_on_saturation() {
    let mut s = board(Vec2(0, 0), vec![Vec2(1, 0), Vec2(1, 1)], Vec2(0, 1), vec![]);
    s.width = 2;
    s.height = 2;
    assert!(s.update(0));
    assert!(s.food.is_empty());
}

#[test]
fn keys_set_direction() {
    let mut s = State::new(0);
    s.on_keypress(Key::Up);
    assert_eq!(s.v, Vec2(0, 1));
    s.on_keypress(Key::Down);
    assert_eq!(s.v, Vec2(0, -1));
    s.on_keypress(Key::Right);
    assert_eq!(s.v, Vec2(1, 0));
    s.on_keypress(Key::Other);
    assert_eq!(s.v, Vec2(1, 0));
}

#[test]
fn escape_exits_and_other_keys_do_not() {
    let mut s = State::new(0);
    assert!(handle_keypress(Key::Escape, &mut s));
    assert_eq!(s.v, Vec2(1, 0));
    assert!(!handle_keypress(Key::Up, &mut s));
    assert_eq!(s.v, Vec2(0, 1));
}

#[test]
fn render_draws_each_cell_kind() {
    let mut s = board(Vec2(8, 7), vec![Vec2(7, 7), Vec2(6, 7)], Vec2(1, 0), vec![Vec2(0, 0)]);
    let mut c = Canvas::new(15, 15);
    let at = |x: usize, y: usize| 15 * (15 - y - 1) + x;
    let report = s.render(&mut c, 10);
    assert_eq!(report, Some(0));
    assert_eq!(s.fps_update, 1010);
    assert_eq!(c.pixels[at(8, 7)], HEAD_COLOR);
    assert_eq!(c.pixels[at(7, 7)], TAIL_COLOR);
    assert_eq!(c.pixels[at(6, 7)], TAIL_COLOR);
    assert_eq!(c.pixels[at(0, 0)], FOOD_COLOR);
    assert_eq!(c.pixels[at(14, 14)], BG_COLOR);
    assert_eq!(c.pixels[at(0, 0)], c.pixels[15 * 14]);
    assert_eq!(c.pixels.iter().filter(|p| **p == BG_COLOR).count(), 225 - 4);
    // the next report is not due before a second has passed
    c.update_fps(20);
    assert_eq!(s.render(&mut c, 500), None);
    assert_eq!(s.render(&mut c, 1011), Some(1));
}
