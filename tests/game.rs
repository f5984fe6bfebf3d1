use terminal_tetris::board::Board;
use terminal_tetris::game_controller::GameController;
use terminal_tetris::point::{Color, Point};
use terminal_tetris::tet::Tet;

fn fill_row(gc: &mut GameController, y: i16) {
    for x in 0..10 {
        gc.occupied.push(Point::new(x, y));
    }
}

fn cells(t: &Tet) -> Vec<(i16, i16)> {
    t.points_pos().iter().map(|p| (p.x, p.y)).collect()
}

#[test]
fn board_new_is_ten_by_twenty() {
    let b = Board::new();
    assert_eq!(b.get_width(), 10);
    assert_eq!(b.get_height(), 20);
    assert_eq!(b.get_offset_x(), 5);
    assert_eq!(b.get_offset_y(), 2);
}

#[test]
fn point_constructors_and_width() {
    let p = Point::new(3, -4);
    assert_eq!((p.x, p.y, p.color), (3, -4, Color::White));
    let q = Point::new_with_color(7, 1, Color::Cyan);
    assert_eq!(q.color, Color::Cyan);
    assert_eq!(q.x_width(), 14);
}

#[test]
fn new_game_starts_at_level_one() {
    let gc = GameController::new();
    assert!(gc.occupied.is_empty());
    assert_eq!(gc.current_score(), 0);
    assert_eq!(gc.level, 1);
    assert_eq!(gc.fall_ms, 750);
}

#[test]
fn clear_without_full_rows_changes_nothing() {
    let mut gc = GameController::new();
    gc.occupied.push(Point::new(0, 19));
    gc.occupied.push(Point::new(4, 10));
    for x in 0..9 {
        gc.occupied.push(Point::new(x, 18));
    }
    let before = gc.occupied.clone();
    assert_eq!(gc.clear_full_rows(), 0);
    assert_eq!(gc.occupied, before);
}

#[test]
fn clear_bottom_row() {
    let mut gc = GameController::new();
    fill_row(&mut gc, 19);
    assert_eq!(gc.clear_full_rows(), 1);
    assert!(gc.occupied.iter().all(|p| p.y != 19));
    assert!(gc.occupied.is_empty());
}

#[test]
fn clear_moves_cell_above_down_by_one() {
    let mut gc = GameController::new();
    fill_row(&mut gc, 5);
    gc.occupied.push(Point::new_with_color(3, 2, Color::Red));
    gc.occupied.push(Point::new(6, 9));
    assert_eq!(gc.clear_full_rows(), 1);
    assert_eq!(gc.occupied.len(), 2);
    assert_eq!(gc.occupied[0], Point::new_with_color(3, 3, Color::Red));
    assert_eq!(gc.occupied[1], Point::new(6, 9));
}

#[test]
fn clear_two_rows_with_gap() {
    let mut gc = GameController::new();
    fill_row(&mut gc, 19);
    gc.occupied.push(Point::new(1, 18));
    fill_row(&mut gc, 17);
    gc.occupied.push(Point::new(2, 16));
    assert_eq!(gc.clear_full_rows(), 2);
    let mut rest: Vec<(i16, i16)> = gc.occupied.iter().map(|p| (p.x, p.y)).collect();
    rest.sort();
    assert_eq!(rest, vec![(1, 19), (2, 18)]);
}

#[test]
fn score_after_lock_without_clear_is_three() {
    let mut gc = GameController::new();
    gc.place_tet();
    assert_eq!(gc.current_score(), 3);
    assert_eq!(gc.level, 1);
    assert_eq!(gc.fall_ms, 750);
}

#[test]
fn score_after_two_rows_is_twenty_seven() {
    let mut gc = GameController::new();
    gc.score = 10;
    fill_row(&mut gc, 19);
    fill_row(&mut gc, 18);
    gc.place_tet();
    assert_eq!(gc.current_score(), 37);
    assert!(gc.occupied.is_empty());
}

#[test]
fn score_saturates_at_max() {
    let mut gc = GameController::new();
    gc.score = u32::MAX - 1;
    gc.place_tet();
    assert_eq!(gc.current_score(), u32::MAX);
}

#[test]
fn level_two_after_crossing_150() {
    let mut gc = GameController::new();
    gc.score = 147;
    gc.place_tet();
    assert_eq!(gc.current_score(), 150);
    assert_eq!(gc.level, 1);
    assert_eq!(gc.fall_ms, 750);
    gc.place_tet();
    assert_eq!(gc.current_score(), 153);
    assert_eq!(gc.level, 2);
    assert_eq!(gc.fall_ms, 625);
}

#[test]
fn fall_interval_at_level_six() {
    let mut gc = GameController::new();
    gc.score = 748;
    gc.place_tet();
    assert_eq!(gc.level, 6);
    // 750 / (1 + 5 / 5)
    assert_eq!(gc.fall_ms, 375);
}

#[test]
fn collision_rules() {
    let mut gc = GameController::new();
    gc.occupied.push(Point::new(5, 5));
    let pts = [Point::new(0, 0), Point::new(1, 0), Point::new(2, 0), Point::new(3, 0)];
    assert!(!gc.collision_check(pts, 0, 0));
    assert!(gc.collision_check(pts, -1, 0));
    assert!(gc.collision_check(pts, 7, 0));
    assert!(!gc.collision_check(pts, 6, 0));
    assert!(gc.collision_check(pts, 0, 20));
    assert!(!gc.collision_check(pts, 0, -30));
    assert!(gc.collision_check(pts, 2, 5));
}

#[test]
fn fresh_pieces_cannot_lock() {
    for k in 0..7u8 {
        let t = Tet::from_index(k);
        assert!(cells(&t).iter().all(|c| c.1 < 0));
        let mut occ = vec![Point::new(0, 19)];
        assert!(!t.place(&mut occ));
        assert_eq!(occ, vec![Point::new(0, 19)]);
    }
}

#[test]
fn templates_spawn_where_expected() {
    let i = Tet::from_index(0);
    assert_eq!(cells(&i), vec![(4, -4), (4, -3), (4, -2), (4, -1)]);
    let t = Tet::from_index(3);
    assert_eq!(cells(&t), vec![(3, -2), (4, -2), (4, -1), (5, -2)]);
    let z = Tet::from_index(200);
    assert_eq!(z.color, Color::DarkYellow);
}

#[test]
fn random_piece_is_a_template() {
    for _ in 0..50 {
        let t = Tet::new_random();
        let found = (0..7u8).any(|k| {
            let s = Tet::from_index(k);
            s.color == t.color && s.model == t.model && s.pos == t.pos
        });
        assert!(found);
    }
}

#[test]
fn translate_left_then_right_round_trips() {
    let gc = GameController::new();
    let mut t = Tet::from_index(1);
    let start = t.pos;
    assert!(t.translate(-2, 0, &gc));
    assert_eq!(t.pos.x, start.x - 2);
    assert!(t.translate(2, 0, &gc));
    assert_eq!(t.pos, start);
}

#[test]
fn placed_piece_is_not_blocked_where_it_stands() {
    let mut gc = GameController::new();
    fill_row(&mut gc, 19);
    let mut t = Tet::from_index(5);
    while t.translate(0, 1, &gc) {}
    assert!(!gc.collision_check(t.points_pos(), 0, 0));
    assert!(gc.collision_check(t.points_pos(), 0, 1));
}

#[test]
fn translate_blocked_by_wall_changes_nothing() {
    let gc = GameController::new();
    let mut t = Tet::from_index(0);
    for _ in 0..4 {
        assert!(t.translate(-1, 0, &gc));
    }
    let before = t.pos;
    assert!(!t.translate(-1, 0, &gc));
    assert_eq!(t.pos, before);
}

#[test]
fn o_piece_never_rotates() {
    let gc = GameController::new();
    let mut t = Tet::from_index(4);
    let model = t.model;
    assert!(!t.rotate(&gc));
    assert_eq!(t.model, model);
    assert_eq!(t.pos, Tet::from_index(4).pos);
}

#[test]
fn four_rotations_restore_l_j_t() {
    let gc = GameController::new();
    for k in 1..4u8 {
        let mut t = Tet::from_index(k);
        t.translate(0, 8, &gc);
        let model = t.model;
        let pivot = t.pivot;
        for step in 0..4 {
            assert!(t.rotate(&gc));
            assert_eq!(t.flips, if step == 3 { 0 } else { step + 1 });
        }
        assert_eq!(t.model, model);
        assert_eq!(t.pivot, pivot);
    }
}

#[test]
fn two_rotations_restore_i() {
    let gc = GameController::new();
    let mut t = Tet::from_index(0);
    t.translate(0, 8, &gc);
    let before = cells(&t);
    assert!(t.rotate(&gc));
    assert_ne!(cells(&t), before);
    assert!(t.rotate(&gc));
    assert_eq!(cells(&t), before);
}

#[test]
fn rotation_turns_counter_clockwise_first() {
    let gc = GameController::new();
    let mut t = Tet::from_index(1);
    t.translate(0, 8, &gc);
    assert!(t.rotate(&gc));
    // (x, y) -> (-y, x)
    let m: Vec<(i16, i16)> = t.model.iter().map(|p| (p.x, p.y)).collect();
    assert_eq!(m, vec![(0, 0), (-1, 0), (-2, 0), (-2, 1)]);
    assert_eq!((t.pivot.x, t.pivot.y), (-1, 0));
}

#[test]
fn rotation_kicks_away_from_wall() {
    let gc = GameController::new();
    let mut t = Tet::from_index(0);
    t.translate(0, 8, &gc);
    for _ in 0..4 {
        t.translate(-1, 0, &gc);
    }
    // vertical I in column 0; turning it would put cells left of the wall
    assert_eq!(cells(&t)[0].0, 0);
    assert!(t.rotate(&gc));
    let c = cells(&t);
    assert!(c.iter().all(|p| p.0 >= 0 && p.0 < 10));
    assert_eq!(c.iter().map(|p| p.0).min(), Some(0));
}

#[test]
fn rotation_without_room_is_refused() {
    let mut gc = GameController::new();
    let mut t = Tet::from_index(0);
    t.translate(0, 12, &gc);
    // wall in every cell around the vertical I except its own column
    for y in 0..20 {
        for x in 0..10 {
            if x != 4 {
                gc.occupied.push(Point::new(x, y));
            }
        }
    }
    let before = t;
    assert!(!t.rotate(&gc));
    assert_eq!(t.model, before.model);
    assert_eq!(t.pos, before.pos);
    assert_eq!(t.flips, before.flips);
}

#[test]
fn move_down_falls_locks_and_respawns() {
    let mut gc = GameController::new();
    let mut t = Tet::from_index(4);
    let mut steps = 0;
    while gc.occupied.is_empty() {
        assert!(t.move_down(&mut gc));
        steps += 1;
    }
    // the O spans rows -2 and -1 at spawn: twenty steps down to rows 18 and 19, then the lock
    assert_eq!(steps, 21);
    let mut locked: Vec<(i16, i16)> = gc.occupied.iter().map(|p| (p.x, p.y)).collect();
    locked.sort();
    assert_eq!(locked, vec![(4, 18), (4, 19), (5, 18), (5, 19)]);
    assert!(gc.occupied.iter().all(|p| p.color == Color::Magenta));
    assert_eq!(gc.current_score(), 3);
    assert!(cells(&t).iter().all(|c| c.1 < 0));
}

#[test]
fn move_down_clears_completed_row() {
    let mut gc = GameController::new();
    for x in 0..10 {
        if x != 4 && x != 5 {
            gc.occupied.push(Point::new(x, 19));
        }
    }
    let mut t = Tet::from_index(4);
    while gc.occupied.len() == 8 {
        assert!(t.move_down(&mut gc));
    }
    let mut locked: Vec<(i16, i16)> = gc.occupied.iter().map(|p| (p.x, p.y)).collect();
    locked.sort();
    assert_eq!(locked, vec![(4, 19), (5, 19)]);
    assert_eq!(gc.current_score(), 9);
}

#[test]
fn move_down_reports_full_board() {
    let mut gc = GameController::new();
    gc.occupied.push(Point::new(4, 0));
    let mut t = Tet::from_index(4);
    let pos = t.pos;
    assert!(!t.move_down(&mut gc));
    assert_eq!(t.pos, pos);
    assert_eq!(gc.occupied, vec![Point::new(4, 0)]);
    assert_eq!(gc.current_score(), 0);
}

#[test]
fn locked_cells_stay_apart_over_a_game() {
    let mut gc = GameController::new();
    let mut t = Tet::new_random();
    let moves: [i16; 5] = [-1, 1, 0, -1, 1];
    let mut step = 0usize;
    loop {
        let dx = moves[step % moves.len()];
        if dx != 0 {
            t.translate(dx, 0, &gc);
        } else {
            t.rotate(&gc);
        }
        assert!(!gc.collision_check(t.points_pos(), 0, 0));
        if !t.move_down(&mut gc) {
            break;
        }
        let cells: Vec<(i16, i16)> = gc.occupied.iter().map(|p| (p.x, p.y)).collect();
        for i in 0..cells.len() {
            assert!(cells[i].1 >= 0);
            for j in i + 1..cells.len() {
                assert_ne!(cells[i], cells[j]);
            }
        }
        step += 1;
        assert!(step < 100_000);
    }
    assert!(gc.current_score() >= 3);
}

#[test]
fn autofall_after_fall_interval() {
    let mut gc = GameController::new();
    assert!(!gc.should_autofall(749));
    assert!(gc.should_autofall(750));
    gc.score = 150;
    gc.place_tet();
    assert_eq!(gc.fall_ms, 625);
    assert!(gc.should_autofall(625));
    assert!(!gc.should_autofall(624));
}
