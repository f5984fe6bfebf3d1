use terminal_tetris::input::{Input, Key, KeyKind};
use terminal_tetris::input_controller::InputController;
use terminal_tetris::input_mem::InputMem;
use terminal_tetris::menu_controller::{main_menu_options, update_cursor_index, MenuOption};

#[test]
fn press_marks_down_and_pressed() {
    let mut input = Input::new();
    input.capture_input(Some((Key::Left, KeyKind::Press)));
    assert!(input.key_down(Key::Left));
    assert!(input.key_pressed(Key::Left));
    assert!(!input.key_down(Key::Right));
    input.capture_input(None);
    assert!(input.key_down(Key::Left));
    assert!(!input.key_pressed(Key::Left));
}

#[test]
fn press_of_held_key_is_not_new() {
    let mut input = Input::new();
    input.capture_input(Some((Key::Char('a'), KeyKind::Press)));
    input.capture_input(Some((Key::Char('a'), KeyKind::Press)));
    assert!(!input.key_pressed(Key::Char('a')));
    assert!(input.key_down(Key::Char('a')));
}

#[test]
fn release_and_repeat() {
    let mut input = Input::new();
    input.capture_input(Some((Key::Down, KeyKind::Press)));
    input.capture_input(Some((Key::Down, KeyKind::Repeat)));
    assert!(input.key_down(Key::Down));
    input.capture_input(Some((Key::Down, KeyKind::Release)));
    assert!(!input.key_down(Key::Down));
    input.capture_input(Some((Key::Up, KeyKind::Release)));
    assert!(!input.key_down(Key::Up));
}

#[test]
fn input_mem_waits_before_repeating() {
    let mut input = Input::new();
    let mut mem = InputMem::new(Key::Left, 1000);
    assert!(mem.allowed(1000));
    input.capture_input(Some((Key::Left, KeyKind::Press)));
    mem.set_released(&input);
    mem.set_time(1000);
    assert!(!mem.allowed(1050));
    assert!(!mem.allowed(1100));
    assert!(mem.allowed(1101));
    assert!(!mem.allowed(900));
}

#[test]
fn key_hold_repeats_after_delay() {
    let mut ic = InputController::new(0);
    ic.update(Some((Key::Right, KeyKind::Press)));
    assert!(ic.key_pressed(Key::Right));
    assert!(ic.key_hold(Key::Right, 10));
    ic.end_update();
    ic.update(None);
    assert!(!ic.key_hold(Key::Right, 50));
    assert!(ic.key_hold(Key::Right, 111));
    assert!(!ic.key_hold(Key::Left, 500));
    assert!(!ic.key_hold(Key::Enter, 500));
    ic.end_update();
}

#[test]
fn key_hold_after_release_is_immediate() {
    let mut ic = InputController::new(0);
    ic.update(Some((Key::Down, KeyKind::Press)));
    assert!(ic.key_hold(Key::Down, 5));
    ic.end_update();
    ic.update(Some((Key::Down, KeyKind::Release)));
    ic.end_update();
    ic.update(Some((Key::Down, KeyKind::Press)));
    assert!(ic.key_hold(Key::Down, 6));
}

#[test]
fn menu_cursor_wraps() {
    assert_eq!(update_cursor_index(0, 3, true, false), 1);
    assert_eq!(update_cursor_index(2, 3, true, false), 0);
    assert_eq!(update_cursor_index(0, 3, false, true), 2);
    assert_eq!(update_cursor_index(1, 3, false, false), 1);
    assert_eq!(update_cursor_index(1, 3, true, true), 1);
}

#[test]
fn menu_options_labels() {
    let options = main_menu_options();
    let labels: Vec<&str> = options.iter().map(|o| o.label().as_str()).collect();
    assert_eq!(labels, vec!["New Game", "View Highscores", "Quit"]);
    assert!(matches!(options[0], MenuOption::New(_)));
    assert!(matches!(options[2], MenuOption::Quit(_)));
}
