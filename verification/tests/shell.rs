use game2048::app::App;
use game2048::display::{pad_str, score_to_color, TileColor};
use game2048::game::{Command, Grid};
use game2048::utils::equal_slice;

fn tiles(grid: &Grid) -> usize {
    grid.iter().map(|row| row.iter().filter(|v| **v != 0).count()).sum()
}

fn total(grid: &Grid) -> i32 {
    grid.iter().map(|row| row.iter().sum::<i32>()).sum()
}

#[test]
fn a_new_app_shows_a_started_game_and_no_score() {
    let app = App::new();
    assert!(app.is_alive());
    assert_eq!(app.get_score(), 0);
    assert_eq!(tiles(&app.get_grid()), 2);
}

#[test]
fn next_without_a_command_changes_nothing() {
    let mut app = App::new();
    let before = app.get_grid();
    app.next();
    assert_eq!(app.get_grid(), before);
    assert_eq!(app.get_score(), 0);
}

#[test]
fn a_nil_command_is_taken_from_the_queue_and_dropped() {
    let mut app = App::new();
    let before = app.get_grid();
    app.add_command(Command::Nil);
    app.next();
    assert_eq!(app.get_grid(), before);
    assert_eq!(app.get_score(), 0);
    app.next();
    assert_eq!(app.get_grid(), before);
}

#[test]
fn a_command_moves_the_board_and_sets_the_score() {
    let mut app = App::new();
    app.add_command(Command::Left);
    app.next();
    let grid = app.get_grid();
    assert_eq!(app.get_score(), total(&grid));
    assert!(tiles(&grid) == 2 || tiles(&grid) == 3);
}

#[test]
fn commands_are_carried_out_in_the_order_they_came() {
    let mut app = App::new();
    let start = app.get_grid();
    app.add_command(Command::Nil);
    app.add_command(Command::Left);
    app.next();
    assert_eq!(app.get_grid(), start);
    assert_eq!(app.get_score(), 0);
    app.next();
    assert_eq!(app.get_score(), total(&app.get_grid()));
    assert!(app.get_score() > 0);
}

#[test]
fn restart_leaves_a_game_that_is_alive_as_it_is() {
    let mut app = App::new();
    app.add_command(Command::Down);
    app.next();
    let grid = app.get_grid();
    let score = app.get_score();
    app.restart();
    assert_eq!(app.get_grid(), grid);
    assert_eq!(app.get_score(), score);
}

#[test]
fn a_game_that_is_over_takes_no_commands_and_can_be_restarted() {
    let moves = [Command::Left, Command::Down, Command::Right, Command::Up];
    let mut app = App::new();
    let mut n = 0;
    while app.is_alive() && n < 100000 {
        app.add_command(moves[n % 4]);
        app.next();
        n += 1;
    }
    assert!(!app.is_alive());
    let grid = app.get_grid();
    let score = app.get_score();
    assert_eq!(score, total(&grid));
    app.add_command(Command::Left);
    app.next();
    assert_eq!(app.get_grid(), grid);
    assert_eq!(app.get_score(), score);
    app.restart();
    assert!(app.is_alive());
    assert_eq!(app.get_score(), 0);
    assert_eq!(tiles(&app.get_grid()), 2);
    let fresh = app.get_grid();
    app.next();
    assert_eq!(app.get_grid(), fresh);
}

#[test]
fn colours_change_at_64_256_1024_and_4096() {
    assert_eq!(score_to_color(0), TileColor::Green);
    assert_eq!(score_to_color(2), TileColor::Green);
    assert_eq!(score_to_color(63), TileColor::Green);
    assert_eq!(score_to_color(64), TileColor::Magenta);
    assert_eq!(score_to_color(255), TileColor::Magenta);
    assert_eq!(score_to_color(256), TileColor::Cyan);
    assert_eq!(score_to_color(1023), TileColor::Cyan);
    assert_eq!(score_to_color(1024), TileColor::LightRed);
    assert_eq!(score_to_color(4095), TileColor::LightRed);
    assert_eq!(score_to_color(4096), TileColor::Red);
    assert_eq!(score_to_color(131072), TileColor::Red);
    assert_eq!(score_to_color(-1), TileColor::Green);
}

#[test]
fn pad_str_fills_up_with_blanks() {
    assert_eq!(pad_str(String::from("2"), 6), "2     ");
    assert_eq!(pad_str(String::from("2048"), 6), "2048  ");
    assert_eq!(pad_str(String::from(""), 3), "   ");
}

#[test]
fn pad_str_leaves_long_texts_as_they_are() {
    assert_eq!(pad_str(String::from("131072"), 6), "131072");
    assert_eq!(pad_str(String::from("1234567"), 6), "1234567");
    assert_eq!(pad_str(String::from("x"), 0), "x");
}

#[test]
fn pad_str_counts_bytes() {
    assert_eq!(pad_str(String::from("é"), 4), "é  ");
}

#[test]
fn equal_slices_have_the_same_values_in_the_same_order() {
    assert!(equal_slice(&[1, 2, 3], &[1, 2, 3]));
    assert!(equal_slice::<i32>(&[], &[]));
    assert!(!equal_slice(&[1, 2, 3], &[1, 2]));
    assert!(!equal_slice(&[1, 2], &[1, 2, 3]));
    assert!(!equal_slice(&[1, 2, 3], &[1, 2, 4]));
    assert!(!equal_slice(&[1, 2, 3], &[3, 2, 1]));
    assert!(equal_slice(&["a", "b"], &["a", "b"]));
}
