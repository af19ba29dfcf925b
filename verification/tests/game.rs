use game2048::game::{Command, Game, Grid};

fn game(grid: Grid) -> Game {
    Game::with_grid(grid).expect("a board that play can lead to")
}

fn tiles(grid: &Grid) -> usize {
    grid.iter().map(|row| row.iter().filter(|v| **v != 0).count()).sum()
}

fn total(grid: &Grid) -> i32 {
    grid.iter().map(|row| row.iter().sum::<i32>()).sum()
}

const FULL_NO_PAIRS: Grid = [[2, 4, 2, 4], [4, 2, 4, 2], [2, 4, 2, 4], [4, 2, 4, 2]];

#[test]
fn a_new_game_is_alive_on_a_blank_board() {
    let g = Game::new();
    assert!(g.is_alive());
    assert_eq!(g.get_grid(), [[0; 4]; 4]);
    assert_eq!(g.get_score(), 0);
}

#[test]
fn a_started_game_has_two_tiles_and_all_else_blank() {
    for _ in 0..50 {
        let mut g = Game::new();
        g.start();
        let grid = g.get_grid();
        assert!(g.is_alive());
        assert_eq!(tiles(&grid), 2);
        for row in grid.iter() {
            for v in row.iter() {
                assert!(*v == 0 || *v == 2 || *v == 4);
            }
        }
        assert!(g.get_score() >= 4 && g.get_score() <= 8);
    }
}

#[test]
fn starting_again_clears_the_board() {
    let mut g = game(FULL_NO_PAIRS);
    assert!(!g.is_alive());
    g.start();
    assert!(g.is_alive());
    assert_eq!(tiles(&g.get_grid()), 2);
}

#[test]
fn the_score_is_the_sum_of_all_sixteen_cells() {
    assert_eq!(game(FULL_NO_PAIRS).get_score(), 48);
    assert_eq!(game([[2, 0, 0, 0], [0, 4, 0, 0], [0, 0, 8, 0], [0, 0, 0, 16]]).get_score(), 30);
    let big: Grid = [
        [131072, 65536, 32768, 16384],
        [8192, 4096, 2048, 1024],
        [512, 256, 128, 64],
        [32, 16, 8, 4],
    ];
    assert_eq!(game(big).get_score(), 262140);
    assert!(game(big).get_score() >= 0);
}

#[test]
fn nil_changes_nothing_and_brings_no_tile() {
    let start: Grid = [[2, 0, 0, 4], [0, 0, 0, 0], [0, 8, 0, 0], [0, 0, 0, 0]];
    for _ in 0..20 {
        let mut g = game(start);
        g.next_tick(Command::Nil);
        assert_eq!(g.get_grid(), start);
        assert!(g.is_alive());
    }
    let mut dead = game(FULL_NO_PAIRS);
    dead.next_tick(Command::Nil);
    assert_eq!(dead.get_grid(), FULL_NO_PAIRS);
    assert!(!dead.is_alive());
}

#[test]
fn down_merges_the_first_column_and_one_tile_comes_elsewhere() {
    for _ in 0..50 {
        let mut g = game([[2, 0, 0, 0], [0, 0, 0, 0], [0, 0, 0, 0], [2, 0, 0, 0]]);
        assert_eq!(tiles(&g.get_grid()), 2);
        g.next_tick(Command::Down);
        let grid = g.get_grid();
        assert!(g.is_alive());
        assert_eq!(grid[3][0], 4);
        assert_eq!(tiles(&grid), 2);
        let mut rest = grid;
        rest[3][0] = 0;
        assert!(total(&rest) == 2 || total(&rest) == 4);
    }
}

#[test]
fn a_move_that_changes_nothing_still_brings_a_tile() {
    for _ in 0..20 {
        let start: Grid = [[2, 0, 0, 0], [4, 0, 0, 0], [8, 0, 0, 0], [16, 0, 0, 0]];
        let mut g = game(start);
        g.next_tick(Command::Left);
        let grid = g.get_grid();
        assert_eq!(tiles(&grid), 5);
        for r in 0..4 {
            assert_eq!(grid[r][0], start[r][0]);
        }
    }
}

#[test]
fn a_move_on_a_dead_board_ends_the_game() {
    let mut g = game(FULL_NO_PAIRS);
    g.next_tick(Command::Left);
    assert!(!g.is_alive());
    assert_eq!(g.get_grid(), FULL_NO_PAIRS);
}

#[test]
fn a_full_board_that_can_merge_gets_its_tile_after_the_merge() {
    for _ in 0..20 {
        let mut start = FULL_NO_PAIRS;
        start[0][0] = 4;
        let mut g = game(start);
        assert!(g.is_alive());
        g.next_tick(Command::Left);
        let grid = g.get_grid();
        assert!(g.is_alive());
        assert_eq!(grid[0][0], 8);
        assert_eq!(grid[0][1], 2);
        assert_eq!(grid[0][2], 4);
        assert!(grid[0][3] == 2 || grid[0][3] == 4);
        assert_eq!(tiles(&grid), 16);
    }
}

#[test]
fn the_game_stays_alive_when_the_new_tile_fills_the_board() {
    let start: Grid = [[2, 4, 2, 4], [4, 2, 4, 2], [2, 4, 2, 4], [4, 2, 4, 0]];
    let mut g = game(start);
    g.next_tick(Command::Right);
    assert!(g.is_alive());
    assert_eq!(tiles(&g.get_grid()), 16);
}

#[test]
fn a_game_on_a_grid_is_alive_if_the_board_is() {
    assert!(!game(FULL_NO_PAIRS).is_alive());
    assert!(game([[0; 4]; 4]).is_alive());
    assert!(Game::with_grid([[3, 0, 0, 0], [0; 4], [0; 4], [0; 4]]).is_none());
}

#[test]
fn long_play_never_leaves_the_boards_that_play_can_lead_to() {
    let moves = [Command::Left, Command::Down, Command::Right, Command::Up];
    for round in 0..20 {
        let mut g = Game::new();
        g.start();
        let mut n = round;
        while g.is_alive() && n < 5000 {
            let before = g.get_score();
            g.next_tick(moves[n % 4]);
            let after = g.get_score();
            assert!(after == before || after == before + 2 || after == before + 4);
            assert!(Game::with_grid(g.get_grid()).is_some());
            n += 1;
        }
    }
}
