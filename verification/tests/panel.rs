use game2048::game::{is_tile_value, playable, Command, Grid, Panel};

fn panel(grid: Grid) -> Panel {
    Panel::with_grid(grid).expect("a board that play can lead to")
}

fn tiles(grid: &Grid) -> usize {
    grid.iter().map(|row| row.iter().filter(|v| **v != 0).count()).sum()
}

const FULL_NO_PAIRS: Grid = [[2, 4, 2, 4], [4, 2, 4, 2], [2, 4, 2, 4], [4, 2, 4, 2]];

#[test]
fn a_new_panel_is_blank() {
    assert_eq!(Panel::new().get_grid(), [[0; 4]; 4]);
}

#[test]
fn init_leaves_exactly_two_tiles_of_two_or_four() {
    for _ in 0..50 {
        let mut p = panel([[2, 4, 8, 16], [0, 0, 0, 0], [0, 0, 0, 0], [0, 0, 0, 0]]);
        p.init();
        let g = p.get_grid();
        assert_eq!(tiles(&g), 2);
        for row in g.iter() {
            for v in row.iter() {
                assert!(*v == 0 || *v == 2 || *v == 4);
            }
        }
    }
}

#[test]
fn down_merges_a_column_across_gaps() {
    let mut p = panel([[2, 0, 0, 0], [0, 0, 0, 0], [0, 0, 0, 0], [2, 0, 0, 0]]);
    let out = p.next_tick(Command::Down);
    assert_eq!(out, [[0, 0, 0, 0], [0, 0, 0, 0], [0, 0, 0, 0], [4, 0, 0, 0]]);
    assert_eq!(p.get_grid(), out);
}

#[test]
fn each_direction_slides_towards_its_wall() {
    let start: Grid = [[2, 0, 0, 4], [0, 0, 0, 0], [0, 8, 0, 0], [0, 0, 0, 0]];
    let mut p = panel(start);
    assert_eq!(
        p.next_tick(Command::Left),
        [[2, 4, 0, 0], [0, 0, 0, 0], [8, 0, 0, 0], [0, 0, 0, 0]]
    );
    let mut p = panel(start);
    assert_eq!(
        p.next_tick(Command::Right),
        [[0, 0, 2, 4], [0, 0, 0, 0], [0, 0, 0, 8], [0, 0, 0, 0]]
    );
    let mut p = panel(start);
    assert_eq!(
        p.next_tick(Command::Up),
        [[2, 8, 0, 4], [0, 0, 0, 0], [0, 0, 0, 0], [0, 0, 0, 0]]
    );
    let mut p = panel(start);
    assert_eq!(
        p.next_tick(Command::Down),
        [[0, 0, 0, 0], [0, 0, 0, 0], [0, 0, 0, 0], [2, 8, 0, 4]]
    );
}

#[test]
fn tiles_keep_their_order_and_merge_from_the_wall() {
    let row: Grid = [[2, 2, 2, 0], [2, 4, 4, 8], [4, 4, 4, 4], [2, 4, 8, 16]];
    let mut p = panel(row);
    assert_eq!(
        p.next_tick(Command::Left),
        [[4, 2, 0, 0], [2, 16, 0, 0], [16, 0, 0, 0], [2, 4, 8, 16]]
    );
    let mut p = panel(row);
    assert_eq!(
        p.next_tick(Command::Right),
        [[0, 0, 2, 4], [0, 0, 2, 16], [0, 0, 0, 16], [2, 4, 8, 16]]
    );
}

#[test]
fn columns_slide_as_rows_do() {
    let start: Grid = [[2, 2, 4, 2], [2, 4, 4, 4], [2, 4, 4, 8], [0, 8, 4, 16]];
    let mut p = panel(start);
    assert_eq!(
        p.next_tick(Command::Up),
        [[4, 2, 16, 2], [2, 16, 0, 4], [0, 0, 0, 8], [0, 0, 0, 16]]
    );
    let mut p = panel(start);
    assert_eq!(
        p.next_tick(Command::Down),
        [[0, 0, 0, 2], [0, 0, 0, 4], [2, 2, 0, 8], [4, 16, 16, 16]]
    );
}

#[test]
fn nil_leaves_the_panel_as_it_is() {
    let start: Grid = [[2, 0, 0, 4], [0, 0, 0, 0], [0, 8, 0, 0], [0, 0, 0, 0]];
    let mut p = panel(start);
    assert_eq!(p.next_tick(Command::Nil), start);
    assert_eq!(p.get_grid(), start);
}

#[test]
fn a_move_keeps_the_sum_of_the_cells() {
    let start: Grid = [[2, 2, 4, 2], [2, 4, 4, 4], [2, 4, 4, 8], [0, 8, 4, 16]];
    let before: i32 = start.iter().map(|r| r.iter().sum::<i32>()).sum();
    for cmd in [Command::Left, Command::Up, Command::Right, Command::Down, Command::Nil] {
        let mut p = panel(start);
        let out = p.next_tick(cmd);
        let after: i32 = out.iter().map(|r| r.iter().sum::<i32>()).sum();
        assert_eq!(before, after);
    }
}

#[test]
fn a_full_board_without_equal_neighbours_is_dead() {
    assert!(!panel(FULL_NO_PAIRS).check_alive());
}

#[test]
fn a_single_gap_anywhere_makes_the_board_alive() {
    for r in 0..4 {
        for c in 0..4 {
            let mut g = FULL_NO_PAIRS;
            g[r][c] = 0;
            assert!(panel(g).check_alive());
        }
    }
}

#[test]
fn a_full_board_with_an_equal_pair_is_alive() {
    let mut across = FULL_NO_PAIRS;
    across[3][3] = 4;
    assert!(panel(across).check_alive());
    let mut below = FULL_NO_PAIRS;
    below[0][0] = 4;
    assert!(panel(below).check_alive());
    assert!(panel([[0; 4]; 4]).check_alive());
}

#[test]
fn a_dead_board_does_not_move() {
    for cmd in [Command::Left, Command::Up, Command::Right, Command::Down] {
        let mut p = panel(FULL_NO_PAIRS);
        assert_eq!(p.next_tick(cmd), FULL_NO_PAIRS);
    }
}

#[test]
fn empty_cells_are_listed_row_by_row() {
    let p = panel([[2, 0, 4, 0], [0, 2, 2, 2], [4, 4, 4, 4], [2, 2, 2, 0]]);
    assert_eq!(p.empty_cells(), vec![(0, 1), (0, 3), (1, 0), (3, 3)]);
    assert!(panel(FULL_NO_PAIRS).empty_cells().is_empty());
    assert_eq!(Panel::new().empty_cells().len(), 16);
}

#[test]
fn place_tile_fills_the_gap_that_the_pick_counts() {
    let start: Grid = [[2, 0, 4, 0], [0, 2, 2, 2], [4, 4, 4, 4], [2, 2, 2, 0]];
    let mut p = panel(start);
    assert!(p.place_tile(2, 0));
    let mut want = start;
    want[1][0] = 2;
    assert_eq!(p.get_grid(), want);
    let mut p = panel(start);
    assert!(p.place_tile(3, 9));
    let mut want = start;
    want[3][3] = 4;
    assert_eq!(p.get_grid(), want);
}

#[test]
fn a_draw_below_six_gives_a_two_and_any_other_a_four() {
    for draw in 0..10 {
        let mut p = Panel::new();
        assert!(p.place_tile(0, draw));
        let want = if draw < 6 { 2 } else { 4 };
        assert_eq!(p.get_grid()[0][0], want);
    }
}

#[test]
fn a_pick_that_counts_no_gap_places_nothing() {
    let start: Grid = [[2, 0, 4, 0], [0, 2, 2, 2], [4, 4, 4, 4], [2, 2, 2, 0]];
    let mut p = panel(start);
    assert!(!p.place_tile(4, 0));
    assert_eq!(p.get_grid(), start);
    let mut full = panel(FULL_NO_PAIRS);
    assert!(!full.place_tile(0, 0));
    assert_eq!(full.get_grid(), FULL_NO_PAIRS);
}

#[test]
fn random_insert_fills_the_only_gap() {
    for _ in 0..50 {
        let mut g = FULL_NO_PAIRS;
        g[2][1] = 0;
        let mut p = panel(g);
        p.random_insert();
        let out = p.get_grid();
        assert!(out[2][1] == 2 || out[2][1] == 4);
        let mut back = out;
        back[2][1] = 0;
        assert_eq!(back, g);
    }
}

#[test]
fn random_insert_leaves_a_full_board_as_it_is() {
    let mut p = panel(FULL_NO_PAIRS);
    p.random_insert();
    assert_eq!(p.get_grid(), FULL_NO_PAIRS);
}

#[test]
fn random_insert_puts_one_tile_into_a_gap() {
    for _ in 0..100 {
        let start: Grid = [[2, 0, 4, 0], [0, 2, 2, 2], [4, 4, 4, 4], [2, 2, 2, 0]];
        let mut p = panel(start);
        p.random_insert();
        let out = p.get_grid();
        let mut changed = 0;
        for r in 0..4 {
            for c in 0..4 {
                if out[r][c] != start[r][c] {
                    changed += 1;
                    assert_eq!(start[r][c], 0);
                    assert!(out[r][c] == 2 || out[r][c] == 4);
                }
            }
        }
        assert_eq!(changed, 1);
    }
}

#[test]
fn tile_values_are_the_powers_of_two_from_two_on() {
    for v in [2, 4, 8, 1024, 131072, 1 << 30] {
        assert!(is_tile_value(v));
    }
    for v in [0, 1, 3, 6, -2, -4, 12, i32::MAX, i32::MIN] {
        assert!(!is_tile_value(v));
    }
}

#[test]
fn boards_with_other_values_are_turned_down() {
    assert!(Panel::with_grid([[3, 0, 0, 0], [0; 4], [0; 4], [0; 4]]).is_none());
    assert!(Panel::with_grid([[1, 0, 0, 0], [0; 4], [0; 4], [0; 4]]).is_none());
    assert!(Panel::with_grid([[-2, 0, 0, 0], [0; 4], [0; 4], [0; 4]]).is_none());
    assert!(!playable(&[[0, 0, 0, 6], [0; 4], [0; 4], [0; 4]]));
}

#[test]
fn boards_without_room_for_their_tiles_are_turned_down() {
    assert!(playable(&[[131072, 0, 0, 0], [0; 4], [0; 4], [0; 4]]));
    assert!(!playable(&[[262144, 0, 0, 0], [0; 4], [0; 4], [0; 4]]));
    assert!(!playable(&[[131072, 131072, 0, 0], [0; 4], [0; 4], [0; 4]]));
    assert!(playable(&[[65536, 65536, 0, 0], [0; 4], [0; 4], [0; 4]]));
    assert!(!playable(&[[65536, 65536, 65536, 0], [0; 4], [0; 4], [0; 4]]));
    assert!(playable(&[[8; 4], [8; 4], [8; 4], [8, 8, 8, 4]]));
    assert!(!playable(&[[8; 4], [8; 4], [8; 4], [8; 4]]));
    assert!(playable(&[[4; 4], [4; 4], [4; 4], [4; 4]]));
    assert!(playable(&[
        [131072, 65536, 32768, 16384],
        [8192, 4096, 2048, 1024],
        [512, 256, 128, 64],
        [32, 16, 8, 4],
    ]));
}

#[test]
fn the_largest_tiles_still_merge() {
    let mut p = panel([[65536, 65536, 0, 0], [0; 4], [0; 4], [0; 4]]);
    assert_eq!(p.next_tick(Command::Left)[0], [131072, 0, 0, 0]);
}
