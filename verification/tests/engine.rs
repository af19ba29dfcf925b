use game2048::merge::{merge_pass, reversed, sum};

fn in_scan_order(rest: &Vec<i32>) -> Vec<i32> {
    reversed(rest)
}

#[test]
fn four_twos_merge_in_pairs_in_one_pass() {
    let (rest, changed) = merge_pass(&vec![2, 2, 2, 2]);
    assert_eq!(rest, vec![4, 4]);
    assert!(changed);
}

#[test]
fn four_twos_collapse_to_one_tile_over_all_passes() {
    assert_eq!(sum(vec![2, 2, 2, 2]), vec![8]);
}

#[test]
fn one_two_two_four_first_pass_merges_the_twos() {
    let (first, changed) = merge_pass(&vec![1, 2, 2, 4]);
    assert!(changed);
    assert_eq!(in_scan_order(&first), vec![1, 4, 4]);
}

#[test]
fn one_two_two_four_second_pass_merges_the_fours() {
    let (second, changed) = merge_pass(&vec![1, 4, 4]);
    assert!(changed);
    assert_eq!(in_scan_order(&second), vec![1, 8]);
}

#[test]
fn one_two_two_four_collapses_to_eight_and_one() {
    let done = sum(vec![1, 2, 2, 4]);
    assert_eq!(done, vec![8, 1]);
    assert_eq!(in_scan_order(&done), vec![1, 8]);
}

#[test]
fn a_pass_without_equal_neighbours_changes_nothing_but_the_order() {
    let (rest, changed) = merge_pass(&vec![2, 4, 8, 16]);
    assert!(!changed);
    assert_eq!(rest, vec![16, 8, 4, 2]);
}

#[test]
fn gaps_are_dropped_and_tiles_across_a_gap_merge() {
    assert_eq!(sum(vec![2, 0, 0, 2]), vec![4]);
    assert_eq!(sum(vec![0, 0, 0, 0]), Vec::<i32>::new());
    assert_eq!(sum(vec![0, 4, 0, 2]), vec![2, 4]);
}

#[test]
fn the_value_scanned_first_merges_first() {
    assert_eq!(sum(vec![2, 2, 2]), vec![4, 2]);
    let (rest, changed) = merge_pass(&vec![2, 2, 2]);
    assert!(changed);
    assert_eq!(rest, vec![4, 2]);
}

#[test]
fn a_doubled_tile_meets_its_equal_in_the_same_pass() {
    let (rest, changed) = merge_pass(&vec![4, 2, 2]);
    assert!(changed);
    assert_eq!(rest, vec![8]);
}

#[test]
fn chained_merges_run_until_nothing_merges() {
    assert_eq!(sum(vec![2, 2, 4, 8]), vec![16]);
}

#[test]
fn collapsing_keeps_the_total() {
    let lines = vec![
        vec![2, 2, 2, 2],
        vec![1, 2, 2, 4],
        vec![0, 4, 4, 8],
        vec![2, 0, 2, 0],
        vec![16, 8, 4, 2],
        vec![0, 0, 0, 0],
        vec![1024, 1024, 2048, 64],
    ];
    for line in lines {
        let before: i32 = line.iter().sum();
        let after: i32 = sum(line.clone()).iter().sum();
        assert_eq!(before, after);
    }
}

#[test]
fn the_empty_line_collapses_to_itself() {
    assert_eq!(sum(vec![]), Vec::<i32>::new());
    let (rest, changed) = merge_pass(&vec![]);
    assert!(rest.is_empty());
    assert!(!changed);
}

#[test]
fn reversed_turns_a_line_around() {
    assert_eq!(reversed(&vec![1, 2, 3]), vec![3, 2, 1]);
    assert_eq!(reversed(&vec![]), Vec::<i32>::new());
}
