//! The board as a mathematical object: four rows of four values, and what a
//! move, a new tile and the end of the game mean on it.

use vstd::prelude::*;
use crate::game::{Command, Grid};
use crate::merge::{
    collapse,
    lemma_packed_stays,
    lemma_slide_total,
    lemma_total_four,
    nonneg,
    packed,
    shift,
    within,
};
use crate::room::{
    count,
    fit_four,
    is_tile,
    lemma_count_four,
    lemma_four_caps,
    lemma_slide_four,
    tiles_or_gaps,
    top_exponent,
};
use vstd::arithmetic::power2::{lemma2_to64, pow2};

verus! {

/// The board that a grid of cells stands for.
pub open spec fn board(g: Grid) -> Seq<Seq<int>> {
    Seq::new(4, |r: int| Seq::new(4, |c: int| g[r][c] as int))
}

/// The board has four rows of four values.
pub open spec fn shaped(b: Seq<Seq<int>>) -> bool {
    b.len() == 4 && forall|r: int| 0 <= r < 4 ==> (#[trigger] b[r]).len() == 4
}

/// Column `c` of the board, from the top.
pub open spec fn column(b: Seq<Seq<int>>, c: int) -> Seq<int> {
    Seq::new(4, |r: int| b[r][c])
}

/// The board with rows and columns exchanged.
pub open spec fn transpose(b: Seq<Seq<int>>) -> Seq<Seq<int>> {
    Seq::new(4, |r: int| column(b, r))
}

/// The board after each row has slid on its own: to the right, if `to_end`,
/// else to the left.
pub open spec fn slide_rows(b: Seq<Seq<int>>, to_end: bool) -> Seq<Seq<int>> {
    Seq::new(4, |r: int| shift(b[r], to_end))
}

/// The board after the tiles have slid as `cmd` asks. Rows slide for `Left`
/// and `Right`; for `Up` and `Down` the columns slide as rows do, to the top
/// as to the left and to the bottom as to the right; `Nil` leaves the board as
/// it is.
pub open spec fn slide(b: Seq<Seq<int>>, cmd: Command) -> Seq<Seq<int>> {
    match cmd {
        Command::Left => slide_rows(b, false),
        Command::Right => slide_rows(b, true),
        Command::Up => transpose(slide_rows(transpose(b), false)),
        Command::Down => transpose(slide_rows(transpose(b), true)),
        Command::Nil => b,
    }
}

/// The cell in row `r` and column `c` is a gap.
pub open spec fn gap_at(b: Seq<Seq<int>>, r: int, c: int) -> bool {
    b[r][c] == 0
}

/// The cell in row `r` and column `c` holds the same value as the cell to its
/// right or the cell below it. Beyond the edge of the board there is no cell.
pub open spec fn pair_at(b: Seq<Seq<int>>, r: int, c: int) -> bool {
    (c < 3 && b[r][c] == b[r][c + 1]) || (r < 3 && b[r][c] == b[r + 1][c])
}

/// Some cell of the board is a gap.
pub open spec fn has_gap(b: Seq<Seq<int>>) -> bool {
    exists|r: int, c: int| 0 <= r < 4 && 0 <= c < 4 && #[trigger] gap_at(b, r, c)
}

/// Two cells next to each other, in a row or in a column, hold the same
/// value.
pub open spec fn has_pair(b: Seq<Seq<int>>) -> bool {
    exists|r: int, c: int| 0 <= r < 4 && 0 <= c < 4 && #[trigger] pair_at(b, r, c)
}

/// The game can go on: there is a gap, or two equal neighbours.
pub open spec fn alive(b: Seq<Seq<int>>) -> bool {
    has_gap(b) || has_pair(b)
}

/// The sum of the four values of a row.
pub open spec fn row_total(row: Seq<int>) -> int {
    row[0] + row[1] + row[2] + row[3]
}

/// The sum of the sixteen values of the board.
pub open spec fn score(b: Seq<Seq<int>>) -> int {
    row_total(b[0]) + row_total(b[1]) + row_total(b[2]) + row_total(b[3])
}

/// The board with `v` in row `r` and column `c`, and all else as in `b`.
pub open spec fn with_cell(b: Seq<Seq<int>>, r: int, c: int, v: int) -> Seq<Seq<int>> {
    b.update(r, b[r].update(c, v))
}

/// `after` is `before` with a 2 or a 4 in the gap in row `r` and column `c`.
pub open spec fn spawned_at(before: Seq<Seq<int>>, after: Seq<Seq<int>>, r: int, c: int) -> bool {
    &&& 0 <= r < 4
    &&& 0 <= c < 4
    &&& gap_at(before, r, c)
    &&& (after == with_cell(before, r, c, 2) || after == with_cell(before, r, c, 4))
}

/// `after` is `before` with a 2 or a 4 in one of its gaps.
pub open spec fn spawned(before: Seq<Seq<int>>, after: Seq<Seq<int>>) -> bool {
    exists|r: int, c: int| #[trigger] spawned_at(before, after, r, c)
}

/// The board is one that a game starts on: the board without tiles after a
/// new tile has come twice.
pub open spec fn seeded(b: Seq<Seq<int>>) -> bool {
    exists|first: Seq<Seq<int>>| spawned(blank(), first) && #[trigger] spawned(first, b)
}

/// `after` is what a move can make of `before`: the tiles slide as `cmd`
/// asks, and then a 2 or a 4 comes into one of the gaps that are left, if
/// there is one.
pub open spec fn moved(before: Seq<Seq<int>>, cmd: Command, after: Seq<Seq<int>>) -> bool {
    if has_gap(slide(before, cmd)) {
        spawned(slide(before, cmd), after)
    } else {
        after == slide(before, cmd)
    }
}

/// The gaps among the first `n` cells of the board, counted row by row from
/// the top and in each row from the left, in that order.
pub open spec fn gaps_before(b: Seq<Seq<int>>, n: nat) -> Seq<(int, int)>
    decreases n,
{
    if n == 0 {
        Seq::empty()
    } else {
        let found = gaps_before(b, (n - 1) as nat);
        let r = (n - 1) / 4;
        let c = (n - 1) % 4;
        if b[r][c] == 0 {
            found.push((r, c))
        } else {
            found
        }
    }
}

/// The gaps of the board, row by row from the top and in each row from the
/// left.
pub open spec fn gaps(b: Seq<Seq<int>>) -> Seq<(int, int)> {
    gaps_before(b, 16)
}

/// The value of a new tile for a draw from 0 to 9: 2 for six of the ten
/// draws, 4 for the other four.
pub open spec fn tile_for(draw: int) -> int {
    if draw < 6 {
        2
    } else {
        4
    }
}

/// The board after the draws `pick` and `draw`: if `pick` counts one of the
/// gaps, that gap holds the tile that `draw` stands for; if not, nothing
/// changes.
pub open spec fn place(b: Seq<Seq<int>>, pick: int, draw: int) -> Seq<Seq<int>> {
    if 0 <= pick < gaps(b).len() {
        with_cell(b, gaps(b)[pick].0, gaps(b)[pick].1, tile_for(draw))
    } else {
        b
    }
}

/// Every cell of the board is a gap or a tile.
pub open spec fn tiled(b: Seq<Seq<int>>) -> bool {
    forall|r: int| 0 <= r < 4 ==> tiles_or_gaps(#[trigger] b[r])
}

/// The board has room for its tiles: for each exponent `e` from 1 to 18, at
/// most `18 - e` cells hold `2^e` or more.
pub open spec fn roomy(b: Seq<Seq<int>>) -> bool {
    fit_four(b[0], b[1], b[2], b[3])
}

/// The board is one that play can lead to: four rows of four cells, each a
/// gap or a power of two from 2 on, with room for them.
pub open spec fn valid(b: Seq<Seq<int>>) -> bool {
    shaped(b) && tiled(b) && roomy(b)
}

/// The board without tiles.
pub open spec fn blank() -> Seq<Seq<int>> {
    Seq::new(4, |r: int| Seq::new(4, |c: int| 0int))
}

/// A grid stands for a board of four rows of four values, cell by cell.
pub proof fn lemma_board_cells(g: Grid)
    ensures
        shaped(board(g)),
        forall|r: int, c: int| 0 <= r < 4 && 0 <= c < 4 ==> #[trigger] board(g)[r][c] == g[r][c],
{
}

/// Exchanging rows and columns keeps the shape, the tiles, the room and the
/// score of a board.
pub proof fn lemma_transpose(b: Seq<Seq<int>>)
    requires
        shaped(b),
    ensures
        shaped(transpose(b)),
        forall|r: int, c: int|
            0 <= r < 4 && 0 <= c < 4 ==> #[trigger] transpose(b)[r][c] == b[c][r],
        transpose(transpose(b)) == b,
        score(transpose(b)) == score(b),
        tiled(b) ==> tiled(transpose(b)),
        roomy(b) ==> roomy(transpose(b)),
{
    let t = transpose(b);
    assert(transpose(t) =~~= b);
    if tiled(b) {
        assert forall|r: int| 0 <= r < 4 implies tiles_or_gaps(#[trigger] t[r]) by {
            assert forall|i: int| 0 <= i < t[r].len() implies (#[trigger] t[r][i]) == 0 || is_tile(
                t[r][i],
            ) by {
                assert(tiles_or_gaps(b[i]));
                assert(t[r][i] == b[i][r]);
            }
        }
    }
    if roomy(b) {
        assert forall|e: nat| 1 <= e <= top_exponent() implies count(t[0], #[trigger] pow2(e) as int)
            + count(t[1], pow2(e) as int) + count(t[2], pow2(e) as int) + count(
            t[3],
            pow2(e) as int,
        ) + e <= top_exponent() by {
            let p = pow2(e) as int;
            lemma_count_four(b[0], p);
            lemma_count_four(b[1], p);
            lemma_count_four(b[2], p);
            lemma_count_four(b[3], p);
            lemma_count_four(t[0], p);
            lemma_count_four(t[1], p);
            lemma_count_four(t[2], p);
            lemma_count_four(t[3], p);
        }
    }
}

/// Rows that slide leave a board that play can lead to as one.
pub proof fn lemma_slide_rows_valid(b: Seq<Seq<int>>, to_end: bool)
    requires
        valid(b),
    ensures
        valid(slide_rows(b, to_end)),
{
    let after = slide_rows(b, to_end);
    let n0 = shift(b[0], to_end);
    let n1 = shift(b[1], to_end);
    let n2 = shift(b[2], to_end);
    let n3 = shift(b[3], to_end);
    assert(tiles_or_gaps(b[0]) && tiles_or_gaps(b[1]) && tiles_or_gaps(b[2]) && tiles_or_gaps(b[3]));
    lemma_slide_four(b[0], b[1], b[2], b[3]);
    assert(fit_four(b[1], n0, b[2], b[3]));
    lemma_slide_four(b[1], n0, b[2], b[3]);
    assert(fit_four(b[2], n0, n1, b[3]));
    lemma_slide_four(b[2], n0, n1, b[3]);
    assert(fit_four(b[3], n0, n1, n2));
    lemma_slide_four(b[3], n0, n1, n2);
    assert(fit_four(n0, n1, n2, n3));
    assert(after[0] == n0 && after[1] == n1 && after[2] == n2 && after[3] == n3);
    assert forall|r: int| 0 <= r < 4 implies (#[trigger] after[r]).len() == 4 && tiles_or_gaps(
        after[r],
    ) by {
        assert(r == 0 || r == 1 || r == 2 || r == 3);
    }
}

/// A move leaves a board that play can lead to as one.
pub proof fn lemma_slide_valid(b: Seq<Seq<int>>, cmd: Command)
    requires
        valid(b),
    ensures
        valid(slide(b, cmd)),
{
    match cmd {
        Command::Left => {
            lemma_slide_rows_valid(b, false);
        },
        Command::Right => {
            lemma_slide_rows_valid(b, true);
        },
        Command::Up => {
            lemma_transpose(b);
            lemma_slide_rows_valid(transpose(b), false);
            lemma_transpose(slide_rows(transpose(b), false));
        },
        Command::Down => {
            lemma_transpose(b);
            lemma_slide_rows_valid(transpose(b), true);
            lemma_transpose(slide_rows(transpose(b), true));
        },
        Command::Nil => {},
    }
}

/// Rows that slide keep the shape and the score of the board.
pub proof fn lemma_slide_rows_score(b: Seq<Seq<int>>, to_end: bool)
    requires
        shaped(b),
    ensures
        shaped(slide_rows(b, to_end)),
        score(slide_rows(b, to_end)) == score(b),
{
    let after = slide_rows(b, to_end);
    assert forall|r: int| 0 <= r < 4 implies (#[trigger] after[r]).len() == 4 && row_total(
        after[r],
    ) == row_total(b[r]) by {
        lemma_slide_total(b[r]);
        lemma_total_four(b[r]);
        lemma_total_four(after[r]);
    }
}

/// A move changes neither the shape of the board nor the sum of its cells:
/// tiles only change place, and a merge puts one tile in the place of two of
/// half its value.
pub proof fn lemma_slide_score(b: Seq<Seq<int>>, cmd: Command)
    requires
        shaped(b),
    ensures
        shaped(slide(b, cmd)),
        score(slide(b, cmd)) == score(b),
{
    match cmd {
        Command::Left => {
            lemma_slide_rows_score(b, false);
        },
        Command::Right => {
            lemma_slide_rows_score(b, true);
        },
        Command::Up => {
            lemma_transpose(b);
            lemma_slide_rows_score(transpose(b), false);
            lemma_transpose(slide_rows(transpose(b), false));
        },
        Command::Down => {
            lemma_transpose(b);
            lemma_slide_rows_score(transpose(b), true);
            lemma_transpose(slide_rows(transpose(b), true));
        },
        Command::Nil => {},
    }
}

/// On a board that play can lead to no cell is negative, none is above
/// `2^17`, and the score is at most 16 times that.
pub proof fn lemma_valid_caps(b: Seq<Seq<int>>)
    requires
        valid(b),
    ensures
        forall|r: int, c: int| 0 <= r < 4 && 0 <= c < 4 ==> 0 <= #[trigger] b[r][c] <= 131072,
        0 <= score(b) <= 2097152,
{
    assert(tiles_or_gaps(b[0]) && tiles_or_gaps(b[1]) && tiles_or_gaps(b[2]) && tiles_or_gaps(b[3]));
    lemma_four_caps(b[0], b[1], b[2], b[3]);
    assert(fit_four(b[1], b[0], b[2], b[3]));
    lemma_four_caps(b[1], b[0], b[2], b[3]);
    assert(fit_four(b[2], b[0], b[1], b[3]));
    lemma_four_caps(b[2], b[0], b[1], b[3]);
    assert(fit_four(b[3], b[0], b[1], b[2]));
    lemma_four_caps(b[3], b[0], b[1], b[2]);
    assert forall|r: int, c: int| 0 <= r < 4 && 0 <= c < 4 implies 0 <= #[trigger] b[r][c]
        <= 131072 by {
        assert(r == 0 || r == 1 || r == 2 || r == 3);
    }
}

/// On a board of four rows of four, each cell of the board after a move is
/// a place of its row or of its column after that line has slid.
pub proof fn lemma_slide_cells(b: Seq<Seq<int>>, cmd: Command, r: int, c: int)
    requires
        shaped(b),
        0 <= r < 4,
        0 <= c < 4,
    ensures
        slide(b, cmd)[r][c] == match cmd {
            Command::Left => shift(b[r], false)[c],
            Command::Right => shift(b[r], true)[c],
            Command::Up => shift(column(b, c), false)[r],
            Command::Down => shift(column(b, c), true)[r],
            Command::Nil => b[r][c],
        },
{
    lemma_transpose(b);
    lemma_slide_score(b, cmd);
    match cmd {
        Command::Up => {
            lemma_slide_rows_score(transpose(b), false);
            lemma_transpose(slide_rows(transpose(b), false));
        },
        Command::Down => {
            lemma_slide_rows_score(transpose(b), true);
            lemma_transpose(slide_rows(transpose(b), true));
        },
        _ => {},
    }
}

/// On a board that play can lead to, every row and every column can be
/// collapsed from either end without a value leaving the range of a cell:
/// none is negative and none comes out above `2^17`.
pub proof fn lemma_lines_collapse(b: Seq<Seq<int>>, i: int)
    requires
        valid(b),
        0 <= i < 4,
    ensures
        nonneg(b[i]),
        nonneg(b[i].reverse()),
        nonneg(column(b, i)),
        nonneg(column(b, i).reverse()),
        within(collapse(b[i]), 131072),
        within(collapse(b[i].reverse()), 131072),
        within(collapse(column(b, i)), 131072),
        within(collapse(column(b, i).reverse()), 131072),
{
    lemma_valid_caps(b);
    lemma_row_collapses(b, i);
    lemma_transpose(b);
    lemma_row_collapses(transpose(b), i);
    assert(column(b, i).reverse().len() == 4);
    assert(b[i].reverse().len() == 4);
}

/// Row `i` of a board that play can lead to can be collapsed from either end
/// without a value coming out above `2^17`.
pub proof fn lemma_row_collapses(b: Seq<Seq<int>>, i: int)
    requires
        valid(b),
        0 <= i < 4,
    ensures
        within(collapse(b[i]), 131072),
        within(collapse(b[i].reverse()), 131072),
{
    assert(tiles_or_gaps(b[0]) && tiles_or_gaps(b[1]) && tiles_or_gaps(b[2]) && tiles_or_gaps(b[3]));
    if i == 0 {
        lemma_slide_four(b[0], b[1], b[2], b[3]);
    } else if i == 1 {
        assert(fit_four(b[1], b[0], b[2], b[3]));
        lemma_slide_four(b[1], b[0], b[2], b[3]);
    } else if i == 2 {
        assert(fit_four(b[2], b[0], b[1], b[3]));
        lemma_slide_four(b[2], b[0], b[1], b[3]);
    } else {
        assert(fit_four(b[3], b[0], b[1], b[2]));
        lemma_slide_four(b[3], b[0], b[1], b[2]);
    }
}

/// The board without tiles is one that play can lead to; it has sixteen gaps
/// and a score of 0.
pub proof fn lemma_blank()
    ensures
        valid(blank()),
        score(blank()) == 0,
        forall|r: int, c: int| 0 <= r < 4 && 0 <= c < 4 ==> #[trigger] blank()[r][c] == 0,
{
    let b = blank();
    assert forall|e: nat| 1 <= e <= top_exponent() implies count(b[0], #[trigger] pow2(e) as int)
        + count(b[1], pow2(e) as int) + count(b[2], pow2(e) as int) + count(b[3], pow2(e) as int)
        + e <= top_exponent() by {
        let p = pow2(e) as int;
        vstd::arithmetic::power2::lemma_pow2_pos(e);
        lemma_count_four(b[0], p);
        lemma_count_four(b[1], p);
        lemma_count_four(b[2], p);
        lemma_count_four(b[3], p);
    }
}

/// A 2 or a 4 in a gap of a board that play can lead to gives such a board
/// again, with a score that much higher.
pub proof fn lemma_spawn_valid(b: Seq<Seq<int>>, r: int, c: int, v: int)
    requires
        valid(b),
        0 <= r < 4,
        0 <= c < 4,
        gap_at(b, r, c),
        v == 2 || v == 4,
    ensures
        valid(with_cell(b, r, c, v)),
        score(with_cell(b, r, c, v)) == score(b) + v,
{
    let after = with_cell(b, r, c, v);
    lemma2_to64();
    assert(is_tile(v)) by {
        assert(v == pow2(1) || v == pow2(2));
    }
    assert forall|i: int| 0 <= i < 4 implies tiles_or_gaps(#[trigger] after[i]) by {
        assert(tiles_or_gaps(b[i]));
        assert forall|j: int| 0 <= j < after[i].len() implies (#[trigger] after[i][j]) == 0
            || is_tile(after[i][j]) by {
            if i == r && j == c {
            } else {
                assert(after[i][j] == b[i][j]);
            }
        }
    }
    assert forall|e: nat| 1 <= e <= top_exponent() implies count(
        after[0],
        #[trigger] pow2(e) as int,
    ) + count(after[1], pow2(e) as int) + count(after[2], pow2(e) as int) + count(
        after[3],
        pow2(e) as int,
    ) + e <= top_exponent() by {
        let p = pow2(e) as int;
        lemma_count_four(b[0], p);
        lemma_count_four(b[1], p);
        lemma_count_four(b[2], p);
        lemma_count_four(b[3], p);
        lemma_count_four(after[0], p);
        lemma_count_four(after[1], p);
        lemma_count_four(after[2], p);
        lemma_count_four(after[3], p);
        if e >= 3 {
            crate::room::lemma_pow2_order(3, e);
        }
    }
    assert(r == 0 || r == 1 || r == 2 || r == 3);
    assert(c == 0 || c == 1 || c == 2 || c == 3);
}

/// The list of gaps names gaps of the board only, each at most once and in
/// the order of the cells, and leaves none out.
pub proof fn lemma_gaps_before(b: Seq<Seq<int>>, n: nat)
    requires
        n <= 16,
    ensures
        gaps_before(b, n).len() <= n,
        forall|i: int|
            0 <= i < gaps_before(b, n).len() ==> {
                let p = #[trigger] gaps_before(b, n)[i];
                0 <= p.0 < 4 && 0 <= p.1 < 4 && 4 * p.0 + p.1 < n && gap_at(b, p.0, p.1)
            },
        forall|r: int, c: int|
            0 <= r < 4 && 0 <= c < 4 && 4 * r + c < n && #[trigger] gap_at(b, r, c) ==> gaps_before(
                b,
                n,
            ).len() > 0,
    decreases n,
{
    if n > 0 {
        lemma_gaps_before(b, (n - 1) as nat);
        let found = gaps_before(b, (n - 1) as nat);
        let now = gaps_before(b, n);
        let r0 = (n - 1) / 4;
        let c0 = (n - 1) % 4;
        assert forall|i: int| 0 <= i < now.len() implies {
            let p = #[trigger] now[i];
            0 <= p.0 < 4 && 0 <= p.1 < 4 && 4 * p.0 + p.1 < n && gap_at(b, p.0, p.1)
        } by {
            if i < found.len() {
                assert(now[i] == found[i]);
            }
        }
        assert forall|r: int, c: int|
            0 <= r < 4 && 0 <= c < 4 && 4 * r + c < n && #[trigger] gap_at(b, r, c) implies now.len()
            > 0 by {
            if 4 * r + c == n - 1 {
                assert(r == r0 && c == c0);
            }
        }
    }
}

/// Every entry of the list of gaps is a gap of the board, the list is empty
/// only if the board is full, and it has at most sixteen entries.
pub proof fn lemma_gaps(b: Seq<Seq<int>>)
    ensures
        gaps(b).len() <= 16,
        forall|i: int|
            0 <= i < gaps(b).len() ==> {
                let p = #[trigger] gaps(b)[i];
                0 <= p.0 < 4 && 0 <= p.1 < 4 && gap_at(b, p.0, p.1)
            },
        has_gap(b) <==> gaps(b).len() > 0,
{
    lemma_gaps_before(b, 16);
    if gaps(b).len() > 0 {
        let p = gaps(b)[0];
        assert(gap_at(b, p.0, p.1));
    }
}

/// A pick that counts one of the gaps puts a tile there, any other pick
/// changes nothing; either way a board that play can lead to stays one.
pub proof fn lemma_place(b: Seq<Seq<int>>, pick: int, draw: int)
    requires
        valid(b),
    ensures
        valid(place(b, pick, draw)),
        0 <= pick < gaps(b).len() ==> spawned(b, place(b, pick, draw)),
        !(0 <= pick < gaps(b).len()) ==> place(b, pick, draw) == b,
{
    lemma_gaps(b);
    if 0 <= pick < gaps(b).len() {
        let p = gaps(b)[pick];
        lemma_spawn_valid(b, p.0, p.1, tile_for(draw));
        assert(spawned_at(b, place(b, pick, draw), p.0, p.1));
    }
}

/// A new tile in one of the gaps keeps the board one that play can lead to,
/// and makes the score 2 or 4 higher.
pub proof fn lemma_spawned(before: Seq<Seq<int>>, after: Seq<Seq<int>>)
    requires
        valid(before),
        spawned(before, after),
    ensures
        valid(after),
        score(after) == score(before) + 2 || score(after) == score(before) + 4,
{
    let (r, c) = choose|r: int, c: int| #[trigger] spawned_at(before, after, r, c);
    lemma_spawn_valid(before, r, c, 2);
    lemma_spawn_valid(before, r, c, 4);
}

/// A board with a gap is alive, whatever else it holds: put a gap anywhere on
/// a board and the game can go on.
pub proof fn lemma_gap_revives(b: Seq<Seq<int>>, r: int, c: int)
    requires
        shaped(b),
        0 <= r < 4,
        0 <= c < 4,
    ensures
        alive(with_cell(b, r, c, 0)),
{
    assert(gap_at(with_cell(b, r, c, 0), r, c));
}

/// On a board with a single gap a new tile can only go there.
pub proof fn lemma_single_gap(before: Seq<Seq<int>>, after: Seq<Seq<int>>, r: int, c: int)
    requires
        shaped(before),
        0 <= r < 4,
        0 <= c < 4,
        forall|i: int, j: int|
            0 <= i < 4 && 0 <= j < 4 ==> (#[trigger] gap_at(before, i, j) <==> i == r && j == c),
        spawned(before, after),
    ensures
        spawned_at(before, after, r, c),
        after[r][c] == 2 || after[r][c] == 4,
        after == with_cell(before, r, c, after[r][c]),
{
    let (i, j) = choose|i: int, j: int| #[trigger] spawned_at(before, after, i, j);
    assert(gap_at(before, i, j));
}

/// A full board without two equal neighbours is not alive, and a gap
/// anywhere on it would make it alive.
pub proof fn lemma_dead_until_a_gap(b: Seq<Seq<int>>, r: int, c: int)
    requires
        shaped(b),
        !has_gap(b),
        !has_pair(b),
        0 <= r < 4,
        0 <= c < 4,
    ensures
        !alive(b),
        alive(with_cell(b, r, c, 0)),
{
    lemma_gap_revives(b, r, c);
}

/// A board that is not alive is left as it is by every move: each of its
/// rows and columns is full and has no two equal neighbours, so nothing
/// slides and nothing merges.
pub proof fn lemma_dead_stays(b: Seq<Seq<int>>, cmd: Command)
    requires
        shaped(b),
        !alive(b),
    ensures
        slide(b, cmd) == b,
{
    let t = transpose(b);
    lemma_transpose(b);
    assert forall|r: int| 0 <= r < 4 implies packed(#[trigger] b[r]) && packed(t[r]) by {
        assert forall|i: int| 0 <= i < 4 implies (#[trigger] b[r][i]) != 0 && t[r][i] != 0 by {
            assert(!gap_at(b, r, i));
            assert(!gap_at(b, i, r));
        }
        assert forall|i: int| 0 <= i < 3 implies (#[trigger] b[r][i]) != b[r][i + 1] && t[r][i]
            != t[r][i + 1] by {
            assert(!pair_at(b, r, i));
            assert(!pair_at(b, i, r));
        }
        assert(forall|i: int| 0 <= i < t[r].len() ==> (#[trigger] t[r][i]) == b[i][r]);
    }
    assert forall|to_end: bool| #[trigger] slide_rows(b, to_end) == b && slide_rows(t, to_end) == t by {
        assert forall|r: int| 0 <= r < 4 implies (#[trigger] slide_rows(b, to_end)[r]) == b[r]
            && slide_rows(t, to_end)[r] == t[r] by {
            assert(packed(b[r]) && packed(t[r]));
            lemma_packed_stays(b[r]);
            lemma_packed_stays(t[r]);
        }
        assert(slide_rows(b, to_end) =~= b);
        assert(slide_rows(t, to_end) =~= t);
    }
    assert(slide_rows(b, true) == b && slide_rows(b, false) == b);
    assert(slide_rows(t, true) == t && slide_rows(t, false) == t);
}

} // verus!
