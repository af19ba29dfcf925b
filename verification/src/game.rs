//! The board of the game and the game around it.

use vstd::prelude::*;
use crate::board::{
    alive,
    blank,
    board,
    column,
    gap_at,
    gaps,
    gaps_before,
    has_gap,
    has_pair,
    lemma_blank,
    lemma_board_cells,
    lemma_dead_stays,
    lemma_gaps,
    lemma_lines_collapse,
    lemma_place,
    lemma_slide_cells,
    lemma_slide_score,
    lemma_slide_valid,
    lemma_valid_caps,
    moved,
    pair_at,
    place,
    roomy,
    row_total,
    score,
    seeded,
    slide,
    spawned,
    spawned_at,
    tiled,
    valid,
    with_cell,
};
use crate::merge::{collapse, ints, lemma_collapse_shape, nonneg, settle, sum, within};
use crate::random::random_below;
use crate::room::{count, is_tile, lemma_count_four, lemma_pow2_order, tiles_or_gaps, top_exponent};
use vstd::arithmetic::power2::{lemma2_to64, lemma_pow2_unfold, pow2};

verus! {

/// The cells of the board, row by row from the top, each row from the left.
/// 0 is a gap.
pub type Grid = [[i32; 4]; 4];

/// What a player can ask for.
#[derive(Clone, Copy, Debug, PartialEq, Eq, Structural)]
pub enum Command {
    /// Slide the tiles to the left.
    Left,
    /// Slide the tiles to the top.
    Up,
    /// Slide the tiles to the right.
    Right,
    /// Slide the tiles to the bottom.
    Down,
    /// Do nothing.
    Nil,
}

/// The four values as a line.
pub open spec fn line_of(a: i32, b: i32, c: i32, d: i32) -> Seq<int> {
    seq![a as int, b as int, c as int, d as int]
}

/// Collapses the line `a, b, c, d`, scanned from `d` to `a`, and fills it up
/// with gaps behind the tiles that are left.
fn settle_four(a: i32, b: i32, c: i32, d: i32) -> (out: [i32; 4])
    requires
        nonneg(line_of(a, b, c, d)),
        within(collapse(line_of(a, b, c, d)), i32::MAX as int),
    ensures
        ints(out@) == settle(line_of(a, b, c, d)),
{
    let line = vec![a, b, c, d];
    proof {
        assert(ints(line@) =~= line_of(a, b, c, d));
        lemma_collapse_shape(line_of(a, b, c, d));
    }
    let mut res = sum(line);
    let ghost left = res@;
    while res.len() < 4
        invariant
            left.len() <= res.len() <= 4,
            forall|i: int| 0 <= i < left.len() ==> res[i] == left[i],
            forall|i: int| left.len() <= i < res.len() ==> res[i] == 0,
        decreases 4 - res.len(),
    {
        res.push(0);
    }
    let out = [res[0], res[1], res[2], res[3]];
    proof {
        assert(ints(out@) =~= settle(line_of(a, b, c, d)));
    }
    out
}

/// Whether `v` is a power of two from 2 on.
pub fn is_tile_value(v: i32) -> (r: bool)
    ensures
        r == is_tile(v as int),
{
    let mut t: i32 = 2;
    let mut k: u32 = 1;
    proof {
        lemma2_to64();
    }
    while k < 30
        invariant
            1 <= k <= 30,
            t == pow2(k as nat),
            forall|j: nat| 1 <= j < k ==> v != #[trigger] pow2(j),
        decreases 30 - k,
    {
        if v == t {
            return true;
        }
        proof {
            lemma_pow2_unfold((k + 1) as nat);
            lemma_pow2_order((k + 1) as nat, 30);
            lemma2_to64();
        }
        t = t * 2;
        k += 1;
    }
    proof {
        if v != t {
            assert forall|j: nat| 1 <= j implies v != #[trigger] pow2(j) by {
                if j > 30 {
                    lemma_pow2_order(31, j);
                    lemma2_to64();
                }
            }
        }
    }
    v == t
}

/// How many of the four values are at least `t`.
fn count_in_row(row: &[i32; 4], t: i32) -> (n: usize)
    ensures
        n == count(ints(row@), t as int),
        n <= 4,
{
    proof {
        lemma_count_four(ints(row@), t as int);
    }
    let mut n: usize = 0;
    if row[0] >= t {
        n += 1;
    }
    if row[1] >= t {
        n += 1;
    }
    if row[2] >= t {
        n += 1;
    }
    if row[3] >= t {
        n += 1;
    }
    n
}

/// Whether the cells make up a board that play can lead to: each one a gap
/// or a power of two from 2 on, and for each exponent `e` from 1 to 18 at most
/// `18 - e` of them at `2^e` or above.
pub fn playable(grid: &Grid) -> (ok: bool)
    ensures
        ok == valid(board(*grid)),
{
    let ghost b = board(*grid);
    proof {
        lemma_board_cells(*grid);
        assert forall|r: int| 0 <= r < 4 implies #[trigger] b[r] =~= ints(grid[r]@) by {}
    }
    let mut i: usize = 0;
    while i < 4
        invariant
            i <= 4,
            b == board(*grid),
            forall|r: int| 0 <= r < i ==> tiles_or_gaps(#[trigger] b[r]),
        decreases 4 - i,
    {
        let mut j: usize = 0;
        while j < 4
            invariant
                i < 4,
                j <= 4,
                b == board(*grid),
                forall|r: int| 0 <= r < i ==> tiles_or_gaps(#[trigger] b[r]),
                forall|c: int|
                    0 <= c < j ==> (#[trigger] b[i as int][c]) == 0 || is_tile(b[i as int][c]),
            decreases 4 - j,
        {
            proof {
                lemma_board_cells(*grid);
            }
            let v = grid[i][j];
            if v != 0 && !is_tile_value(v) {
                proof {
                    assert(!tiles_or_gaps(b[i as int])) by {
                        assert(b[i as int][j as int] == v);
                    }
                }
                return false;
            }
            j += 1;
        }
        i += 1;
    }
    assert(tiled(b));
    let mut e: usize = 1;
    let mut t: i32 = 2;
    proof {
        lemma2_to64();
    }
    while e <= 18
        invariant
            1 <= e <= 19,
            t == pow2(e as nat),
            b == board(*grid),
            forall|r: int| 0 <= r < 4 ==> #[trigger] b[r] == ints(grid[r]@),
            forall|d: nat|
                1 <= d < e ==> count(b[0], #[trigger] pow2(d) as int) + count(b[1], pow2(d) as int)
                    + count(b[2], pow2(d) as int) + count(b[3], pow2(d) as int) + d
                    <= top_exponent(),
        decreases 19 - e,
    {
        let held = count_in_row(&grid[0], t) + count_in_row(&grid[1], t) + count_in_row(
            &grid[2],
            t,
        ) + count_in_row(&grid[3], t);
        proof {
            assert(b[0] == ints(grid[0]@) && b[1] == ints(grid[1]@) && b[2] == ints(grid[2]@)
                && b[3] == ints(grid[3]@));
        }
        if held + e > 18 {
            proof {
                assert(!roomy(b)) by {
                    assert(count(b[0], pow2(e as nat) as int) + count(b[1], pow2(e as nat) as int)
                        + count(b[2], pow2(e as nat) as int) + count(b[3], pow2(e as nat) as int)
                        + e > top_exponent());
                }
            }
            return false;
        }
        proof {
            lemma_pow2_unfold((e + 1) as nat);
            lemma_pow2_order((e + 1) as nat, 19);
            lemma2_to64();
        }
        t = t * 2;
        e += 1;
    }
    assert(roomy(b));
    true
}

/// The board: sixteen cells, each a gap or a tile.
pub struct Panel {
    grid: Grid,
}

impl View for Panel {
    type V = Seq<Seq<int>>;

    closed spec fn view(&self) -> Seq<Seq<int>> {
        board(self.grid)
    }
}

impl Panel {
    /// The board is one that play can lead to.
    pub open spec fn wf(&self) -> bool {
        valid(self@)
    }

    /// A board without tiles.
    pub fn new() -> (p: Panel)
        ensures
            p.wf(),
            p@ == blank(),
    {
        let p = Panel { grid: [[0; 4]; 4] };
        proof {
            lemma_blank();
            assert(p@ =~~= blank());
        }
        p
    }

    /// The board with the cells of `grid`, if they make up a board that play
    /// can lead to.
    pub fn with_grid(grid: Grid) -> (out: Option<Panel>)
        ensures
            out is Some <==> valid(board(grid)),
            out matches Some(p) ==> p.wf() && p@ == board(grid),
    {
        if playable(&grid) {
            Some(Panel { grid })
        } else {
            None
        }
    }

    /// Clears the board and puts two new tiles on it.
    pub fn init(&mut self)
        ensures
            final(self).wf(),
            seeded(final(self)@),
    {
        self.grid = [[0; 4]; 4];
        proof {
            lemma_blank();
            assert(self@ =~~= blank());
            assert(gap_at(blank(), 0, 0));
        }
        self.random_insert();
        let ghost first = self@;
        proof {
            assert(has_gap(first)) by {
                if first[0][0] == 0 {
                    assert(gap_at(first, 0, 0));
                } else {
                    let (r, c) = choose|r: int, c: int| #[trigger] spawned_at(blank(), first, r, c);
                    assert(r == 0 && c == 0);
                    assert(gap_at(first, 0, 1));
                }
            }
        }
        self.random_insert();
        proof {
            assert(spawned(first, self@));
        }
    }

    /// The cells of the board.
    pub fn get_grid(&self) -> (g: Grid)
        ensures
            board(g) == self@,
    {
        self.grid
    }

    /// The gaps of the board as pairs of row and column, row by row from the
    /// top and in each row from the left.
    pub fn empty_cells(&self) -> (cells: Vec<(usize, usize)>)
        ensures
            cells@.map_values(|p: (usize, usize)| (p.0 as int, p.1 as int)) == gaps(self@),
    {
        let mut cells: Vec<(usize, usize)> = Vec::new();
        let ghost b = self@;
        let mut i: usize = 0;
        proof {
            lemma_board_cells(self.grid);
            assert(cells@.map_values(|p: (usize, usize)| (p.0 as int, p.1 as int)) =~= gaps_before(
                b,
                0,
            ));
        }
        while i < 4
            invariant
                i <= 4,
                b == board(self.grid),
                cells@.map_values(|p: (usize, usize)| (p.0 as int, p.1 as int)) == gaps_before(
                    b,
                    (4 * i) as nat,
                ),
            decreases 4 - i,
        {
            let mut j: usize = 0;
            while j < 4
                invariant
                    i < 4,
                    j <= 4,
                    b == board(self.grid),
                    cells@.map_values(|p: (usize, usize)| (p.0 as int, p.1 as int)) == gaps_before(
                        b,
                        (4 * i + j) as nat,
                    ),
                decreases 4 - j,
            {
                let ghost before = cells@.map_values(|p: (usize, usize)| (p.0 as int, p.1 as int));
                proof {
                    lemma_board_cells(self.grid);
                    assert((4 * i + j) / 4 == i && (4 * i + j) % 4 == j);
                    assert((4 * i + j + 1 - 1) as nat == (4 * i + j) as nat);
                }
                if self.grid[i][j] == 0 {
                    cells.push((i, j));
                    proof {
                        assert(cells@.map_values(|p: (usize, usize)| (p.0 as int, p.1 as int))
                            =~= before.push((i as int, j as int)));
                    }
                }
                j += 1;
            }
            i += 1;
        }
        cells
    }

    /// Puts a new tile into the gap that `pick` counts, in the order of
    /// `empty_cells` and from 0: a 2 if `draw` is below 6, else a 4. If `pick`
    /// counts no gap, nothing changes. Says whether a tile was placed.
    pub fn place_tile(&mut self, pick: usize, draw: usize) -> (placed: bool)
        requires
            old(self).wf(),
        ensures
            final(self).wf(),
            placed == (pick < gaps(old(self)@).len()),
            final(self)@ == place(old(self)@, pick as int, draw as int),
    {
        let cells = self.empty_cells();
        let ghost b = self@;
        proof {
            lemma_gaps(b);
            lemma_place(b, pick as int, draw as int);
        }
        if pick < cells.len() {
            let (i, j) = cells[pick];
            let tile: i32 = if draw < 6 {
                2
            } else {
                4
            };
            proof {
                let p = gaps(b)[pick as int];
                assert(cells@.map_values(|p: (usize, usize)| (p.0 as int, p.1 as int))[pick as int]
                    == (i as int, j as int));
                assert(p == (i as int, j as int));
            }
            self.grid[i][j] = tile;
            proof {
                lemma_board_cells(old(self).grid);
                lemma_board_cells(self.grid);
                assert(self@ =~~= with_cell(b, i as int, j as int, tile as int));
            }
            true
        } else {
            false
        }
    }

    /// Puts a new tile into one of the gaps, each gap being as likely as any
    /// other: a 2 six times in ten, else a 4. On a full board nothing changes.
    pub fn random_insert(&mut self)
        requires
            old(self).wf(),
        ensures
            final(self).wf(),
            has_gap(old(self)@) ==> spawned(old(self)@, final(self)@),
            !has_gap(old(self)@) ==> final(self)@ == old(self)@,
    {
        let open = self.empty_cells().len();
        proof {
            lemma_gaps(self@);
        }
        if open == 0 {
            return ;
        }
        let pick = random_below(open);
        let draw = random_below(10);
        proof {
            lemma_place(self@, pick as int, draw as int);
        }
        self.place_tile(pick, draw);
    }

    /// Whether the game can go on: a gap is left, or two cells next to each
    /// other hold the same value.
    pub fn check_alive(&self) -> (r: bool)
        ensures
            r == alive(self@),
    {
        let ghost b = self@;
        proof {
            lemma_board_cells(self.grid);
        }
        let mut i: usize = 0;
        while i < 4
            invariant
                i <= 4,
                b == board(self.grid),
                forall|r: int, c: int| 0 <= r < i && 0 <= c < 4 ==> !#[trigger] gap_at(b, r, c),
            decreases 4 - i,
        {
            let mut j: usize = 0;
            while j < 4
                invariant
                    i < 4,
                    j <= 4,
                    b == board(self.grid),
                    forall|r: int, c: int| 0 <= r < i && 0 <= c < 4 ==> !#[trigger] gap_at(b, r, c),
                    forall|c: int| 0 <= c < j ==> !#[trigger] gap_at(b, i as int, c),
                decreases 4 - j,
            {
                proof {
                    lemma_board_cells(self.grid);
                }
                if self.grid[i][j] == 0 {
                    proof {
                        assert(gap_at(b, i as int, j as int));
                    }
                    return true;
                }
                j += 1;
            }
            i += 1;
        }
        assert(!has_gap(b));
        let mut i: usize = 0;
        while i < 4
            invariant
                i <= 4,
                b == board(self.grid),
                forall|r: int, c: int| 0 <= r < i && 0 <= c < 4 ==> !#[trigger] pair_at(b, r, c),
            decreases 4 - i,
        {
            let mut j: usize = 0;
            while j < 4
                invariant
                    i < 4,
                    j <= 4,
                    b == board(self.grid),
                    forall|r: int, c: int|
                        0 <= r < i && 0 <= c < 4 ==> !#[trigger] pair_at(b, r, c),
                    forall|c: int| 0 <= c < j ==> !#[trigger] pair_at(b, i as int, c),
                decreases 4 - j,
            {
                proof {
                    lemma_board_cells(self.grid);
                }
                let x = self.grid[i][j];
                let left = j != 0 && self.grid[i][j - 1] == x;
                let up = i != 0 && self.grid[i - 1][j] == x;
                let right = j != 3 && self.grid[i][j + 1] == x;
                let down = i != 3 && self.grid[i + 1][j] == x;
                if left || up || right || down {
                    proof {
                        if left {
                            assert(pair_at(b, i as int, j - 1));
                        } else if up {
                            assert(pair_at(b, i - 1, j as int));
                        } else {
                            assert(pair_at(b, i as int, j as int));
                        }
                    }
                    return true;
                }
                j += 1;
            }
            i += 1;
        }
        assert(!has_pair(b));
        false
    }

    /// Slides the tiles as `cmd` asks and returns the cells as they then are.
    pub fn next_tick(&mut self, cmd: Command) -> (out: Grid)
        requires
            old(self).wf(),
        ensures
            final(self).wf(),
            final(self)@ == slide(old(self)@, cmd),
            score(final(self)@) == score(old(self)@),
            board(out) == final(self)@,
    {
        let mut grid = self.grid;
        let ghost b = self@;
        proof {
            lemma_board_cells(self.grid);
            lemma_valid_caps(b);
            lemma_slide_valid(b, cmd);
            lemma_slide_score(b, cmd);
        }
        match cmd {
            Command::Down => {
                let mut y: usize = 0;
                while y < 4
                    invariant
                        y <= 4,
                        cmd == Command::Down,
                        b == board(self.grid),
                        valid(b),
                        forall|r: int, c: int|
                            0 <= r < 4 && 0 <= c < y ==> #[trigger] grid[r][c] == slide(b, cmd)[r][c],
                        forall|r: int, c: int|
                            0 <= r < 4 && y <= c < 4 ==> #[trigger] grid[r][c] == self.grid[r][c],
                    decreases 4 - y,
                {
                    let ghost line = column(b, y as int);
                    proof {
                        lemma_board_cells(self.grid);
                        lemma_lines_collapse(b, y as int);
                        assert(line =~= line_of(
                            self.grid[0][y as int],
                            self.grid[1][y as int],
                            self.grid[2][y as int],
                            self.grid[3][y as int],
                        ));
                    }
                    let res = settle_four(
                        self.grid[0][y],
                        self.grid[1][y],
                        self.grid[2][y],
                        self.grid[3][y],
                    );
                    grid[0][y] = res[3];
                    grid[1][y] = res[2];
                    grid[2][y] = res[1];
                    grid[3][y] = res[0];
                    proof {
                        assert forall|r: int| 0 <= r < 4 implies #[trigger] grid[r][y as int]
                            == slide(b, cmd)[r][y as int] by {
                            lemma_slide_cells(b, cmd, r, y as int);
                            assert(ints(res@)[3 - r] == res[3 - r]);
                        }
                    }
                    y += 1;
                }
            },
            Command::Up => {
                let mut y: usize = 0;
                while y < 4
                    invariant
                        y <= 4,
                        cmd == Command::Up,
                        b == board(self.grid),
                        valid(b),
                        forall|r: int, c: int|
                            0 <= r < 4 && 0 <= c < y ==> #[trigger] grid[r][c] == slide(b, cmd)[r][c],
                        forall|r: int, c: int|
                            0 <= r < 4 && y <= c < 4 ==> #[trigger] grid[r][c] == self.grid[r][c],
                    decreases 4 - y,
                {
                    let ghost line = column(b, y as int).reverse();
                    proof {
                        lemma_board_cells(self.grid);
                        lemma_lines_collapse(b, y as int);
                        assert(line =~= line_of(
                            self.grid[3][y as int],
                            self.grid[2][y as int],
                            self.grid[1][y as int],
                            self.grid[0][y as int],
                        ));
                    }
                    let res = settle_four(
                        self.grid[3][y],
                        self.grid[2][y],
                        self.grid[1][y],
                        self.grid[0][y],
                    );
                    grid[0][y] = res[0];
                    grid[1][y] = res[1];
                    grid[2][y] = res[2];
                    grid[3][y] = res[3];
                    proof {
                        assert forall|r: int| 0 <= r < 4 implies #[trigger] grid[r][y as int]
                            == slide(b, cmd)[r][y as int] by {
                            lemma_slide_cells(b, cmd, r, y as int);
                            assert(ints(res@)[r] == res[r]);
                        }
                    }
                    y += 1;
                }
            },
            Command::Left => {
                let mut x: usize = 0;
                while x < 4
                    invariant
                        x <= 4,
                        cmd == Command::Left,
                        b == board(self.grid),
                        valid(b),
                        forall|r: int, c: int|
                            0 <= r < x && 0 <= c < 4 ==> #[trigger] grid[r][c] == slide(b, cmd)[r][c],
                        forall|r: int, c: int|
                            x <= r < 4 && 0 <= c < 4 ==> #[trigger] grid[r][c] == self.grid[r][c],
                    decreases 4 - x,
                {
                    let ghost line = b[x as int].reverse();
                    proof {
                        lemma_board_cells(self.grid);
                        lemma_lines_collapse(b, x as int);
                        assert(line =~= line_of(
                            self.grid[x as int][3],
                            self.grid[x as int][2],
                            self.grid[x as int][1],
                            self.grid[x as int][0],
                        ));
                    }
                    let res = settle_four(
                        self.grid[x][3],
                        self.grid[x][2],
                        self.grid[x][1],
                        self.grid[x][0],
                    );
                    grid[x][0] = res[0];
                    grid[x][1] = res[1];
                    grid[x][2] = res[2];
                    grid[x][3] = res[3];
                    proof {
                        assert forall|c: int| 0 <= c < 4 implies #[trigger] grid[x as int][c]
                            == slide(b, cmd)[x as int][c] by {
                            lemma_slide_cells(b, cmd, x as int, c);
                            assert(ints(res@)[c] == res[c]);
                        }
                    }
                    x += 1;
                }
            },
            Command::Right => {
                let mut x: usize = 0;
                while x < 4
                    invariant
                        x <= 4,
                        cmd == Command::Right,
                        b == board(self.grid),
                        valid(b),
                        forall|r: int, c: int|
                            0 <= r < x && 0 <= c < 4 ==> #[trigger] grid[r][c] == slide(b, cmd)[r][c],
                        forall|r: int, c: int|
                            x <= r < 4 && 0 <= c < 4 ==> #[trigger] grid[r][c] == self.grid[r][c],
                    decreases 4 - x,
                {
                    let ghost line = b[x as int];
                    proof {
                        lemma_board_cells(self.grid);
                        lemma_lines_collapse(b, x as int);
                        assert(line =~= line_of(
                            self.grid[x as int][0],
                            self.grid[x as int][1],
                            self.grid[x as int][2],
                            self.grid[x as int][3],
                        ));
                    }
                    let res = settle_four(
                        self.grid[x][0],
                        self.grid[x][1],
                        self.grid[x][2],
                        self.grid[x][3],
                    );
                    grid[x][0] = res[3];
                    grid[x][1] = res[2];
                    grid[x][2] = res[1];
                    grid[x][3] = res[0];
                    proof {
                        assert forall|c: int| 0 <= c < 4 implies #[trigger] grid[x as int][c]
                            == slide(b, cmd)[x as int][c] by {
                            lemma_slide_cells(b, cmd, x as int, c);
                            assert(ints(res@)[3 - c] == res[3 - c]);
                        }
                    }
                    x += 1;
                }
            },
            Command::Nil => {},
        }
        proof {
            lemma_board_cells(grid);
            assert(board(grid) =~~= slide(b, cmd));
        }
        self.grid = grid;
        self.grid
    }
}

/// A game: the board, and whether the last move left anything to do.
pub struct Game {
    alive: bool,
    panel: Panel,
}

impl View for Game {
    type V = Seq<Seq<int>>;

    closed spec fn view(&self) -> Seq<Seq<int>> {
        self.panel@
    }
}

impl Game {
    /// The board is one that play can lead to, and a game that is over is so
    /// because its board is not alive.
    pub open spec fn wf(&self) -> bool {
        valid(self@) && (!self.lives() ==> !alive(self@))
    }

    /// The game was alive when it was last looked at: when it was made, or
    /// after the tiles slid in the last move and before the new tile came.
    pub closed spec fn lives(&self) -> bool {
        self.alive
    }

    /// A game on a board without tiles.
    pub fn new() -> (g: Game)
        ensures
            g.wf(),
            g.lives(),
            g@ == blank(),
    {
        Game { alive: true, panel: Panel::new() }
    }

    /// A game on the cells of `grid`, if they make up a board that play can
    /// lead to. It is alive if that board is.
    pub fn with_grid(grid: Grid) -> (out: Option<Game>)
        ensures
            out is Some <==> valid(board(grid)),
            out matches Some(g) ==> g.wf() && g@ == board(grid) && g.lives() == alive(board(grid)),
    {
        match Panel::with_grid(grid) {
            Some(panel) => {
                let alive = panel.check_alive();
                Some(Game { alive, panel })
            },
            None => None,
        }
    }

    /// Starts the game anew: the board is cleared and gets its first two
    /// tiles.
    pub fn start(&mut self)
        ensures
            final(self).wf(),
            final(self).lives(),
            seeded(final(self)@),
    {
        self.panel.init();
        self.alive = true;
    }

    /// The sum of all cells.
    pub fn get_score(&self) -> (total: i32)
        requires
            self.wf(),
        ensures
            total == score(self@),
            total >= 0,
    {
        let grid = self.panel.get_grid();
        proof {
            lemma_board_cells(grid);
            lemma_valid_caps(self@);
        }
        let mut total: i32 = 0;
        let mut i: usize = 0;
        while i < 4
            invariant
                i <= 4,
                board(grid) == self@,
                valid(self@),
                0 <= total <= 524288 * i,
                total == (if i > 0 {
                    row_total(self@[0])
                } else {
                    0
                }) + (if i > 1 {
                    row_total(self@[1])
                } else {
                    0
                }) + (if i > 2 {
                    row_total(self@[2])
                } else {
                    0
                }) + (if i > 3 {
                    row_total(self@[3])
                } else {
                    0
                }),
            decreases 4 - i,
        {
            proof {
                lemma_board_cells(grid);
                lemma_valid_caps(self@);
            }
            let row = grid[i][0] + grid[i][1] + grid[i][2] + grid[i][3];
            total = total + row;
            i += 1;
        }
        total
    }

    /// Whether the game was alive when it was last looked at.
    pub fn is_alive(&self) -> (r: bool)
        ensures
            r == self.lives(),
    {
        self.alive
    }

    /// One move. `Nil` changes nothing at all. For any other command the
    /// tiles slide, the game is alive if the board then is, and if it is, a new
    /// tile comes into one of the gaps that are left, if there is one. A game
    /// that is over stays over, on the board it ended on.
    pub fn next_tick(&mut self, cmd: Command)
        requires
            old(self).wf(),
        ensures
            final(self).wf(),
            !old(self).lives() ==> final(self)@ == old(self)@ && !final(self).lives(),
            cmd == Command::Nil ==> final(self)@ == old(self)@ && final(self).lives() == old(
                self,
            ).lives(),
            cmd != Command::Nil ==> final(self).lives() == alive(slide(old(self)@, cmd)) && moved(
                old(self)@,
                cmd,
                final(self)@,
            ),
    {
        if cmd == Command::Nil {
            return ;
        }
        proof {
            if !self.lives() {
                lemma_dead_stays(self@, cmd);
            }
        }
        self.panel.next_tick(cmd);
        self.alive = self.panel.check_alive();
        if self.alive {
            self.panel.random_insert();
        }
    }

    /// The cells of the board.
    pub fn get_grid(&self) -> (g: Grid)
        ensures
            board(g) == self@,
    {
        self.panel.get_grid()
    }
}

} // verus!
