use crate::point::Point;
use crate::stone::Stone;
use vstd::prelude::*;

pub use crate::error::ReversiError;

verus! {

/// Side length of the board that `ArrayBasedBoard::new` makes.
pub const DEFAULT_BOARD_SIZE: usize = 8;

// ---------------------------------------------------------------------------
// The mathematical model of a grid: `g[y][x]` is the cell in column `x`, row `y`.
// ---------------------------------------------------------------------------

/// Column step of compass direction `d` (`0 <= d < 8`).
pub open spec fn dir_x(d: int) -> int {
    if d <= 2 {
        -1
    } else if d <= 4 {
        0
    } else {
        1
    }
}

/// Row step of compass direction `d` (`0 <= d < 8`).
pub open spec fn dir_y(d: int) -> int {
    if d == 0 || d == 3 || d == 5 {
        -1
    } else if d == 1 || d == 6 {
        0
    } else {
        1
    }
}

/// Coordinate `v` moved `i` steps along a unit step `dv` (one of -1, 0, 1).
pub open spec fn step(v: int, dv: int, i: int) -> int {
    if dv < 0 {
        v - i
    } else if dv > 0 {
        v + i
    } else {
        v
    }
}

pub open spec fn in_bounds(n: int, x: int, y: int) -> bool {
    0 <= x < n && 0 <= y < n
}

pub open spec fn at(g: Seq<Seq<Option<Stone>>>, x: int, y: int) -> Option<Stone> {
    g[y][x]
}

/// Every row is as long as the grid is tall.
pub open spec fn is_square(g: Seq<Seq<Option<Stone>>>) -> bool {
    forall|y: int| 0 <= y < g.len() ==> #[trigger] g[y].len() == g.len()
}

/// How many stones of `p`'s opponent lie in an unbroken line from the `i`-th
/// cell after `(x, y)` in direction `d`.
pub open spec fn run_len(g: Seq<Seq<Option<Stone>>>, x: int, y: int, d: int, p: Stone, i: int) -> nat
    decreases g.len() - i,
{
    if i < 1 || i >= g.len() {
        0
    } else if in_bounds(g.len() as int, step(x, dir_x(d), i), step(y, dir_y(d), i))
        && at(g, step(x, dir_x(d), i), step(y, dir_y(d), i)) == Some(p.opp()) {
        1 + run_len(g, x, y, d, p, i + 1)
    } else {
        0
    }
}

/// How many stones a stone of `p` at `(x, y)` turns over in direction `d`:
/// the opponent run next to it, if a stone of `p` closes it, else none.
pub open spec fn flips_dir(g: Seq<Seq<Option<Stone>>>, x: int, y: int, d: int, p: Stone) -> nat {
    let r = run_len(g, x, y, d, p, 1) as int;
    if r > 0 && in_bounds(g.len() as int, step(x, dir_x(d), r + 1), step(y, dir_y(d), r + 1))
        && at(g, step(x, dir_x(d), r + 1), step(y, dir_y(d), r + 1)) == Some(p) {
        r as nat
    } else {
        0
    }
}

/// `p` may play at `(x, y)`: the cell is on the board and empty, and some
/// direction has a run of opponent stones closed by a stone of `p`.
pub open spec fn legal(g: Seq<Seq<Option<Stone>>>, x: int, y: int, p: Stone) -> bool {
    &&& in_bounds(g.len() as int, x, y)
    &&& at(g, x, y) is None
    &&& exists|d: int| 0 <= d < 8 && #[trigger] flips_dir(g, x, y, d, p) > 0
}

/// The cells that a stone of `p` at `(x, y)` turns over in direction `d`,
/// nearest first.
pub open spec fn ray(g: Seq<Seq<Option<Stone>>>, x: int, y: int, d: int, p: Stone) -> Seq<(int, int)> {
    Seq::new(
        flips_dir(g, x, y, d, p),
        |i: int| (step(x, dir_x(d), i + 1), step(y, dir_y(d), i + 1)),
    )
}

/// The cells turned over in the directions before `k`, direction by direction.
pub open spec fn flippable_upto(g: Seq<Seq<Option<Stone>>>, x: int, y: int, p: Stone, k: int) -> Seq<(int, int)>
    decreases k,
{
    if k <= 0 {
        seq![]
    } else {
        flippable_upto(g, x, y, p, k - 1) + ray(g, x, y, k - 1, p)
    }
}

/// Every cell that a stone of `p` at `(x, y)` turns over.
pub open spec fn flippable(g: Seq<Seq<Option<Stone>>>, x: int, y: int, p: Stone) -> Seq<(int, int)> {
    flippable_upto(g, x, y, p, 8)
}

/// `g` with `p` written into `(x, y)` and into each of `cells`.
pub open spec fn paint(g: Seq<Seq<Option<Stone>>>, x: int, y: int, p: Stone, cells: Seq<(int, int)>) -> Seq<Seq<Option<Stone>>> {
    Seq::new(
        g.len(),
        |r: int|
            Seq::new(
                g[r].len(),
                |c: int|
                    if (c == x && r == y) || cells.contains((c, r)) {
                        Some(p)
                    } else {
                        g[r][c]
                    },
            ),
    )
}

/// The grid after `p` plays at `(x, y)`: that cell and every cell it turns
/// over hold `p`; the rest is as before.
pub open spec fn after_move(g: Seq<Seq<Option<Stone>>>, x: int, y: int, p: Stone) -> Seq<Seq<Option<Stone>>> {
    paint(g, x, y, p, flippable(g, x, y, p))
}

/// Why `p` may not play at `(x, y)`, if it may not: off the board, on a
/// stone, or with nothing to turn over.
pub open spec fn move_error(g: Seq<Seq<Option<Stone>>>, x: int, y: int, p: Stone) -> Option<ReversiError> {
    if !in_bounds(g.len() as int, x, y) {
        Some(ReversiError::IndexOutOfBound)
    } else if at(g, x, y) is Some {
        Some(ReversiError::StoneAlreadyPlaced)
    } else if !legal(g, x, y, p) {
        Some(ReversiError::InvalidMove)
    } else {
        None
    }
}

/// What a move of `p` reports, `h` being the grid after it: the final result
/// when the board is full; a skip of the opponent when it has no move and `p`
/// has one; the final result when neither has one; a win for `p` when the
/// opponent has no stone left; otherwise success.
pub open spec fn report(h: Seq<Seq<Option<Stone>>>, p: Stone) -> Result<(), ReversiError> {
    if is_full(h) {
        Err(outcome(h))
    } else if !has_move(h, p.opp()) {
        if !has_move(h, p) {
            Err(outcome(h))
        } else {
            Err(ReversiError::NextPlayerCantPutStone(p.opp()))
        }
    } else if count_cells(h, Some(p.opp())) == 0 {
        Err(ReversiError::GameOverWithWinner(p))
    } else {
        Ok(())
    }
}

/// What `p` playing at `(x, y)` on `g` returns.
pub open spec fn move_result(g: Seq<Seq<Option<Stone>>>, x: int, y: int, p: Stone) -> Result<(), ReversiError> {
    match move_error(g, x, y, p) {
        Some(e) => Err(e),
        None => report(after_move(g, x, y, p), p),
    }
}

/// Cells among the first `k` of `row` that hold `c`.
pub open spec fn count_row(row: Seq<Option<Stone>>, c: Option<Stone>, k: int) -> nat
    decreases k,
{
    if k <= 0 {
        0
    } else {
        count_row(row, c, k - 1) + if row[k - 1] == c {
            1nat
        } else {
            0nat
        }
    }
}

/// Cells in the first `r` rows of `g` that hold `c`.
pub open spec fn count_rows(g: Seq<Seq<Option<Stone>>>, c: Option<Stone>, r: int) -> nat
    decreases r,
{
    if r <= 0 {
        0
    } else {
        count_rows(g, c, r - 1) + count_row(g[r - 1], c, g[r - 1].len() as int)
    }
}

/// Cells of `g` that hold `c` (`None`: the empty cells).
pub open spec fn count_cells(g: Seq<Seq<Option<Stone>>>, c: Option<Stone>) -> nat {
    count_rows(g, c, g.len() as int)
}

/// No cell is empty.
pub open spec fn is_full(g: Seq<Seq<Option<Stone>>>) -> bool {
    forall|x: int, y: int| in_bounds(g.len() as int, x, y) ==> (#[trigger] at(g, x, y)) is Some
}

/// The end of a game on `g`: the side with more stones wins; equal counts draw.
pub open spec fn outcome(g: Seq<Seq<Option<Stone>>>) -> ReversiError {
    let black = count_cells(g, Some(Stone::Black));
    let white = count_cells(g, Some(Stone::White));
    if black > white {
        ReversiError::GameOverWithWinner(Stone::Black)
    } else if black < white {
        ReversiError::GameOverWithWinner(Stone::White)
    } else {
        ReversiError::GameOverWithDraw
    }
}

/// `p` has somewhere to play.
pub open spec fn has_move(g: Seq<Seq<Option<Stone>>>, p: Stone) -> bool {
    exists|x: int, y: int| #[trigger] legal(g, x, y, p)
}

/// The legal moves of `p` among the first `k` cells of row `y`, left to right.
pub open spec fn moves_in_row(g: Seq<Seq<Option<Stone>>>, p: Stone, y: int, k: int) -> Seq<(int, int)>
    decreases k,
{
    if k <= 0 {
        seq![]
    } else {
        moves_in_row(g, p, y, k - 1) + if legal(g, k - 1, y, p) {
            seq![(k - 1, y)]
        } else {
            seq![]
        }
    }
}

/// The legal moves of `p` in the first `r` rows, row by row.
pub open spec fn moves_upto(g: Seq<Seq<Option<Stone>>>, p: Stone, r: int) -> Seq<(int, int)>
    decreases r,
{
    if r <= 0 {
        seq![]
    } else {
        moves_upto(g, p, r - 1) + moves_in_row(g, p, r - 1, g.len() as int)
    }
}

/// Every legal move of `p`, in row-major order (row by row, left to right).
pub open spec fn legal_moves(g: Seq<Seq<Option<Stone>>>, p: Stone) -> Seq<(int, int)> {
    moves_upto(g, p, g.len() as int)
}

/// The opening position on a board of side `n`: the four centre cells hold
/// two stones of each side, alike on each diagonal; every other cell is empty.
pub open spec fn initial_grid(n: int) -> Seq<Seq<Option<Stone>>> {
    let h = n / 2;
    Seq::new(
        n as nat,
        |y: int|
            Seq::new(
                n as nat,
                |x: int|
                    if (x == h - 1 && y == h - 1) || (x == h && y == h) {
                        Some(Stone::White)
                    } else if (x == h && y == h - 1) || (x == h - 1 && y == h) {
                        Some(Stone::Black)
                    } else {
                        None
                    },
            ),
    )
}

pub open spec fn positions(v: Seq<Point>) -> Seq<(int, int)> {
    v.map_values(|q: Point| q.pos())
}

/// A board of side `n` with every cell empty.
pub open spec fn empty_grid(n: int) -> Seq<Seq<Option<Stone>>> {
    Seq::new(n as nat, |y: int| Seq::new(n as nat, |x: int| None))
}

/// A board of side `n` with every cell holding `v`.
pub open spec fn uniform_grid(n: int, v: Option<Stone>) -> Seq<Seq<Option<Stone>>> {
    Seq::new(n as nat, |y: int| Seq::new(n as nat, |x: int| v))
}

/// `g` with the four centre cells set as at the opening.
pub open spec fn with_opening(g: Seq<Seq<Option<Stone>>>) -> Seq<Seq<Option<Stone>>> {
    let h = g.len() / 2;
    g.update(h - 1, g[h - 1].update(h - 1, Some(Stone::White)).update(h as int, Some(Stone::Black)))
     .update(h as int, g[h as int].update(h - 1, Some(Stone::Black)).update(h as int, Some(Stone::White)))
}

/// The character that shows a cell: `B`, `W`, or `.` when empty.
pub open spec fn cell_char(c: Option<Stone>) -> char {
    match c {
        Some(Stone::Black) => 'B',
        Some(Stone::White) => 'W',
        None => '.',
    }
}

/// The first `k` cells of a row as text.
pub open spec fn row_text(row: Seq<Option<Stone>>, k: int) -> Seq<char>
    decreases k,
{
    if k <= 0 {
        seq![]
    } else {
        row_text(row, k - 1).push(cell_char(row[k - 1]))
    }
}

/// The first `r` rows of `g` as text, each row on a line of its own.
pub open spec fn grid_text(g: Seq<Seq<Option<Stone>>>, r: int) -> Seq<char>
    decreases r,
{
    if r <= 0 {
        seq![]
    } else {
        grid_text(g, r - 1) + row_text(g[r - 1], g[r - 1].len() as int).push('\n')
    }
}

// ---------------------------------------------------------------------------
// Facts about counting.
// ---------------------------------------------------------------------------

proof fn lemma_count_row_bound(row: Seq<Option<Stone>>, c: Option<Stone>, k: int)
    requires
        0 <= k,
    ensures
        count_row(row, c, k) <= k,
    decreases k,
{
    if k > 0 {
        lemma_count_row_bound(row, c, k - 1);
    }
}

proof fn lemma_count_rows_bound(g: Seq<Seq<Option<Stone>>>, c: Option<Stone>, r: int)
    requires
        is_square(g),
        0 <= r <= g.len(),
    ensures
        count_rows(g, c, r) <= r * g.len(),
    decreases r,
{
    if r > 0 {
        lemma_count_rows_bound(g, c, r - 1);
        lemma_count_row_bound(g[r - 1], c, g[r - 1].len() as int);
        assert((r - 1) * g.len() + g.len() == r * g.len()) by (nonlinear_arith);
    }
}

/// Each of the first `k` cells holds exactly one of: Black, White, nothing.
proof fn lemma_count_row_partition(row: Seq<Option<Stone>>, k: int)
    requires
        0 <= k,
    ensures
        count_row(row, Some(Stone::Black), k) + count_row(row, Some(Stone::White), k) + count_row(row, None, k) == k,
    decreases k,
{
    if k > 0 {
        lemma_count_row_partition(row, k - 1);
        match row[k - 1] {
            Some(Stone::Black) => {},
            Some(Stone::White) => {},
            None => {},
        }
    }
}

proof fn lemma_count_rows_partition(g: Seq<Seq<Option<Stone>>>, r: int)
    requires
        is_square(g),
        0 <= r <= g.len(),
    ensures
        count_rows(g, Some(Stone::Black), r) + count_rows(g, Some(Stone::White), r) + count_rows(g, None, r) == r * g.len(),
    decreases r,
{
    if r > 0 {
        lemma_count_rows_partition(g, r - 1);
        assert(g[r - 1].len() == g.len());
        lemma_count_row_partition(g[r - 1], g.len() as int);
        assert((r - 1) * g.len() + g.len() == r * g.len()) by (nonlinear_arith);
    } else {
        assert(r * g.len() == 0) by (nonlinear_arith) requires r == 0;
    }
}

proof fn lemma_count_row_none(row: Seq<Option<Stone>>, k: int)
    requires
        0 <= k <= row.len(),
    ensures
        count_row(row, None, k) == 0 <==> forall|x: int| 0 <= x < k ==> (#[trigger] row[x]) is Some,
    decreases k,
{
    if k > 0 {
        lemma_count_row_none(row, k - 1);
    }
}

proof fn lemma_count_rows_none(g: Seq<Seq<Option<Stone>>>, r: int)
    requires
        is_square(g),
        0 <= r <= g.len(),
    ensures
        count_rows(g, None, r) == 0 <==> forall|x: int, y: int|
            0 <= y < r && 0 <= x < g.len() ==> (#[trigger] at(g, x, y)) is Some,
    decreases r,
{
    if r > 0 {
        lemma_count_rows_none(g, r - 1);
        lemma_count_row_none(g[r - 1], g.len() as int);
        if count_rows(g, None, r) == 0 {
            assert forall|x: int, y: int| 0 <= y < r && 0 <= x < g.len() implies (#[trigger] at(g, x, y)) is Some by {
                if y < r - 1 {
                } else {
                    assert(g[r - 1][x] is Some);
                }
            }
        } else if count_rows(g, None, r - 1) != 0 {
        } else {
            let x = choose|x: int| 0 <= x < g.len() && !(#[trigger] g[r - 1][x] is Some);
            assert(!(at(g, x, r - 1) is Some));
        }
    }
}

/// The board is full exactly when the stones of the two sides fill all its cells.
proof fn lemma_full_iff_counts(g: Seq<Seq<Option<Stone>>>)
    requires
        is_square(g),
    ensures
        is_full(g) <==> count_cells(g, Some(Stone::Black)) + count_cells(g, Some(Stone::White)) == g.len() * g.len(),
{
    lemma_count_rows_partition(g, g.len() as int);
    lemma_count_rows_none(g, g.len() as int);
}

proof fn lemma_count_row_update(row: Seq<Option<Stone>>, c: Option<Stone>, k: int, i: int, v: Option<Stone>)
    requires
        0 <= i < row.len(),
        0 <= k <= row.len(),
    ensures
        count_row(row.update(i, v), c, k) + (if i < k && row[i] == c { 1int } else { 0int })
            == count_row(row, c, k) + (if i < k && v == c { 1int } else { 0int }),
    decreases k,
{
    if k > 0 {
        lemma_count_row_update(row, c, k - 1, i, v);
    }
}

/// Writing `v` into one cell: the count of `c` loses that cell's old content
/// and gains `v`.
proof fn lemma_count_rows_update(g: Seq<Seq<Option<Stone>>>, c: Option<Stone>, r: int, x: int, y: int, v: Option<Stone>)
    requires
        is_square(g),
        in_bounds(g.len() as int, x, y),
        0 <= r <= g.len(),
    ensures
        count_rows(g.update(y, g[y].update(x, v)), c, r) + (if y < r && g[y][x] == c { 1int } else { 0int })
            == count_rows(g, c, r) + (if y < r && v == c { 1int } else { 0int }),
    decreases r,
{
    if r > 0 {
        lemma_count_rows_update(g, c, r - 1, x, y, v);
        let g2 = g.update(y, g[y].update(x, v));
        if r - 1 == y {
            lemma_count_row_update(g[y], c, g.len() as int, x, v);
        } else {
            assert(g2[r - 1] == g[r - 1]);
        }
    }
}

proof fn lemma_count_empty(n: int, c: Option<Stone>)
    requires
        0 <= n,
    ensures
        count_cells(empty_grid(n), c) == if c is None { n * n } else { 0 },
{
    let g = empty_grid(n);
    assert forall|r: int| 0 <= r <= n implies #[trigger] count_rows(g, c, r) == if c is None { r * n } else { 0 } by {
        lemma_count_rows_empty(n, c, r);
    }
}

proof fn lemma_count_rows_empty(n: int, c: Option<Stone>, r: int)
    requires
        0 <= r <= n,
    ensures
        count_rows(empty_grid(n), c, r) == if c is None { r * n } else { 0 },
    decreases r,
{
    if r > 0 {
        lemma_count_rows_empty(n, c, r - 1);
        lemma_count_row_empty(n, c, n);
        assert((r - 1) * n + n == r * n) by (nonlinear_arith);
    }
}

proof fn lemma_count_row_empty(n: int, c: Option<Stone>, k: int)
    requires
        0 <= k <= n,
    ensures
        count_row(Seq::new(n as nat, |x: int| None::<Stone>), c, k) == if c is None { k } else { 0 },
    decreases k,
{
    if k > 0 {
        lemma_count_row_empty(n, c, k - 1);
    }
}

// ---------------------------------------------------------------------------
// Walking along a direction.
// ---------------------------------------------------------------------------

/// The unit steps of direction `d`, as (column, row).
fn direction(d: usize) -> (r: (i8, i8))
    requires
        d < 8,
    ensures
        r.0 as int == dir_x(d as int),
        r.1 as int == dir_y(d as int),
{
    if d == 0 {
        (-1, -1)
    } else if d == 1 {
        (-1, 0)
    } else if d == 2 {
        (-1, 1)
    } else if d == 3 {
        (0, -1)
    } else if d == 4 {
        (0, 1)
    } else if d == 5 {
        (1, -1)
    } else if d == 6 {
        (1, 0)
    } else {
        (1, 1)
    }
}

/// Coordinate `v` moved `i` steps along `dv`, if that stays in `0..n`.
fn advance(v: usize, dv: i8, i: usize, n: usize) -> (r: Option<usize>)
    requires
        v < n,
        -1 <= dv <= 1,
    ensures
        match r {
            Some(w) => w as int == step(v as int, dv as int, i as int) && w < n,
            None => !(0 <= step(v as int, dv as int, i as int) < n),
        },
{
    if dv < 0 {
        if i <= v {
            Some(v - i)
        } else {
            None
        }
    } else if dv > 0 {
        if i < n - v {
            Some(v + i)
        } else {
            None
        }
    } else {
        Some(v)
    }
}

/// From a cell on the board, `n` or more steps in any direction leave it.
proof fn lemma_far_step_leaves(n: int, x: int, y: int, d: int, i: int)
    requires
        in_bounds(n, x, y),
        0 <= d < 8,
        i >= n,
    ensures
        !in_bounds(n, step(x, dir_x(d), i), step(y, dir_y(d), i)),
{
}

/// The cells of a run hold opponent stones.
proof fn lemma_run_cells(g: Seq<Seq<Option<Stone>>>, x: int, y: int, d: int, p: Stone, i: int, j: int)
    requires
        1 <= i <= j < i + run_len(g, x, y, d, p, i),
    ensures
        in_bounds(g.len() as int, step(x, dir_x(d), j), step(y, dir_y(d), j)),
        at(g, step(x, dir_x(d), j), step(y, dir_y(d), j)) == Some(p.opp()),
    decreases j - i,
{
    if j > i {
        lemma_run_cells(g, x, y, d, p, i + 1, j);
    }
}

/// The cells that direction `d` turns over hold opponent stones, and the
/// starting cell is not among them.
proof fn lemma_ray_cells(g: Seq<Seq<Option<Stone>>>, x: int, y: int, d: int, p: Stone, k: int)
    requires
        0 <= d < 8,
        0 <= k < flips_dir(g, x, y, d, p),
    ensures
        in_bounds(g.len() as int, ray(g, x, y, d, p)[k].0, ray(g, x, y, d, p)[k].1),
        at(g, ray(g, x, y, d, p)[k].0, ray(g, x, y, d, p)[k].1) == Some(p.opp()),
        ray(g, x, y, d, p)[k] != (x, y),
{
    lemma_run_cells(g, x, y, d, p, 1, k + 1);
}

/// Coordinate `v` moved `i` steps along `dv`, where that is known to be a valid index.
fn offset(v: usize, dv: i8, i: usize) -> (r: usize)
    requires
        -1 <= dv <= 1,
        0 <= step(v as int, dv as int, i as int) <= usize::MAX,
    ensures
        r as int == step(v as int, dv as int, i as int),
{
    if dv < 0 {
        v - i
    } else if dv > 0 {
        v + i
    } else {
        v
    }
}

/// Rays from one cell meet only where they are the same ray, at the same distance.
proof fn lemma_rays_disjoint(x: int, y: int, d1: int, i: int, d2: int, j: int)
    requires
        0 <= d1 < 8,
        0 <= d2 < 8,
        i >= 1,
        j >= 1,
        step(x, dir_x(d1), i) == step(x, dir_x(d2), j),
        step(y, dir_y(d1), i) == step(y, dir_y(d2), j),
    ensures
        d1 == d2,
        i == j,
{
}

/// Where the `m`-th cell of `flippable_upto(.., k)` comes from: a direction
/// before `k` and a distance within what that direction turns over.
proof fn lemma_flippable_source(g: Seq<Seq<Option<Stone>>>, x: int, y: int, p: Stone, k: int, m: int) -> (r: (int, int))
    requires
        0 <= k <= 8,
        0 <= m < flippable_upto(g, x, y, p, k).len(),
    ensures
        0 <= r.0 < k,
        1 <= r.1 <= flips_dir(g, x, y, r.0, p),
        flippable_upto(g, x, y, p, k)[m] == (step(x, dir_x(r.0), r.1), step(y, dir_y(r.0), r.1)),
    decreases k,
{
    let prev = flippable_upto(g, x, y, p, k - 1);
    if m < prev.len() {
        lemma_flippable_source(g, x, y, p, k - 1, m)
    } else {
        (k - 1, m - prev.len() + 1)
    }
}

/// No cell is turned over twice.
proof fn lemma_flippable_distinct(g: Seq<Seq<Option<Stone>>>, x: int, y: int, p: Stone, k: int)
    requires
        0 <= k <= 8,
    ensures
        flippable_upto(g, x, y, p, k).no_duplicates(),
    decreases k,
{
    if k > 0 {
        lemma_flippable_distinct(g, x, y, p, k - 1);
        let s = flippable_upto(g, x, y, p, k);
        assert forall|a: int, b: int| 0 <= a < s.len() && 0 <= b < s.len() && a != b implies s[a] != s[b] by {
            let ra = lemma_flippable_source(g, x, y, p, k, a);
            let rb = lemma_flippable_source(g, x, y, p, k, b);
            if s[a] == s[b] {
                lemma_rays_disjoint(x, y, ra.0, ra.1, rb.0, rb.1);
                let prev = flippable_upto(g, x, y, p, k - 1);
                if a < prev.len() && b < prev.len() {
                    assert(prev[a] == s[a] && prev[b] == s[b]);
                } else if a >= prev.len() && b >= prev.len() {
                } else if a < prev.len() {
                    let q = lemma_flippable_source(g, x, y, p, k - 1, a);
                    assert(prev[a] == s[a]);
                    lemma_rays_disjoint(x, y, q.0, q.1, rb.0, rb.1);
                } else {
                    let q = lemma_flippable_source(g, x, y, p, k - 1, b);
                    assert(prev[b] == s[b]);
                    lemma_rays_disjoint(x, y, ra.0, ra.1, q.0, q.1);
                }
            }
        }
    }
}

/// Every cell turned over is on the board, holds an opponent stone, and is
/// not the cell played.
proof fn lemma_flippable_cells(g: Seq<Seq<Option<Stone>>>, x: int, y: int, p: Stone, m: int)
    requires
        0 <= m < flippable(g, x, y, p).len(),
    ensures
        in_bounds(g.len() as int, flippable(g, x, y, p)[m].0, flippable(g, x, y, p)[m].1),
        at(g, flippable(g, x, y, p)[m].0, flippable(g, x, y, p)[m].1) == Some(p.opp()),
        flippable(g, x, y, p)[m] != (x, y),
{
    let r = lemma_flippable_source(g, x, y, p, 8, m);
    lemma_ray_cells(g, x, y, r.0, p, r.1 - 1);
}

// ---------------------------------------------------------------------------
// Facts about the list of legal moves.
// ---------------------------------------------------------------------------

proof fn lemma_moves_in_row(g: Seq<Seq<Option<Stone>>>, p: Stone, y: int, k: int)
    requires
        0 <= k,
    ensures
        forall|m: int| 0 <= m < moves_in_row(g, p, y, k).len() ==> {
            let q = #[trigger] moves_in_row(g, p, y, k)[m];
            q.1 == y && 0 <= q.0 < k && legal(g, q.0, y, p)
        },
        forall|c: int| 0 <= c < k && legal(g, c, y, p) ==> moves_in_row(g, p, y, k).contains((c, y)),
    decreases k,
{
    if k > 0 {
        lemma_moves_in_row(g, p, y, k - 1);
        let prev = moves_in_row(g, p, y, k - 1);
        let cur = moves_in_row(g, p, y, k);
        assert forall|c: int| 0 <= c < k && legal(g, c, y, p) implies cur.contains((c, y)) by {
            if c < k - 1 {
                let m = choose|m: int| 0 <= m < prev.len() && prev[m] == (c, y);
                assert(cur[m] == (c, y));
            } else {
                assert(cur[cur.len() - 1] == (c, y));
            }
        }
        assert forall|m: int| 0 <= m < cur.len() implies {
            let q = #[trigger] cur[m];
            q.1 == y && 0 <= q.0 < k && legal(g, q.0, y, p)
        } by {
            if m < prev.len() {
                assert(cur[m] == prev[m]);
            }
        }
    }
}

/// The first `r` rows' list holds exactly the legal moves of those rows.
proof fn lemma_moves_upto(g: Seq<Seq<Option<Stone>>>, p: Stone, r: int)
    requires
        0 <= r <= g.len(),
    ensures
        forall|m: int| 0 <= m < moves_upto(g, p, r).len() ==> {
            let q = #[trigger] moves_upto(g, p, r)[m];
            0 <= q.1 < r && legal(g, q.0, q.1, p)
        },
        forall|c: int, y: int| 0 <= y < r && legal(g, c, y, p) ==> moves_upto(g, p, r).contains((c, y)),
    decreases r,
{
    if r > 0 {
        lemma_moves_upto(g, p, r - 1);
        lemma_moves_in_row(g, p, r - 1, g.len() as int);
        let prev = moves_upto(g, p, r - 1);
        let row = moves_in_row(g, p, r - 1, g.len() as int);
        let cur = moves_upto(g, p, r);
        assert forall|c: int, y: int| 0 <= y < r && legal(g, c, y, p) implies cur.contains((c, y)) by {
            if y < r - 1 {
                let m = choose|m: int| 0 <= m < prev.len() && prev[m] == (c, y);
                assert(cur[m] == (c, y));
            } else {
                let m = choose|m: int| 0 <= m < row.len() && row[m] == (c, y);
                assert(cur[prev.len() + m] == (c, y));
            }
        }
        assert forall|m: int| 0 <= m < cur.len() implies {
            let q = #[trigger] cur[m];
            0 <= q.1 < r && legal(g, q.0, q.1, p)
        } by {
            if m < prev.len() {
                assert(cur[m] == prev[m]);
            } else {
                assert(cur[m] == row[m - prev.len()]);
            }
        }
    }
}

/// The list of legal moves holds exactly the legal moves; so it is empty
/// exactly when there is none.
pub proof fn lemma_legal_moves(g: Seq<Seq<Option<Stone>>>, p: Stone)
    ensures
        forall|m: int| 0 <= m < legal_moves(g, p).len() ==> legal(g, (#[trigger] legal_moves(g, p)[m]).0, legal_moves(g, p)[m].1, p),
        forall|x: int, y: int| legal(g, x, y, p) ==> legal_moves(g, p).contains((x, y)),
        legal_moves(g, p).len() == 0 <==> !has_move(g, p),
{
    lemma_moves_upto(g, p, g.len() as int);
    let l = legal_moves(g, p);
    if l.len() > 0 {
        let q = l[0];
        assert(legal(g, q.0, q.1, p));
    }
    if has_move(g, p) {
        let (x, y) = choose|x: int, y: int| #[trigger] legal(g, x, y, p);
        assert(l.contains((x, y)));
    }
}

// ---------------------------------------------------------------------------
// Laws of a move. `ArrayBasedBoard::put_stone` returns `move_result` and
// leaves the board as it was whenever `move_error` is `Some`.
// ---------------------------------------------------------------------------

/// A move onto a stone is refused with `StoneAlreadyPlaced`.
pub proof fn lemma_occupied_refused(g: Seq<Seq<Option<Stone>>>, x: int, y: int, p: Stone)
    requires
        in_bounds(g.len() as int, x, y),
        at(g, x, y) is Some,
    ensures
        move_error(g, x, y, p) == Some(ReversiError::StoneAlreadyPlaced),
        move_result(g, x, y, p) == Err::<(), ReversiError>(ReversiError::StoneAlreadyPlaced),
{
}

/// A move off the board is refused with `IndexOutOfBound`.
pub proof fn lemma_out_of_range_refused(g: Seq<Seq<Option<Stone>>>, x: int, y: int, p: Stone)
    requires
        !in_bounds(g.len() as int, x, y),
    ensures
        move_error(g, x, y, p) == Some(ReversiError::IndexOutOfBound),
        move_result(g, x, y, p) == Err::<(), ReversiError>(ReversiError::IndexOutOfBound),
{
}

/// A move onto an empty cell that encloses nothing in any direction is
/// refused with `InvalidMove`.
pub proof fn lemma_enclosing_nothing_refused(g: Seq<Seq<Option<Stone>>>, x: int, y: int, p: Stone)
    requires
        in_bounds(g.len() as int, x, y),
        at(g, x, y) is None,
        forall|d: int| 0 <= d < 8 ==> #[trigger] flips_dir(g, x, y, d, p) == 0,
    ensures
        move_error(g, x, y, p) == Some(ReversiError::InvalidMove),
        move_result(g, x, y, p) == Err::<(), ReversiError>(ReversiError::InvalidMove),
{
}

/// A side with a legal move has an empty cell to play on, so the board is not full.
pub proof fn lemma_move_means_not_full(g: Seq<Seq<Option<Stone>>>, p: Stone)
    requires
        has_move(g, p),
    ensures
        !is_full(g),
{
    let (x, y) = choose|x: int, y: int| #[trigger] legal(g, x, y, p);
    assert(at(g, x, y) is None);
}

/// After a move that leaves the opponent without a legal move while the mover
/// still has one, the result is that the opponent must pass.
pub proof fn lemma_forced_pass(g: Seq<Seq<Option<Stone>>>, x: int, y: int, p: Stone)
    requires
        move_error(g, x, y, p) is None,
        !has_move(after_move(g, x, y, p), p.opp()),
        has_move(after_move(g, x, y, p), p),
    ensures
        move_result(g, x, y, p) == Err::<(), ReversiError>(ReversiError::NextPlayerCantPutStone(p.opp())),
{
    lemma_move_means_not_full(after_move(g, x, y, p), p);
}

/// After a move that leaves neither side a legal move, the game ends, decided
/// by the stone counts alone.
pub proof fn lemma_double_pass_ends(g: Seq<Seq<Option<Stone>>>, x: int, y: int, p: Stone)
    requires
        move_error(g, x, y, p) is None,
        !has_move(after_move(g, x, y, p), p.opp()),
        !has_move(after_move(g, x, y, p), p),
    ensures
        move_result(g, x, y, p) == Err::<(), ReversiError>(outcome(after_move(g, x, y, p))),
        outcome(after_move(g, x, y, p)) == if count_cells(after_move(g, x, y, p), Some(Stone::Black)) > count_cells(after_move(g, x, y, p), Some(Stone::White)) {
            ReversiError::GameOverWithWinner(Stone::Black)
        } else if count_cells(after_move(g, x, y, p), Some(Stone::Black)) < count_cells(after_move(g, x, y, p), Some(Stone::White)) {
            ReversiError::GameOverWithWinner(Stone::White)
        } else {
            ReversiError::GameOverWithDraw
        },
{
}

// ---------------------------------------------------------------------------
// The board.
// ---------------------------------------------------------------------------

/// A square grid of cells, each empty or holding a stone, stored row by row.
#[derive(Debug)]
pub struct ArrayBasedBoard {
    board: Vec<Vec<Option<Stone>>>,
}

impl View for ArrayBasedBoard {
    type V = Seq<Seq<Option<Stone>>>;

    closed spec fn view(&self) -> Seq<Seq<Option<Stone>>> {
        self.board@.map_values(|row: Vec<Option<Stone>>| row@)
    }
}

impl Default for ArrayBasedBoard {
    fn default() -> (r: Self)
        ensures
            r.wf(),
            r@ == empty_grid(DEFAULT_BOARD_SIZE as int),
    {
        Self::new()
    }
}

impl ArrayBasedBoard {
    /// The grid is square, its side even and at least 4, and its number of
    /// cells fits in a `usize`.
    pub open spec fn wf(&self) -> bool {
        let n = self@.len();
        &&& is_square(self@)
        &&& n % 2 == 0
        &&& n >= 4
        &&& n * n <= usize::MAX
    }

    /// An empty board of the default size.
    pub fn new() -> (r: Self)
        ensures
            r.wf(),
            r@ == empty_grid(DEFAULT_BOARD_SIZE as int),
    {
        Self::with_size(DEFAULT_BOARD_SIZE)
    }

    /// An empty board of side `size`, which must be even and at least 4.
    pub fn with_size(size: usize) -> (r: Self)
        requires
            size % 2 == 0,
            size >= 4,
            size * size <= usize::MAX,
        ensures
            r.wf(),
            r@ == empty_grid(size as int),
    {
        let mut rows: Vec<Vec<Option<Stone>>> = Vec::new();
        let mut y: usize = 0;
        while y < size
            invariant
                y <= size,
                rows@.len() == y,
                forall|j: int| 0 <= j < y ==> (#[trigger] rows@[j])@ == Seq::new(size as nat, |x: int| None::<Stone>),
            decreases size - y,
        {
            let mut row: Vec<Option<Stone>> = Vec::new();
            let mut x: usize = 0;
            while x < size
                invariant
                    x <= size,
                    row@ == Seq::new(x as nat, |i: int| None::<Stone>),
                decreases size - x,
            {
                row.push(None);
                x += 1;
                proof {
                    assert(row@ =~= Seq::new(x as nat, |i: int| None::<Stone>));
                }
            }
            rows.push(row);
            y += 1;
        }
        let r = ArrayBasedBoard { board: rows };
        assert(r@ =~= empty_grid(size as int));
        r
    }

    /// Side length of the grid.
    pub fn size(&self) -> (r: usize)
        ensures
            r == self@.len(),
    {
        self.board.len()
    }

    /// The rows of the grid.
    pub fn board(&self) -> (r: &Vec<Vec<Option<Stone>>>)
        ensures
            r@.map_values(|row: Vec<Option<Stone>>| row@) == self@,
    {
        &self.board
    }

    /// Whether `(x, y)` names a cell of the board.
    pub fn in_range(&self, x: usize, y: usize) -> (r: bool)
        requires
            self.wf(),
        ensures
            r == in_bounds(self@.len() as int, x as int, y as int),
    {
        x < self.board.len() && y < self.board.len()
    }

    /// The content of cell `(x, y)`; `None` also when it is off the board.
    pub fn get_at(&self, x: usize, y: usize) -> (r: Option<Stone>)
        requires
            self.wf(),
        ensures
            r == if in_bounds(self@.len() as int, x as int, y as int) {
                at(self@, x as int, y as int)
            } else {
                None
            },
    {
        if self.in_range(x, y) {
            self.board[y][x]
        } else {
            None
        }
    }

    /// The number of stones of `player` on the board.
    pub fn count(&self, player: Stone) -> (r: usize)
        requires
            self.wf(),
        ensures
            r == count_cells(self@, Some(player)),
    {
        let n = self.board.len();
        let ghost g = self@;
        let mut total: usize = 0;
        let mut y: usize = 0;
        while y < n
            invariant
                self.wf(),
                g == self@,
                n == g.len(),
                y <= n,
                total == count_rows(g, Some(player), y as int),
            decreases n - y,
        {
            let row = &self.board[y];
            assert(row@ == g[y as int]);
            proof {
                lemma_count_rows_bound(g, Some(player), y as int);
                assert((y + 1) * n <= n * n) by (nonlinear_arith)
                    requires
                        y < n,
                ;
                assert(y * n + n == (y + 1) * n) by (nonlinear_arith);
            }
            let mut x: usize = 0;
            while x < n
                invariant
                    self.wf(),
                    g == self@,
                    n == g.len(),
                    y < n,
                    x <= n,
                    row@ == g[y as int],
                    row@.len() == n,
                    count_rows(g, Some(player), y as int) <= y * n,
                    (y + 1) * n <= n * n,
                    y * n + n == (y + 1) * n,
                    n * n <= usize::MAX,
                    total == count_rows(g, Some(player), y as int) + count_row(g[y as int], Some(player), x as int),
                decreases n - x,
            {
                proof {
                    lemma_count_row_bound(g[y as int], Some(player), x as int);
                }
                match row[x] {
                    Some(s) => {
                        if s == player {
                            total += 1;
                        }
                    },
                    None => {},
                }
                x += 1;
            }
            y += 1;
        }
        total
    }

    /// Whether every cell holds a stone.
    pub fn is_game_over(&self) -> (r: bool)
        requires
            self.wf(),
        ensures
            r == is_full(self@),
    {
        let n = self.board.len();
        proof {
            lemma_full_iff_counts(self@);
            lemma_count_rows_partition(self@, n as int);
        }
        self.count(Stone::Black) + self.count(Stone::White) == n * n
    }
}

impl ArrayBasedBoard {
    /// How many stones a stone of `player` at `(x, y)` turns over in direction `d`.
    fn flips_in_direction(&self, x: usize, y: usize, d: usize, player: Stone) -> (r: usize)
        requires
            self.wf(),
            in_bounds(self@.len() as int, x as int, y as int),
            d < 8,
        ensures
            r == flips_dir(self@, x as int, y as int, d as int, player),
    {
        let n = self.board.len();
        let ghost g = self@;
        let (dx, dy) = direction(d);
        let opp = player.opposite();
        let mut i: usize = 1;
        loop
            invariant
                self.wf(),
                g == self@,
                n == g.len(),
                in_bounds(n as int, x as int, y as int),
                d < 8,
                dx as int == dir_x(d as int),
                dy as int == dir_y(d as int),
                opp == player.opp(),
                1 <= i,
                run_len(g, x as int, y as int, d as int, player, 1) == (i - 1) + run_len(g, x as int, y as int, d as int, player, i as int),
            decreases n - i,
        {
            if i >= n {
                proof {
                    lemma_far_step_leaves(n as int, x as int, y as int, d as int, i as int);
                }
                return 0;
            }
            match (advance(x, dx, i, n), advance(y, dy, i, n)) {
                (Some(cx), Some(cy)) => {
                    let cell = self.board[cy][cx];
                    assert(cell == at(g, cx as int, cy as int));
                    match cell {
                        Some(s) => {
                            if s == opp {
                                i += 1;
                            } else {
                                return i - 1;
                            }
                        },
                        None => {
                            return 0;
                        },
                    }
                },
                _ => {
                    return 0;
                },
            }
        }
    }

    /// Whether `player` may play at `(x, y)`.
    pub fn check_can_put(&self, x: usize, y: usize, player: Stone) -> (r: bool)
        requires
            self.wf(),
        ensures
            r == legal(self@, x as int, y as int, player),
    {
        if !self.in_range(x, y) {
            return false;
        }
        if self.get_at(x, y).is_some() {
            return false;
        }
        let mut d: usize = 0;
        while d < 8
            invariant
                self.wf(),
                in_bounds(self@.len() as int, x as int, y as int),
                at(self@, x as int, y as int) is None,
                d <= 8,
                forall|e: int| 0 <= e < d ==> #[trigger] flips_dir(self@, x as int, y as int, e, player) == 0,
            decreases 8 - d,
        {
            if self.flips_in_direction(x, y, d, player) > 0 {
                return true;
            }
            d += 1;
        }
        false
    }
}

/// The cells that a stone of `player` at `(x, y)` would turn over, direction
/// by direction, nearest first.
pub fn get_flippable(board: &ArrayBasedBoard, x: usize, y: usize, player: Stone) -> (r: Vec<Point>)
    requires
        board.wf(),
        in_bounds(board@.len() as int, x as int, y as int),
    ensures
        positions(r@) == flippable(board@, x as int, y as int, player),
{
    let ghost g = board@;
    let n = board.size();
    let mut result: Vec<Point> = Vec::new();
    let mut d: usize = 0;
    while d < 8
        invariant
            board.wf(),
            g == board@,
            n == g.len(),
            in_bounds(g.len() as int, x as int, y as int),
            d <= 8,
            positions(result@) == flippable_upto(g, x as int, y as int, player, d as int),
        decreases 8 - d,
    {
        let k = board.flips_in_direction(x, y, d, player);
        let (dx, dy) = direction(d);
        let ghost before = result@;
        let ghost r = ray(g, x as int, y as int, d as int, player);
        let mut i: usize = 0;
        assert(positions(result@) =~= positions(before) + r.take(0));
        while i < k
            invariant
                board.wf(),
                g == board@,
                n == g.len(),
                in_bounds(g.len() as int, x as int, y as int),
                d < 8,
                k == flips_dir(g, x as int, y as int, d as int, player),
                r == ray(g, x as int, y as int, d as int, player),
                dx as int == dir_x(d as int),
                dy as int == dir_y(d as int),
                i <= k,
                positions(result@) == positions(before) + r.take(i as int),
            decreases k - i,
        {
            proof {
                lemma_ray_cells(g, x as int, y as int, d as int, player, i as int);
                assert(r[i as int] == (step(x as int, dir_x(d as int), i + 1), step(y as int, dir_y(d as int), i + 1)));
            }
            let cx = offset(x, dx, i + 1);
            let cy = offset(y, dy, i + 1);
            let ghost prev = result@;
            result.push(Point::new(cx, cy));
            i += 1;
            proof {
                assert(positions(result@) =~= positions(prev).push(r[i - 1]));
                assert(positions(prev) + r.take(i as int) =~= (positions(prev) + r.take(i - 1)).push(r[i - 1]));
                assert(positions(result@) =~= positions(before) + r.take(i as int));
            }
        }
        d += 1;
        proof {
            assert(r.take(k as int) =~= r);
        }
    }
    result
}

impl ArrayBasedBoard {
    /// Writes `v` into cell `(x, y)`.
    fn set_cell(&mut self, x: usize, y: usize, v: Option<Stone>)
        requires
            old(self).wf(),
            in_bounds(old(self)@.len() as int, x as int, y as int),
        ensures
            final(self).wf(),
            final(self)@ == old(self)@.update(y as int, old(self)@[y as int].update(x as int, v)),
    {
        let ghost g = self@;
        assert(self.board@[y as int]@ == g[y as int]);
        self.board[y][x] = v;
        assert(self@ =~~= g.update(y as int, g[y as int].update(x as int, v)));
    }

    /// Turns the stone at `(x, y)` over.
    pub fn flip(&mut self, x: usize, y: usize) -> (r: Result<(), ReversiError>)
        requires
            old(self).wf(),
        ensures
            final(self).wf(),
            !in_bounds(old(self)@.len() as int, x as int, y as int) ==> r == Err::<(), ReversiError>(ReversiError::IndexOutOfBound) && final(self)@ == old(self)@,
            in_bounds(old(self)@.len() as int, x as int, y as int) ==> match at(old(self)@, x as int, y as int) {
                None => r == Err::<(), ReversiError>(ReversiError::NoStoneToFlip) && final(self)@ == old(self)@,
                Some(s) => r is Ok && final(self)@ == old(self)@.update(y as int, old(self)@[y as int].update(x as int, Some(s.opp()))),
            },
    {
        if !self.in_range(x, y) {
            return Err(ReversiError::IndexOutOfBound);
        }
        match self.get_at(x, y) {
            None => Err(ReversiError::NoStoneToFlip),
            Some(s) => {
                self.set_cell(x, y, Some(s.opposite()));
                Ok(())
            },
        }
    }

    /// The end of the game as the board stands: the side with more stones
    /// wins, equal counts draw.
    pub fn winner(&self) -> (r: Result<(), ReversiError>)
        requires
            self.wf(),
        ensures
            r == Err::<(), ReversiError>(outcome(self@)),
    {
        let black = self.count(Stone::Black);
        let white = self.count(Stone::White);
        if black > white {
            Err(ReversiError::GameOverWithWinner(Stone::Black))
        } else if black < white {
            Err(ReversiError::GameOverWithWinner(Stone::White))
        } else {
            Err(ReversiError::GameOverWithDraw)
        }
    }

    /// Every legal move of `player`, row by row and left to right.
    pub fn get_can_put_stones(&self, player: Stone) -> (r: Vec<Point>)
        requires
            self.wf(),
        ensures
            positions(r@) == legal_moves(self@, player),
    {
        let n = self.board.len();
        let ghost g = self@;
        let mut result: Vec<Point> = Vec::new();
        let mut y: usize = 0;
        while y < n
            invariant
                self.wf(),
                g == self@,
                n == g.len(),
                y <= n,
                positions(result@) == moves_upto(g, player, y as int),
            decreases n - y,
        {
            let mut x: usize = 0;
            assert(moves_in_row(g, player, y as int, 0) =~= seq![]);
            assert(positions(result@) =~= moves_upto(g, player, y as int) + moves_in_row(g, player, y as int, 0));
            while x < n
                invariant
                    self.wf(),
                    g == self@,
                    n == g.len(),
                    y < n,
                    x <= n,
                    positions(result@) == moves_upto(g, player, y as int) + moves_in_row(g, player, y as int, x as int),
                decreases n - x,
            {
                let ghost prev = result@;
                if self.check_can_put(x, y, player) {
                    result.push(Point::new(x, y));
                    assert(positions(result@) =~= positions(prev).push((x as int, y as int)));
                }
                x += 1;
                assert(positions(result@) =~= moves_upto(g, player, y as int) + moves_in_row(g, player, y as int, x as int));
            }
            y += 1;
        }
        result
    }
}

impl ArrayBasedBoard {
    /// What a move of `player` reports on the board as it now stands.
    fn report(&self, player: Stone) -> (r: Result<(), ReversiError>)
        requires
            self.wf(),
        ensures
            r == report(self@, player),
    {
        if self.is_game_over() {
            return self.winner();
        }
        let opp = player.opposite();
        let opp_moves = self.get_can_put_stones(opp);
        proof {
            lemma_legal_moves(self@, opp);
            lemma_legal_moves(self@, player);
        }
        if opp_moves.len() == 0 {
            let own_moves = self.get_can_put_stones(player);
            if own_moves.len() == 0 {
                return self.winner();
            }
            return Err(ReversiError::NextPlayerCantPutStone(opp));
        }
        if self.count(opp) == 0 {
            return Err(ReversiError::GameOverWithWinner(player));
        }
        Ok(())
    }

    /// `player` plays at `(x, y)`: the move is checked, the stone placed, and
    /// every stone it encloses turned over; the result says how play goes on.
    pub fn put_stone(&mut self, x: usize, y: usize, player: Stone) -> (r: Result<(), ReversiError>)
        requires
            old(self).wf(),
        ensures
            final(self).wf(),
            r == move_result(old(self)@, x as int, y as int, player),
            move_error(old(self)@, x as int, y as int, player) is Some ==> final(self)@ == old(self)@,
            move_error(old(self)@, x as int, y as int, player) is None ==> {
                let g = old(self)@;
                let h = final(self)@;
                let f = flippable(g, x as int, y as int, player).len();
                &&& h == after_move(g, x as int, y as int, player)
                &&& count_cells(h, Some(player)) == count_cells(g, Some(player)) + 1 + f
                &&& count_cells(h, Some(player.opp())) + f == count_cells(g, Some(player.opp()))
                &&& count_cells(h, None) + 1 == count_cells(g, None)
            },
    {
        let ghost g = self@;
        let n = self.board.len();
        if x >= n || y >= n {
            return Err(ReversiError::IndexOutOfBound);
        }
        if self.board[y][x].is_some() {
            return Err(ReversiError::StoneAlreadyPlaced);
        }
        if !self.check_can_put(x, y, player) {
            return Err(ReversiError::InvalidMove);
        }
        let to_flip = get_flippable(self, x, y, player);
        let ghost fl = flippable(g, x as int, y as int, player);
        let ghost opp = player.opp();
        proof {
            lemma_flippable_distinct(g, x as int, y as int, player, 8);
            lemma_count_rows_update(g, Some(player), n as int, x as int, y as int, Some(player));
            lemma_count_rows_update(g, Some(opp), n as int, x as int, y as int, Some(player));
            lemma_count_rows_update(g, None, n as int, x as int, y as int, Some(player));
        }
        self.set_cell(x, y, Some(player));
        assert(self@ =~~= paint(g, x as int, y as int, player, fl.take(0)));
        let mut k: usize = 0;
        while k < to_flip.len()
            invariant
                self.wf(),
                g.len() == n,
                is_square(g),
                self@.len() == n,
                in_bounds(n as int, x as int, y as int),
                fl == flippable(g, x as int, y as int, player),
                positions(to_flip@) == fl,
                fl.no_duplicates(),
                opp == player.opp(),
                k <= to_flip@.len(),
                self@ == paint(g, x as int, y as int, player, fl.take(k as int)),
                count_cells(self@, Some(player)) == count_cells(g, Some(player)) + 1 + k,
                count_cells(self@, Some(opp)) + k == count_cells(g, Some(opp)),
                count_cells(self@, None) + 1 == count_cells(g, None),
            decreases to_flip@.len() - k,
        {
            let q = to_flip[k];
            let ghost before = self@;
            proof {
                lemma_flippable_cells(g, x as int, y as int, player, k as int);
                assert(fl[k as int] == q.pos());
                assert(!fl.take(k as int).contains(q.pos())) by {
                    if fl.take(k as int).contains(q.pos()) {
                        let j = choose|j: int| 0 <= j < k && fl.take(k as int)[j] == q.pos();
                        assert(fl[j] == fl[k as int]);
                    }
                }
                assert(at(before, q.x as int, q.y as int) == Some(opp));
                lemma_count_rows_update(before, Some(player), n as int, q.x as int, q.y as int, Some(player));
                lemma_count_rows_update(before, Some(opp), n as int, q.x as int, q.y as int, Some(player));
                lemma_count_rows_update(before, None, n as int, q.x as int, q.y as int, Some(player));
            }
            let flipped = self.flip(q.x, q.y);
            assert(flipped is Ok);
            k += 1;
            proof {
                let cur = fl.take(k as int);
                let prev = fl.take(k - 1);
                assert(cur =~= prev.push(q.pos()));
                assert forall|c: int, r: int| #![auto] cur.contains((c, r)) <==> (prev.contains((c, r)) || (c, r) == q.pos()) by {
                    if cur.contains((c, r)) {
                        let j = choose|j: int| 0 <= j < cur.len() && cur[j] == (c, r);
                        if j < prev.len() {
                            assert(prev[j] == (c, r));
                        }
                    }
                    if prev.contains((c, r)) {
                        let j = choose|j: int| 0 <= j < prev.len() && prev[j] == (c, r);
                        assert(cur[j] == (c, r));
                    }
                    if (c, r) == q.pos() {
                        assert(cur[k - 1] == (c, r));
                    }
                }
                assert(self@ =~~= paint(g, x as int, y as int, player, cur));
            }
        }
        assert(fl.take(fl.len() as int) =~= fl);
        self.report(player)
    }
}

impl ArrayBasedBoard {
    /// How many stones a stone of `player` at `(x, y)` would turn over; 0 off the board.
    pub fn count_flippable(&self, x: usize, y: usize, player: Stone) -> (r: usize)
        requires
            self.wf(),
        ensures
            r == if in_bounds(self@.len() as int, x as int, y as int) {
                flippable(self@, x as int, y as int, player).len()
            } else {
                0
            },
    {
        if !self.in_range(x, y) {
            return 0;
        }
        let cells = get_flippable(self, x, y, player);
        cells.len()
    }

    /// Sets the four centre cells as at the opening: White on one diagonal,
    /// Black on the other.
    pub fn init_four_central_squares(&mut self)
        requires
            old(self).wf(),
        ensures
            final(self).wf(),
            final(self)@ == with_opening(old(self)@),
            old(self)@ == empty_grid(old(self)@.len() as int) ==> {
                let n = old(self)@.len() as int;
                &&& final(self)@ == initial_grid(n)
                &&& count_cells(final(self)@, Some(Stone::Black)) == 2
                &&& count_cells(final(self)@, Some(Stone::White)) == 2
                &&& count_cells(final(self)@, None) == n * n - 4
            },
    {
        let ghost g0 = self@;
        let n = self.board.len();
        let half = n / 2;
        let ghost was_empty = g0 == empty_grid(n as int);
        proof {
            if was_empty {
                lemma_count_empty(n as int, Some(Stone::Black));
                lemma_count_empty(n as int, Some(Stone::White));
                lemma_count_empty(n as int, None);
            }
        }
        self.set_cell_counted(half - 1, half - 1, Stone::White);
        self.set_cell_counted(half, half - 1, Stone::Black);
        self.set_cell_counted(half - 1, half, Stone::Black);
        self.set_cell_counted(half, half, Stone::White);
        assert(self@ =~~= with_opening(g0));
        proof {
            if was_empty {
                assert(self@ =~~= initial_grid(n as int));
            }
        }
    }

    /// Writes a stone into `(x, y)`, with what that does to the counts.
    fn set_cell_counted(&mut self, x: usize, y: usize, s: Stone)
        requires
            old(self).wf(),
            in_bounds(old(self)@.len() as int, x as int, y as int),
        ensures
            final(self).wf(),
            final(self)@ == old(self)@.update(y as int, old(self)@[y as int].update(x as int, Some(s))),
            forall|c: Option<Stone>| #[trigger] count_cells(final(self)@, c) + (if at(old(self)@, x as int, y as int) == c { 1int } else { 0int })
                == count_cells(old(self)@, c) + (if Some(s) == c { 1int } else { 0int }),
    {
        let ghost g = self@;
        proof {
            assert forall|c: Option<Stone>| #[trigger] count_cells(g.update(y as int, g[y as int].update(x as int, Some(s))), c) + (if at(g, x as int, y as int) == c { 1int } else { 0int })
                == count_cells(g, c) + (if Some(s) == c { 1int } else { 0int }) by {
                lemma_count_rows_update(g, c, g.len() as int, x as int, y as int, Some(s));
            }
        }
        self.set_cell(x, y, Some(s));
    }

    /// Sets every cell to `cell`, to lay out a position.
    pub fn fill(&mut self, cell: Option<Stone>)
        requires
            old(self).wf(),
        ensures
            final(self).wf(),
            final(self)@ == uniform_grid(old(self)@.len() as int, cell),
    {
        let n = self.board.len();
        let ghost g = self@;
        let mut y: usize = 0;
        while y < n
            invariant
                self.wf(),
                n == self@.len(),
                y <= n,
                forall|r: int| 0 <= r < y ==> #[trigger] self@[r] == Seq::new(n as nat, |c: int| cell),
            decreases n - y,
        {
            let mut x: usize = 0;
            while x < n
                invariant
                    self.wf(),
                    n == self@.len(),
                    y < n,
                    x <= n,
                    forall|r: int| 0 <= r < y ==> #[trigger] self@[r] == Seq::new(n as nat, |c: int| cell),
                    forall|c: int| 0 <= c < x ==> #[trigger] self@[y as int][c] == cell,
                decreases n - x,
            {
                self.set_cell(x, y, cell);
                x += 1;
            }
            assert(self@[y as int] =~= Seq::new(n as nat, |c: int| cell));
            y += 1;
        }
        assert(self@ =~~= uniform_grid(n as int, cell));
    }

    /// Sets cell `(x, y)` to `cell`, to lay out a position.
    pub fn set_at(&mut self, x: usize, y: usize, cell: Option<Stone>) -> (r: Result<(), ReversiError>)
        requires
            old(self).wf(),
        ensures
            final(self).wf(),
            in_bounds(old(self)@.len() as int, x as int, y as int) ==> r is Ok && final(self)@ == old(self)@.update(y as int, old(self)@[y as int].update(x as int, cell)),
            !in_bounds(old(self)@.len() as int, x as int, y as int) ==> r == Err::<(), ReversiError>(ReversiError::IndexOutOfBound) && final(self)@ == old(self)@,
    {
        if !self.in_range(x, y) {
            return Err(ReversiError::IndexOutOfBound);
        }
        self.set_cell(x, y, cell);
        Ok(())
    }

    /// A separate board with the same cells.
    pub fn snapshot(&self) -> (r: Self)
        requires
            self.wf(),
        ensures
            r.wf(),
            r@ == self@,
    {
        let n = self.board.len();
        let mut rows: Vec<Vec<Option<Stone>>> = Vec::new();
        let mut y: usize = 0;
        while y < n
            invariant
                self.wf(),
                n == self@.len(),
                y <= n,
                rows@.len() == y,
                forall|j: int| 0 <= j < y ==> (#[trigger] rows@[j])@ == self@[j],
            decreases n - y,
        {
            let src = &self.board[y];
            assert(src@ == self@[y as int]);
            let mut row: Vec<Option<Stone>> = Vec::new();
            let mut x: usize = 0;
            while x < n
                invariant
                    n == self@.len(),
                    src@.len() == n,
                    x <= n,
                    row@ == src@.take(x as int),
                decreases n - x,
            {
                row.push(src[x]);
                x += 1;
                assert(row@ =~= src@.take(x as int));
            }
            assert(row@ =~= src@);
            rows.push(row);
            y += 1;
        }
        let r = ArrayBasedBoard { board: rows };
        assert(r@ =~~= self@);
        r
    }

    /// The board as text: one line per row, top row first, `B` and `W` for
    /// the stones and `.` for an empty cell.
    pub fn to_text(&self) -> (r: String)
        requires
            self.wf(),
        ensures
            r@ == grid_text(self@, self@.len() as int),
    {
        let n = self.board.len();
        let ghost g = self@;
        let mut text = String::new();
        let mut y: usize = 0;
        while y < n
            invariant
                self.wf(),
                g == self@,
                n == g.len(),
                y <= n,
                text@ == grid_text(g, y as int),
            decreases n - y,
        {
            let ghost start = text@;
            let row = &self.board[y];
            assert(row@ == g[y as int]);
            let mut x: usize = 0;
            while x < n
                invariant
                    n == g.len(),
                    y < n,
                    row@ == g[y as int],
                    row@.len() == n,
                    x <= n,
                    text@ == start + row_text(g[y as int], x as int),
                decreases n - x,
            {
                proof {
                    reveal_strlit("B");
                    reveal_strlit("W");
                    reveal_strlit(".");
                }
                match row[x] {
                    Some(Stone::Black) => text.append("B"),
                    Some(Stone::White) => text.append("W"),
                    None => text.append("."),
                }
                x += 1;
                assert(text@ =~= start + row_text(g[y as int], x as int));
            }
            proof {
                reveal_strlit("\n");
            }
            text.append("\n");
            y += 1;
            assert(text@ =~= grid_text(g, y as int));
        }
        text
    }
}

} // verus!
