use vstd::prelude::*;

use crate::board::Board;
use crate::point::{coords, Point};

verus! {

/// Each level lowers the fall interval by this share of the initial one.
pub const LEVEL_SCALE: u32 = 5;

/// Points per level.
pub const LEVEL_AT_SCORE: u32 = 150;

/// Fall interval, in milliseconds, at level 1.
pub const INITIAL_FALL_MS: u16 = 750;

/// Three to the power `n`.
pub open spec fn pow3(n: nat) -> nat
    decreases n,
{
    if n == 0 {
        1
    } else {
        3 * pow3((n - 1) as nat)
    }
}

/// Points granted for locking a piece that clears `rows` rows.
pub open spec fn points_for(rows: nat) -> nat {
    pow3(rows + 1)
}

/// The score after locking a piece that clears `rows` rows, held at `u32::MAX`.
pub open spec fn score_after(score: int, rows: nat) -> int {
    if score + points_for(rows) > u32::MAX {
        u32::MAX as int
    } else {
        score + points_for(rows)
    }
}

/// The level a score reaches: the score divided by `LEVEL_AT_SCORE`, rounded up, and at least 1.
pub open spec fn level_for(score: int) -> int {
    if score <= 0 {
        1
    } else {
        (score + LEVEL_AT_SCORE - 1) / (LEVEL_AT_SCORE as int)
    }
}

/// The fall interval at `level`: `INITIAL_FALL_MS / (1 + (level - 1) / LEVEL_SCALE)`, rounded down.
pub open spec fn fall_interval(level: int) -> int {
    (INITIAL_FALL_MS * LEVEL_SCALE) as int / (LEVEL_SCALE + level - 1)
}

/// Locking a piece that clears no row earns 3 points; one that clears two rows earns 27.
pub proof fn lemma_points_per_lock(score: int)
    requires
        0 <= score,
        score + 27 <= u32::MAX,
    ensures
        points_for(0) == 3,
        points_for(2) == 27,
        score_after(score, 0) == score + 3,
        score_after(score, 2) == score + 27,
{
    reveal_with_fuel(pow3, 4);
}

/// Scores up to 150 are level 1, scores above 150 up to 300 are level 2; level 1 falls
/// every 750 ms.
pub proof fn lemma_level_thresholds(score: int)
    ensures
        score <= 150 ==> level_for(score) == 1,
        150 < score <= 300 ==> level_for(score) == 2,
        fall_interval(1) == 750,
        fall_interval(2) == 625,
{
    assert(fall_interval(1) == 3750int / 5);
    assert(fall_interval(2) == 3750int / 6);
}

proof fn lemma_pow3_monotonic(a: nat, b: nat)
    requires
        a <= b,
    ensures
        pow3(a) <= pow3(b),
    decreases b - a,
{
    if a < b {
        lemma_pow3_monotonic(a, (b - 1) as nat);
    }
}

/// Whether some locked cell lies at (x, y).
pub open spec fn occupies(occ: Seq<Point>, x: int, y: int) -> bool {
    exists|j: int| 0 <= j < occ.len() && occ[j].x == x && occ[j].y == y
}

/// Whether cell `c`, moved by (dx, dy), hits the floor, a wall or a locked cell.
pub open spec fn cell_blocked(c: (int, int), dx: int, dy: int, board: Board, occ: Seq<Point>) -> bool {
    let x = c.0 + dx;
    let y = c.1 + dy;
    y == board.height || x == board.width || x == -1 || occupies(occ, x, y)
}

/// Whether any of `cells`, moved by (dx, dy), is blocked.
pub open spec fn blocked(cells: Seq<(int, int)>, dx: int, dy: int, board: Board, occ: Seq<Point>) -> bool {
    exists|i: int| 0 <= i < cells.len() && #[trigger] cell_blocked(cells[i], dx, dy, board, occ)
}

/// Cells that lie inside the walls, above the floor and on no locked cell are not blocked
/// where they stand.
pub proof fn lemma_placed_cells_not_blocked(cells: Seq<(int, int)>, board: Board, occ: Seq<Point>)
    requires
        forall|i: int|
            0 <= i < cells.len() ==> 0 <= (#[trigger] cells[i]).0 < board.width && cells[i].1
                < board.height && !occupies(occ, cells[i].0, cells[i].1),
    ensures
        !blocked(cells, 0, 0, board, occ),
{
    assert forall|i: int| 0 <= i < cells.len() implies !#[trigger] cell_blocked(cells[i], 0, 0, board, occ) by {
        assert(0 <= cells[i].0 < board.width);
    }
}

/// Number of locked cells in row `y`.
pub open spec fn row_count(occ: Seq<Point>, y: int) -> nat
    decreases occ.len(),
{
    if occ.len() == 0 {
        0
    } else {
        row_count(occ.drop_last(), y) + if occ.last().y == y { 1nat } else { 0nat }
    }
}

/// Row `y` lies on the board and holds as many cells as the board is wide.
pub open spec fn row_full(occ: Seq<Point>, board: Board, y: int) -> bool {
    0 <= y < board.height && row_count(occ, y) == board.width
}

/// Number of full rows among `lo..hi`.
pub open spec fn full_rows_in(occ: Seq<Point>, board: Board, lo: int, hi: int) -> nat
    decreases hi - lo,
{
    if hi <= lo {
        0
    } else {
        (if row_full(occ, board, lo) { 1nat } else { 0nat }) + full_rows_in(occ, board, lo + 1, hi)
    }
}

/// Number of full rows on the board.
pub open spec fn full_rows(occ: Seq<Point>, board: Board) -> nat {
    full_rows_in(occ, board, 0, board.height as int)
}

/// How far row `y` falls when the full rows are cleared: the number of full rows below it.
pub open spec fn row_shift(occ: Seq<Point>, board: Board, y: int) -> nat {
    full_rows_in(occ, board, y + 1, board.height as int)
}

/// Cell `p` moved down by the shift of its row.
pub open spec fn shifted(p: Point, occ: Seq<Point>, board: Board) -> Point {
    Point { y: (p.y + row_shift(occ, board, p.y as int)) as i16, ..p }
}

/// No two cells share a position.
pub open spec fn distinct_cells(s: Seq<Point>) -> bool {
    forall|i: int, j: int| 0 <= i < j < s.len() ==> !(s[i].x == s[j].x && s[i].y == s[j].y)
}

/// No cell lies above the top row.
pub open spec fn none_above(s: Seq<Point>) -> bool {
    forall|i: int| 0 <= i < s.len() ==> s[i].y >= 0
}

/// The cells of `cells` that are not in a full row of `occ`, each moved down by its row's shift.
pub open spec fn compact(cells: Seq<Point>, occ: Seq<Point>, board: Board) -> Seq<Point>
    decreases cells.len(),
{
    if cells.len() == 0 {
        Seq::empty()
    } else {
        let rest = compact(cells.drop_last(), occ, board);
        let p = cells.last();
        if row_full(occ, board, p.y as int) {
            rest
        } else {
            rest.push(shifted(p, occ, board))
        }
    }
}

proof fn lemma_row_count_bound(occ: Seq<Point>, y: int)
    ensures
        row_count(occ, y) <= occ.len(),
    decreases occ.len(),
{
    if occ.len() > 0 {
        lemma_row_count_bound(occ.drop_last(), y);
    }
}

proof fn lemma_full_rows_bound(occ: Seq<Point>, board: Board, lo: int, hi: int)
    ensures
        lo <= hi ==> full_rows_in(occ, board, lo, hi) <= hi - lo,
        hi <= lo ==> full_rows_in(occ, board, lo, hi) == 0,
    decreases hi - lo,
{
    if lo < hi {
        lemma_full_rows_bound(occ, board, lo + 1, hi);
    }
}

/// Rows above the board are never full, so they add nothing to the count.
proof fn lemma_full_rows_above(occ: Seq<Point>, board: Board, lo: int, hi: int)
    requires
        lo <= 0,
    ensures
        full_rows_in(occ, board, lo, hi) == full_rows_in(occ, board, 0, hi),
    decreases 0 - lo,
{
    if lo < 0 {
        lemma_full_rows_above(occ, board, lo + 1, hi);
    }
}

/// With no full row in `lo..hi`, every row of it is not full and no suffix holds one.
proof fn lemma_no_full_rows(occ: Seq<Point>, board: Board, lo: int, hi: int, y: int)
    requires
        full_rows_in(occ, board, lo, hi) == 0,
        lo <= y,
    ensures
        y < hi ==> !row_full(occ, board, y),
        full_rows_in(occ, board, y, hi) == 0,
    decreases y - lo,
{
    if lo < y {
        if lo < hi {
            lemma_no_full_rows(occ, board, lo + 1, hi, y);
        } else {
            lemma_full_rows_bound(occ, board, y, hi);
        }
    }
}

proof fn lemma_compact_identity(cells: Seq<Point>, occ: Seq<Point>, board: Board)
    requires
        full_rows(occ, board) == 0,
    ensures
        compact(cells, occ, board) == cells,
    decreases cells.len(),
{
    if cells.len() > 0 {
        lemma_compact_identity(cells.drop_last(), occ, board);
        let p = cells.last();
        let y = p.y as int;
        if 0 <= y + 1 {
            lemma_no_full_rows(occ, board, 0, board.height as int, y + 1);
        } else {
            lemma_full_rows_above(occ, board, y + 1, board.height as int);
        }
        if 0 <= y {
            lemma_no_full_rows(occ, board, 0, board.height as int, y);
        }
        assert(shifted(p, occ, board) == p);
        assert(cells.drop_last().push(p) =~= cells);
    }
}

proof fn lemma_full_rows_split(occ: Seq<Point>, board: Board, a: int, b: int, c: int)
    requires
        a <= b <= c,
    ensures
        full_rows_in(occ, board, a, c) == full_rows_in(occ, board, a, b) + full_rows_in(occ, board, b, c),
    decreases b - a,
{
    if a < b {
        lemma_full_rows_split(occ, board, a + 1, b, c);
    }
}

/// Rows that stay keep their order: a higher row never lands on or below a lower one.
proof fn lemma_shift_strict(occ: Seq<Point>, board: Board, y1: int, y2: int)
    requires
        y1 < y2,
        !row_full(occ, board, y2),
    ensures
        y1 + row_shift(occ, board, y1) < y2 + row_shift(occ, board, y2),
{
    let h = board.height as int;
    if y2 < h {
        lemma_full_rows_split(occ, board, y1 + 1, y2, h);
        lemma_full_rows_bound(occ, board, y1 + 1, y2);
    } else {
        lemma_full_rows_bound(occ, board, y1 + 1, h);
        lemma_full_rows_bound(occ, board, y2 + 1, h);
    }
}

/// A shifted row stays within `i16` and never rises.
proof fn lemma_shift_fits(occ: Seq<Point>, board: Board, y: int)
    requires
        board.wf(),
        i16::MIN <= y <= i16::MAX,
    ensures
        y <= y + row_shift(occ, board, y) <= i16::MAX,
{
    lemma_full_rows_bound(occ, board, y + 1, board.height as int);
}

proof fn lemma_compact_members(cells: Seq<Point>, occ: Seq<Point>, board: Board, k: int)
    requires
        0 <= k < compact(cells, occ, board).len(),
    ensures
        exists|i: int|
            0 <= i < cells.len() && !row_full(occ, board, cells[i].y as int) && compact(cells, occ, board)[k]
                == #[trigger] shifted(cells[i], occ, board),
    decreases cells.len(),
{
    let rest = compact(cells.drop_last(), occ, board);
    if k < rest.len() {
        lemma_compact_members(cells.drop_last(), occ, board, k);
        let i = choose|i: int|
            0 <= i < cells.drop_last().len() && !row_full(occ, board, cells.drop_last()[i].y as int)
                && rest[k] == #[trigger] shifted(cells.drop_last()[i], occ, board);
        assert(cells[i] == cells.drop_last()[i]);
    } else {
        assert(shifted(cells[cells.len() - 1], occ, board) == compact(cells, occ, board)[k]);
    }
}

proof fn lemma_compact_none_above(cells: Seq<Point>, occ: Seq<Point>, board: Board)
    requires
        board.wf(),
        none_above(cells),
    ensures
        none_above(compact(cells, occ, board)),
    decreases cells.len(),
{
    if cells.len() > 0 {
        assert(none_above(cells.drop_last()));
        lemma_compact_none_above(cells.drop_last(), occ, board);
        lemma_shift_fits(occ, board, cells.last().y as int);
    }
}

proof fn lemma_compact_distinct(cells: Seq<Point>, occ: Seq<Point>, board: Board)
    requires
        board.wf(),
        distinct_cells(cells),
    ensures
        distinct_cells(compact(cells, occ, board)),
    decreases cells.len(),
{
    if cells.len() > 0 {
        let d = cells.drop_last();
        let p = cells.last();
        let rest = compact(d, occ, board);
        assert(distinct_cells(d));
        lemma_compact_distinct(d, occ, board);
        if !row_full(occ, board, p.y as int) {
            let q = shifted(p, occ, board);
            lemma_shift_fits(occ, board, p.y as int);
            assert forall|k: int| 0 <= k < rest.len() implies !(rest[k].x == q.x && rest[k].y == q.y) by {
                lemma_compact_members(d, occ, board, k);
                let i = choose|i: int|
                    0 <= i < d.len() && !row_full(occ, board, d[i].y as int) && rest[k]
                        == #[trigger] shifted(d[i], occ, board);
                lemma_shift_fits(occ, board, d[i].y as int);
                if d[i].y < p.y {
                    lemma_shift_strict(occ, board, d[i].y as int, p.y as int);
                } else if d[i].y > p.y {
                    lemma_shift_strict(occ, board, p.y as int, d[i].y as int);
                } else {
                    assert(d[i] == cells[i]);
                }
            }
        }
    }
}

/// Clearing rows keeps locked cells apart and keeps them off the rows above the board.
pub proof fn lemma_clear_keeps_cells_apart(occ: Seq<Point>, board: Board)
    requires
        board.wf(),
    ensures
        distinct_cells(occ) ==> distinct_cells(compact(occ, occ, board)),
        none_above(occ) ==> none_above(compact(occ, occ, board)),
{
    if distinct_cells(occ) {
        lemma_compact_distinct(occ, occ, board);
    }
    if none_above(occ) {
        lemma_compact_none_above(occ, occ, board);
    }
}

/// The state of a game: the locked cells, the board, and score-driven speed.
pub struct GameController {
    pub occupied: Vec<Point>,
    pub score: u32,
    pub board: Board,
    pub level: u32,
    pub fall_ms: u16,
}

impl GameController {
    /// The controller's own invariant: its board is well formed.
    pub open spec fn wf(&self) -> bool {
        self.board.wf()
    }

    /// A fresh game on the standard board: nothing locked, no score, level 1.
    pub fn new() -> (r: GameController)
        ensures
            r.wf(),
            r.occupied@.len() == 0,
            r.score == 0,
            r.board.width == 10,
            r.board.height == 20,
            r.level == 1,
            r.fall_ms == INITIAL_FALL_MS,
    {
        GameController {
            occupied: Vec::new(),
            score: 0,
            board: Board::new(),
            level: 1,
            fall_ms: INITIAL_FALL_MS,
        }
    }

    /// The score reached so far.
    pub fn current_score(&self) -> (r: u32)
        ensures
            r == self.score,
    {
        self.score
    }

    /// Whether the piece should fall on its own, `elapsed_ms` after it last fell.
    pub fn should_autofall(&self, elapsed_ms: u64) -> (r: bool)
        ensures
            r == (elapsed_ms >= self.fall_ms),
    {
        elapsed_ms >= self.fall_ms as u64
    }

    /// Clear full rows, then update score, level and fall interval.
    pub fn place_tet(&mut self)
        requires
            old(self).wf(),
        ensures
            final(self).wf(),
            final(self).board == old(self).board,
            final(self).occupied@ == compact(old(self).occupied@, old(self).occupied@, old(self).board),
            distinct_cells(old(self).occupied@) ==> distinct_cells(final(self).occupied@),
            none_above(old(self).occupied@) ==> none_above(final(self).occupied@),
            final(self).score == score_after(
                old(self).score as int,
                full_rows(old(self).occupied@, old(self).board),
            ),
            final(self).level == level_for(final(self).score as int),
            final(self).fall_ms == fall_interval(final(self).level as int),
    {
        let rows = self.clear_full_rows();
        self.update_score(rows as u32);
        self.update_level();
    }

    fn set_fall_ms(&mut self)
        requires
            old(self).level >= 1,
        ensures
            final(self).fall_ms == fall_interval(old(self).level as int),
            final(self).occupied == old(self).occupied,
            final(self).board == old(self).board,
            final(self).score == old(self).score,
            final(self).level == old(self).level,
    {
        let divisor: u64 = LEVEL_SCALE as u64 + self.level as u64 - 1;
        let scaled: u64 = INITIAL_FALL_MS as u64 * LEVEL_SCALE as u64;
        assert(scaled / divisor <= 750) by (nonlinear_arith)
            requires
                scaled == 3750,
                divisor >= 5,
        ;
        self.fall_ms = (scaled / divisor) as u16;
    }

    fn update_score(&mut self, cleared_rows: u32)
        ensures
            final(self).score == score_after(old(self).score as int, cleared_rows as nat),
            final(self).occupied == old(self).occupied,
            final(self).board == old(self).board,
            final(self).level == old(self).level,
            final(self).fall_ms == old(self).fall_ms,
    {
        // 3^(k + 1), computed until it passes u32::MAX
        let mut points: u64 = 3;
        let mut k: u32 = 0;
        assert(pow3(1) == 3) by {
            reveal_with_fuel(pow3, 2);
        }
        while k < cleared_rows && points <= u32::MAX as u64
            invariant
                k <= cleared_rows,
                points == pow3(k as nat + 1),
                points <= 3 * (u32::MAX as u64),
            decreases cleared_rows - k,
        {
            points = points * 3;
            k = k + 1;
        }
        proof {
            lemma_pow3_monotonic(k as nat + 1, cleared_rows as nat + 1);
        }
        let total: u64 = self.score as u64 + points;
        if total > u32::MAX as u64 {
            self.score = u32::MAX;
        } else {
            self.score = total as u32;
        }
    }

    fn update_level(&mut self)
        ensures
            final(self).level == level_for(old(self).score as int),
            final(self).fall_ms == fall_interval(final(self).level as int),
            final(self).occupied == old(self).occupied,
            final(self).board == old(self).board,
            final(self).score == old(self).score,
    {
        let score = self.score;
        if score == 0 {
            self.level = 1;
        } else {
            let rounded_up: u32 = if score % LEVEL_AT_SCORE == 0 { 0 } else { 1 };
            self.level = score / LEVEL_AT_SCORE + rounded_up;
        }
        self.set_fall_ms();
    }

    /// Whether `points`, moved by (x, y), hit the floor, a wall or a locked cell.
    pub fn collision_check(&self, points: [Point; 4], x: i16, y: i16) -> (r: bool)
        ensures
            r == blocked(coords(points@), x as int, y as int, self.board, self.occupied@),
    {
        let ghost cells = coords(points@);
        let h = self.board.height as i32;
        let w = self.board.width as i32;
        let mut i: usize = 0;
        while i < 4
            invariant
                i <= 4,
                cells == coords(points@),
                h == self.board.height,
                w == self.board.width,
                forall|k: int|
                    0 <= k < i ==> !cell_blocked(cells[k], x as int, y as int, self.board, self.occupied@),
            decreases 4 - i,
        {
            let point = points[i];
            let px = point.x as i32 + x as i32;
            let py = point.y as i32 + y as i32;
            assert(cells[i as int] == (point.x as int, point.y as int));
            if py == h {
                assert(cell_blocked(cells[i as int], x as int, y as int, self.board, self.occupied@));
                return true;
            }
            if px == w || px == -1 {
                assert(cell_blocked(cells[i as int], x as int, y as int, self.board, self.occupied@));
                return true;
            }
            let mut j: usize = 0;
            while j < self.occupied.len()
                invariant
                    i < 4,
                    j <= self.occupied@.len(),
                    cells == coords(points@),
                    cells[i as int] == (point.x as int, point.y as int),
                    px == point.x + x,
                    py == point.y + y,
                    forall|m: int|
                        0 <= m < j ==> !(self.occupied@[m].x == px && self.occupied@[m].y == py),
                decreases self.occupied@.len() - j,
            {
                let occ = self.occupied[j];
                if occ.x as i32 == px && occ.y as i32 == py {
                    assert(cell_blocked(cells[i as int], x as int, y as int, self.board, self.occupied@));
                    return true;
                }
                j = j + 1;
            }
            i = i + 1;
        }
        false
    }

    /// Count the locked cells of each row of the board.
    fn get_row_count(&self) -> (rows: Vec<usize>)
        ensures
            rows@.len() == self.board.height,
            forall|y: int| 0 <= y < self.board.height ==> rows@[y] == row_count(self.occupied@, y),
    {
        let h = self.board.height as usize;
        let mut rows: Vec<usize> = Vec::new();
        while rows.len() < h
            invariant
                rows@.len() <= h,
                forall|y: int| 0 <= y < rows@.len() ==> rows@[y] == 0,
            decreases h - rows@.len(),
        {
            rows.push(0);
        }
        let occ = &self.occupied;
        let mut i: usize = 0;
        while i < occ.len()
            invariant
                i <= occ@.len(),
                rows@.len() == h,
                h == self.board.height,
                occ@ == self.occupied@,
                forall|y: int| 0 <= y < h ==> rows@[y] == row_count(occ@.subrange(0, i as int), y),
            decreases occ@.len() - i,
        {
            let y = occ[i].y;
            proof {
                assert(occ@.subrange(0, i + 1).drop_last() =~= occ@.subrange(0, i as int));
                lemma_row_count_bound(occ@.subrange(0, i as int), y as int);
            }
            if 0 <= y && (y as usize) < h {
                let yi = y as usize;
                rows[yi] = rows[yi] + 1;
            }
            i = i + 1;
        }
        assert(occ@.subrange(0, occ@.len() as int) =~= occ@);
        rows
    }

    /// Remove every full row and move the rows above it down; returns how many were removed.
    pub fn clear_full_rows(&mut self) -> (cleared: u8)
        requires
            old(self).board.wf(),
        ensures
            cleared == full_rows(old(self).occupied@, old(self).board),
            final(self).occupied@ == compact(old(self).occupied@, old(self).occupied@, old(self).board),
            cleared == 0 ==> final(self).occupied@ == old(self).occupied@,
            distinct_cells(old(self).occupied@) ==> distinct_cells(final(self).occupied@),
            none_above(old(self).occupied@) ==> none_above(final(self).occupied@),
            final(self).board == old(self).board,
            final(self).score == old(self).score,
            final(self).level == old(self).level,
            final(self).fall_ms == old(self).fall_ms,
    {
        let rows = self.get_row_count();
        let ghost occ = self.occupied@;
        let ghost board = self.board;
        let h = self.board.height as usize;
        let w = self.board.width as usize;
        // How far each row moves down
        let mut move_down: Vec<u8> = Vec::new();
        while move_down.len() < h
            invariant
                move_down@.len() <= h,
            decreases h - move_down@.len(),
        {
            move_down.push(0);
        }
        let mut cleared: u8 = 0;
        let mut i: usize = h;
        while i > 0
            invariant
                i <= h,
                h == board.height,
                w == board.width,
                board.wf(),
                move_down@.len() == h,
                rows@.len() == h,
                forall|y: int| 0 <= y < h ==> rows@[y] == row_count(occ, y),
                cleared == full_rows_in(occ, board, i as int, h as int),
                cleared <= h - i,
                forall|y: int|
                    i <= y < h && !row_full(occ, board, y) ==> move_down@[y] == row_shift(occ, board, y),
            decreases i,
        {
            i = i - 1;
            if rows[i] == w {
                cleared = cleared + 1;
            } else {
                move_down[i] = cleared;
            }
        }
        proof {
            lemma_clear_keeps_cells_apart(occ, board);
        }
        if cleared == 0 {
            proof {
                lemma_compact_identity(occ, occ, board);
            }
            return 0;
        }
        proof {
            lemma_full_rows_bound(occ, board, 0, h as int);
        }
        let mut kept: Vec<Point> = Vec::new();
        let mut j: usize = 0;
        while j < self.occupied.len()
            invariant
                j <= occ.len(),
                self.occupied@ == occ,
                self.board == board,
                h == board.height,
                w == board.width,
                board.wf(),
                move_down@.len() == h,
                rows@.len() == h,
                forall|y: int| 0 <= y < h ==> rows@[y] == row_count(occ, y),
                cleared == full_rows(occ, board),
                forall|y: int|
                    0 <= y < h && !row_full(occ, board, y) ==> move_down@[y] == row_shift(occ, board, y),
                kept@ == compact(occ.subrange(0, j as int), occ, board),
            decreases occ.len() - j,
        {
            let p = self.occupied[j];
            proof {
                assert(occ.subrange(0, j + 1).drop_last() =~= occ.subrange(0, j as int));
            }
            let on_board = 0 <= p.y && (p.y as usize) < h;
            if !(on_board && rows[p.y as usize] == w) {
                let shift: u8 = if on_board {
                    move_down[p.y as usize]
                } else if p.y < 0 {
                    proof {
                        lemma_full_rows_above(occ, board, p.y + 1, h as int);
                    }
                    cleared
                } else {
                    proof {
                        lemma_full_rows_bound(occ, board, p.y + 1, h as int);
                    }
                    0
                };
                kept.push(Point { x: p.x, y: p.y + shift as i16, color: p.color });
            }
            j = j + 1;
        }
        proof {
            assert(occ.subrange(0, occ.len() as int) =~= occ);
        }
        self.occupied = kept;
        cleared
    }
}

} // verus!
