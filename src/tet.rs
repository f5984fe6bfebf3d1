use rand::Rng;
use vstd::prelude::*;

use crate::board::Board;
use crate::game_controller::{
    blocked, cell_blocked, compact, distinct_cells, fall_interval, full_rows, lemma_clear_keeps_cells_apart,
    level_for, none_above, score_after, GameController,
};
use crate::point::{coords, xy, Color, Point};

verus! {

/// A piece's anchor stays within this distance of the origin on each axis.
pub const POS_LIMIT: i16 = 16000;

/// Pivot and model offsets stay within this distance of zero on each axis.
pub const MODEL_LIMIT: i16 = 4;

/// What a piece is, in mathematical terms.
pub struct TetView {
    pub pos: (int, int),
    pub pivot: (int, int),
    pub model: Seq<(int, int)>,
    pub color: Color,
    pub allowed_flips: nat,
    pub flips: nat,
    pub rotate_clockwise: bool,
}

/// A quarter turn of an offset: clockwise maps (x, y) to (y, -x), counter-clockwise to (-y, x).
pub open spec fn turn_xy(c: (int, int), clockwise: bool) -> (int, int) {
    if clockwise {
        (c.1, -c.0)
    } else {
        (-c.1, c.0)
    }
}

/// `n` quarter turns of an offset in one direction.
pub open spec fn turn_xy_n(c: (int, int), clockwise: bool, n: nat) -> (int, int)
    decreases n,
{
    if n == 0 {
        c
    } else {
        turn_xy(turn_xy_n(c, clockwise, (n - 1) as nat), clockwise)
    }
}

/// A quarter turn of every offset of a model.
pub open spec fn turn_all(m: Seq<(int, int)>, clockwise: bool) -> Seq<(int, int)> {
    m.map_values(|c: (int, int)| turn_xy(c, clockwise))
}

/// `n` quarter turns of every offset of a model.
pub open spec fn turn_all_n(m: Seq<(int, int)>, clockwise: bool, n: nat) -> Seq<(int, int)>
    decreases n,
{
    if n == 0 {
        m
    } else {
        turn_all(turn_all_n(m, clockwise, (n - 1) as nat), clockwise)
    }
}

/// No offset occurs twice.
pub open spec fn distinct_offsets(m: Seq<(int, int)>) -> bool {
    forall|i: int, j: int| 0 <= i < j < m.len() ==> m[i] != m[j]
}

proof fn lemma_turn_all_distinct(m: Seq<(int, int)>, clockwise: bool)
    requires
        distinct_offsets(m),
    ensures
        distinct_offsets(turn_all(m, clockwise)),
{
    assert forall|i: int, j: int| 0 <= i < j < m.len() implies turn_all(m, clockwise)[i] != turn_all(
        m,
        clockwise,
    )[j] by {
        assert(m[i] != m[j]);
    }
}

/// Both coordinates of `c` lie within `limit` of zero.
pub open spec fn within(c: (int, int), limit: int) -> bool {
    -limit <= c.0 <= limit && -limit <= c.1 <= limit
}

impl TetView {
    /// The piece's internal invariant: a four-cell model, small offsets, an anchor within
    /// `POS_LIMIT`, and a flip count inside its cycle.
    pub open spec fn wf(self) -> bool {
        &&& self.model.len() == 4
        &&& forall|i: int| 0 <= i < 4 ==> within(#[trigger] self.model[i], MODEL_LIMIT as int)
        &&& within(self.pivot, MODEL_LIMIT as int)
        &&& within(self.pos, POS_LIMIT as int)
        &&& (self.allowed_flips == 0 || self.allowed_flips == 1 || self.allowed_flips == 3)
        &&& self.flips <= self.allowed_flips
        &&& distinct_offsets(self.model)
    }

    /// The board cells the piece covers: `pos - pivot + model[i]`.
    pub open spec fn cells(self) -> Seq<(int, int)> {
        self.model.map_values(
            |m: (int, int)| (self.pos.0 - self.pivot.0 + m.0, self.pos.1 - self.pivot.1 + m.1),
        )
    }

    /// The piece with its anchor moved by (dx, dy).
    pub open spec fn moved(self, dx: int, dy: int) -> TetView {
        TetView { pos: (self.pos.0 + dx, self.pos.1 + dy), ..self }
    }

    /// Model, pivot and flip count after one rotation step, before any kick.
    /// At the end of a cycle the earlier turns are undone by as many turns the other way.
    pub open spec fn turned(self) -> TetView {
        if self.flips == self.allowed_flips {
            TetView {
                model: turn_all_n(self.model, self.rotate_clockwise, self.flips),
                pivot: turn_xy_n(self.pivot, self.rotate_clockwise, self.flips),
                flips: 0,
                ..self
            }
        } else {
            TetView {
                model: turn_all(self.model, !self.rotate_clockwise),
                pivot: turn_xy(self.pivot, !self.rotate_clockwise),
                flips: self.flips + 1,
                ..self
            }
        }
    }

    /// Every cell of the piece is on or below the top row.
    pub open spec fn can_lock(self) -> bool {
        forall|i: int| 0 <= i < self.model.len() ==> #[trigger] self.cells()[i].1 >= 0
    }

    /// The piece may move by (dx, dy): nothing blocks it and the anchor stays within `POS_LIMIT`.
    pub open spec fn can_move(self, dx: int, dy: int, gc: GameController) -> bool {
        !blocked(self.cells(), dx, dy, gc.board, gc.occupied@)
            && within((self.pos.0 + dx, self.pos.1 + dy), POS_LIMIT as int)
    }
}

/// The i-th offset of the kick search: rows 0, 1, 2 upward, and in each row the columns
/// 0, 0, 1, -1, 2, -2.
pub open spec fn kick(k: int) -> (int, int) {
    let col = (k % 6) / 2;
    (if k % 2 == 0 { col } else { -col }, -(k / 6))
}

/// Number of offsets the kick search tries.
pub const KICK_COUNT: i16 = 18;

/// The piece a successful rotation leaves: the turned piece at the first legal kick offset.
pub open spec fn kicked_into(v: TetView, r: TetView, gc: GameController) -> bool {
    exists|k: int|
        0 <= k < KICK_COUNT && v.turned().can_move(#[trigger] kick(k).0, kick(k).1, gc) && (forall|j: int|
            0 <= j < k ==> !v.turned().can_move(#[trigger] kick(j).0, kick(j).1, gc)) && r == v.turned().moved(
            kick(k).0,
            kick(k).1,
        )
}

/// `occ` with the cells of piece `v` appended, in the piece's colour.
pub open spec fn locked_with(occ: Seq<Point>, v: TetView) -> Seq<Point> {
    occ + v.cells().map_values(|c: (int, int)| Point { x: c.0 as i16, y: c.1 as i16, color: v.color })
}

/// Number of piece shapes.
pub const PIECE_KINDS: u8 = 7;

/// The seven piece shapes as they spawn: I, L, J, T, O, S and Z (any larger index is Z).
pub open spec fn template(k: int) -> TetView {
    if k == 0 {
        TetView {
            pos: (4, -3),
            pivot: (0, 1),
            model: seq![(0, 0), (0, 1), (0, 2), (0, 3)],
            color: Color::Blue,
            allowed_flips: 1,
            flips: 0,
            rotate_clockwise: true,
        }
    } else if k == 1 {
        TetView {
            pos: (4, -2),
            pivot: (0, 1),
            model: seq![(0, 0), (0, 1), (0, 2), (1, 2)],
            color: Color::Red,
            allowed_flips: 3,
            flips: 0,
            rotate_clockwise: true,
        }
    } else if k == 2 {
        TetView {
            pos: (4, -2),
            pivot: (0, 1),
            model: seq![(0, 0), (0, 1), (0, 2), (-1, 2)],
            color: Color::Green,
            allowed_flips: 3,
            flips: 0,
            rotate_clockwise: true,
        }
    } else if k == 3 {
        TetView {
            pos: (4, -2),
            pivot: (1, 0),
            model: seq![(0, 0), (1, 0), (1, 1), (2, 0)],
            color: Color::Yellow,
            allowed_flips: 3,
            flips: 0,
            rotate_clockwise: true,
        }
    } else if k == 4 {
        TetView {
            pos: (4, -2),
            pivot: (0, 0),
            model: seq![(0, 0), (1, 0), (0, 1), (1, 1)],
            color: Color::Magenta,
            allowed_flips: 0,
            flips: 0,
            rotate_clockwise: true,
        }
    } else if k == 5 {
        TetView {
            pos: (4, -2),
            pivot: (1, 1),
            model: seq![(0, 1), (1, 1), (1, 0), (2, 0)],
            color: Color::Cyan,
            allowed_flips: 1,
            flips: 0,
            rotate_clockwise: false,
        }
    } else {
        TetView {
            pos: (4, -2),
            pivot: (1, 1),
            model: seq![(2, 1), (1, 1), (1, 0), (0, 0)],
            color: Color::DarkYellow,
            allowed_flips: 1,
            flips: 0,
            rotate_clockwise: true,
        }
    }
}

/// Relies on rand's `thread_rng` and `Rng::gen_range`: a value in `0..n`
/// (`gen_range` panics on an empty range, hence `n > 0`).
#[verifier::external_body]
fn random_below(n: u8) -> (r: u8)
    requires
        n > 0,
    ensures
        r < n,
{
    rand::thread_rng().gen_range(0..n)
}

/// Moving a piece and then testing an offset is testing the summed offset on the piece.
proof fn lemma_blocked_moved(v: TetView, a: int, b: int, dx: int, dy: int, gc: GameController)
    ensures
        blocked(v.moved(a, b).cells(), dx, dy, gc.board, gc.occupied@) == blocked(
            v.cells(),
            a + dx,
            b + dy,
            gc.board,
            gc.occupied@,
        ),
{
    let m = v.moved(a, b);
    if blocked(m.cells(), dx, dy, gc.board, gc.occupied@) {
        let i = choose|i: int|
            0 <= i < m.cells().len() && #[trigger] cell_blocked(
                m.cells()[i],
                dx,
                dy,
                gc.board,
                gc.occupied@,
            );
        assert(cell_blocked(v.cells()[i], a + dx, b + dy, gc.board, gc.occupied@));
    }
    if blocked(v.cells(), a + dx, b + dy, gc.board, gc.occupied@) {
        let i = choose|i: int|
            0 <= i < v.cells().len() && #[trigger] cell_blocked(
                v.cells()[i],
                a + dx,
                b + dy,
                gc.board,
                gc.occupied@,
            );
        assert(cell_blocked(m.cells()[i], dx, dy, gc.board, gc.occupied@));
    }
}

/// A piece that may move by (dx, dy) is, once moved, not blocked where it stands.
pub proof fn lemma_placement_stable(v: TetView, dx: int, dy: int, gc: GameController)
    requires
        v.can_move(dx, dy, gc),
    ensures
        !blocked(v.moved(dx, dy).cells(), 0, 0, gc.board, gc.occupied@),
{
    lemma_blocked_moved(v, dx, dy, 0, 0, gc);
}

/// A piece standing free that moves sideways by `d` can always move back by `d`, and is
/// then where it started.
pub proof fn lemma_translate_round_trip(v: TetView, d: int, gc: GameController)
    requires
        v.wf(),
        !blocked(v.cells(), 0, 0, gc.board, gc.occupied@),
        v.can_move(-d, 0, gc),
    ensures
        v.moved(-d, 0).can_move(d, 0, gc),
        v.moved(-d, 0).moved(d, 0) == v,
{
    lemma_blocked_moved(v, -d, 0, d, 0, gc);
    assert(v.moved(-d, 0).moved(d, 0) =~= v);
}

proof fn lemma_turn_all_n_pointwise(m: Seq<(int, int)>, clockwise: bool, n: nat)
    ensures
        turn_all_n(m, clockwise, n) == m.map_values(|c: (int, int)| turn_xy_n(c, clockwise, n)),
    decreases n,
{
    if n > 0 {
        lemma_turn_all_n_pointwise(m, clockwise, (n - 1) as nat);
    }
    assert(turn_all_n(m, clockwise, n) =~= m.map_values(|c: (int, int)| turn_xy_n(c, clockwise, n)));
}

/// Rotation does not look at the anchor: moving and then turning is turning and then moving.
proof fn lemma_turned_moved(v: TetView, a: int, b: int)
    ensures
        v.moved(a, b).turned() == v.turned().moved(a, b),
{
}

/// Four successful rotations of a piece with a four-state cycle, whatever kicks they took,
/// bring back its model, pivot and place in the cycle.
pub proof fn lemma_four_rotations_restore(v: TetView, kicks: Seq<(int, int)>)
    requires
        v.wf(),
        v.allowed_flips == 3,
        kicks.len() == 4,
    ensures
        ({
            let r = v.turned().moved(kicks[0].0, kicks[0].1).turned().moved(
                kicks[1].0,
                kicks[1].1,
            ).turned().moved(kicks[2].0, kicks[2].1).turned().moved(kicks[3].0, kicks[3].1);
            r.model == v.model && r.pivot == v.pivot && r.flips == v.flips
        }),
{
    let d = v.rotate_clockwise;
    reveal_with_fuel(turn_xy_n, 4);
    reveal_with_fuel(turn_all_n, 4);
    let t = v.turned().turned().turned().turned();
    lemma_turned_moved(v.turned(), kicks[0].0, kicks[0].1);
    lemma_turned_moved(v.turned().turned(), kicks[0].0, kicks[0].1);
    lemma_turned_moved(v.turned().turned().turned(), kicks[0].0, kicks[0].1);
    lemma_turned_moved(v.turned().turned().moved(kicks[0].0, kicks[0].1), kicks[1].0, kicks[1].1);
    lemma_turned_moved(
        v.turned().turned().turned().moved(kicks[0].0, kicks[0].1),
        kicks[1].0,
        kicks[1].1,
    );
    lemma_turned_moved(
        v.turned().turned().turned().moved(kicks[0].0, kicks[0].1).moved(kicks[1].0, kicks[1].1),
        kicks[2].0,
        kicks[2].1,
    );
    lemma_turn_all_n_pointwise(v.model, d, 3);
    let f = v.flips;
    if f == 0 {
        lemma_turn_all_n_pointwise(turn_all(turn_all(turn_all(v.model, !d), !d), !d), d, 3);
        assert(t.model =~= v.model);
    } else if f == 1 {
        lemma_turn_all_n_pointwise(turn_all(turn_all(v.model, !d), !d), d, 3);
        assert(t.model =~= v.model);
    } else if f == 2 {
        lemma_turn_all_n_pointwise(turn_all(v.model, !d), d, 3);
        assert(t.model =~= v.model);
    } else {
        lemma_turn_all_n_pointwise(v.model, d, 3);
        assert(t.model =~= v.model);
    }
}

/// Locking a piece that stands free keeps the locked cells apart; a piece that may lock adds
/// no cell above the board.
pub proof fn lemma_lock_keeps_cells_apart(occ: Seq<Point>, v: TetView, board: Board)
    requires
        v.wf(),
    ensures
        distinct_cells(occ) && !blocked(v.cells(), 0, 0, board, occ) ==> distinct_cells(
            locked_with(occ, v),
        ),
        none_above(occ) && v.can_lock() ==> none_above(locked_with(occ, v)),
{
    let l = locked_with(occ, v);
    let n = occ.len() as int;
    if distinct_cells(occ) && !blocked(v.cells(), 0, 0, board, occ) {
        assert forall|i: int, j: int| 0 <= i < j < l.len() implies !(l[i].x == l[j].x && l[i].y == l[j].y) by {
            if j >= n {
                let c = v.cells()[j - n];
                assert(within(v.model[j - n], MODEL_LIMIT as int));
                assert(l[j] == Point { x: c.0 as i16, y: c.1 as i16, color: v.color });
                if i < n {
                    assert(!cell_blocked(v.cells()[j - n], 0, 0, board, occ));
                } else {
                    assert(within(v.model[i - n], MODEL_LIMIT as int));
                    assert(v.model[i - n] != v.model[j - n]);
                }
            }
        }
    }
    if none_above(occ) && v.can_lock() {
        assert forall|i: int| 0 <= i < l.len() implies l[i].y >= 0 by {
            if i >= n {
                assert(within(v.model[i - n], MODEL_LIMIT as int));
                assert(v.cells()[i - n].1 >= 0);
            }
        }
    }
}

/// Every piece spawns with all its cells above the board, so it cannot be locked at once.
pub proof fn lemma_spawn_above_board(k: int)
    requires
        0 <= k < PIECE_KINDS,
    ensures
        forall|i: int| 0 <= i < 4 ==> (#[trigger] template(k).cells()[i]).1 < 0,
        forall|i: int| 0 <= i < 4 ==> 3 <= (#[trigger] template(k).cells()[i]).0 <= 5,
        !template(k).can_lock(),
{
    assert(template(k).cells()[0].1 < 0);
}

/// A piece spawns standing free on any board at least six cells wide whose locked cells are
/// all on the board.
pub proof fn lemma_spawn_stands_free(k: int, gc: GameController)
    requires
        0 <= k < PIECE_KINDS,
        gc.board.width >= 6,
        none_above(gc.occupied@),
    ensures
        !blocked(template(k).cells(), 0, 0, gc.board, gc.occupied@),
{
    lemma_spawn_above_board(k);
    let cells = template(k).cells();
    assert forall|i: int| 0 <= i < cells.len() implies !#[trigger] cell_blocked(
        cells[i],
        0,
        0,
        gc.board,
        gc.occupied@,
    ) by {
        if exists|j: int|
            0 <= j < gc.occupied@.len() && gc.occupied@[j].x == cells[i].0 && gc.occupied@[j].y
                == cells[i].1 {
            let j = choose|j: int|
                0 <= j < gc.occupied@.len() && gc.occupied@[j].x == cells[i].0 && gc.occupied@[j].y
                    == cells[i].1;
            assert(gc.occupied@[j].y >= 0);
        }
    }
}

/// A live piece.
#[derive(Clone, Copy)]
pub struct Tet {
    pub pos: Point,
    pub pivot: Point,
    pub model: [Point; 4],
    pub color: Color,
    pub allowed_flips: u8,
    pub flips: u8,
    pub rotate_clockwise: bool,
}

impl View for Tet {
    type V = TetView;

    open spec fn view(&self) -> TetView {
        TetView {
            pos: xy(self.pos),
            pivot: xy(self.pivot),
            model: coords(self.model@),
            color: self.color,
            allowed_flips: self.allowed_flips as nat,
            flips: self.flips as nat,
            rotate_clockwise: self.rotate_clockwise,
        }
    }
}

/// One quarter turn of a point, keeping its colour.
fn turn_point(p: Point, clockwise: bool) -> (r: Point)
    requires
        within(xy(p), MODEL_LIMIT as int),
    ensures
        xy(r) == turn_xy(xy(p), clockwise),
        within(xy(r), MODEL_LIMIT as int),
        r.color == p.color,
{
    if clockwise {
        Point { x: p.y, y: -p.x, color: p.color }
    } else {
        Point { x: -p.y, y: p.x, color: p.color }
    }
}

proof fn lemma_model_within(t: Tet)
    requires
        t.wf(),
    ensures
        forall|i: int| 0 <= i < 4 ==> within(xy(#[trigger] t.model@[i]), MODEL_LIMIT as int),
{
    assert forall|i: int| 0 <= i < 4 implies within(xy(#[trigger] t.model@[i]), MODEL_LIMIT as int) by {
        assert(t@.model[i] == xy(t.model@[i]));
    }
}

impl Tet {
    pub open spec fn wf(&self) -> bool {
        self@.wf()
    }

    fn new_i() -> (r: Tet)
        ensures
            r.wf(),
            r@ == template(0),
    {
        let r = Tet {
            pos: Point::new(4, -3),
            pivot: Point::new(0, 1),
            model: [
                Point::new(0, 0),
                Point::new(0, 1),
                Point::new(0, 2),
                Point::new(0, 3),
            ],
            color: Color::Blue,
            allowed_flips: 1,
            flips: 0,
            rotate_clockwise: true,
        };
        assert(r@.model =~= template(0).model);
        r
    }

    fn new_l() -> (r: Tet)
        ensures
            r.wf(),
            r@ == template(1),
    {
        let r = Tet {
            pos: Point::new(4, -2),
            pivot: Point::new(0, 1),
            model: [
                Point::new(0, 0),
                Point::new(0, 1),
                Point::new(0, 2),
                Point::new(1, 2),
            ],
            color: Color::Red,
            allowed_flips: 3,
            flips: 0,
            rotate_clockwise: true,
        };
        assert(r@.model =~= template(1).model);
        r
    }

    fn new_j() -> (r: Tet)
        ensures
            r.wf(),
            r@ == template(2),
    {
        let r = Tet {
            pos: Point::new(4, -2),
            pivot: Point::new(0, 1),
            model: [
                Point::new(0, 0),
                Point::new(0, 1),
                Point::new(0, 2),
                Point::new(-1, 2),
            ],
            color: Color::Green,
            allowed_flips: 3,
            flips: 0,
            rotate_clockwise: true,
        };
        assert(r@.model =~= template(2).model);
        r
    }

    fn new_t() -> (r: Tet)
        ensures
            r.wf(),
            r@ == template(3),
    {
        let r = Tet {
            pos: Point::new(4, -2),
            pivot: Point::new(1, 0),
            model: [
                Point::new(0, 0),
                Point::new(1, 0),
                Point::new(1, 1),
                Point::new(2, 0),
            ],
            color: Color::Yellow,
            allowed_flips: 3,
            flips: 0,
            rotate_clockwise: true,
        };
        assert(r@.model =~= template(3).model);
        r
    }

    fn new_o() -> (r: Tet)
        ensures
            r.wf(),
            r@ == template(4),
    {
        let r = Tet {
            pos: Point::new(4, -2),
            pivot: Point::new(0, 0),
            model: [
                Point::new(0, 0),
                Point::new(1, 0),
                Point::new(0, 1),
                Point::new(1, 1),
            ],
            color: Color::Magenta,
            allowed_flips: 0,
            flips: 0,
            rotate_clockwise: true,
        };
        assert(r@.model =~= template(4).model);
        r
    }

    fn new_s() -> (r: Tet)
        ensures
            r.wf(),
            r@ == template(5),
    {
        let r = Tet {
            pos: Point::new(4, -2),
            pivot: Point::new(1, 1),
            model: [
                Point::new(0, 1),
                Point::new(1, 1),
                Point::new(1, 0),
                Point::new(2, 0),
            ],
            color: Color::Cyan,
            allowed_flips: 1,
            flips: 0,
            rotate_clockwise: false,
        };
        assert(r@.model =~= template(5).model);
        r
    }

    fn new_z() -> (r: Tet)
        ensures
            r.wf(),
            r@ == template(6),
    {
        let r = Tet {
            pos: Point::new(4, -2),
            pivot: Point::new(1, 1),
            model: [
                Point::new(2, 1),
                Point::new(1, 1),
                Point::new(1, 0),
                Point::new(0, 0),
            ],
            color: Color::DarkYellow,
            allowed_flips: 1,
            flips: 0,
            rotate_clockwise: true,
        };
        assert(r@.model =~= template(6).model);
        r
    }

    /// The piece of shape `k` at its spawn position (0 = I, 1 = L, 2 = J, 3 = T, 4 = O,
    /// 5 = S, anything else Z).
    pub fn from_index(k: u8) -> (r: Tet)
        ensures
            r.wf(),
            r@ == template(if k < 6 { k as int } else { 6 }),
    {
        match k {
            0 => Tet::new_i(),
            1 => Tet::new_l(),
            2 => Tet::new_j(),
            3 => Tet::new_t(),
            4 => Tet::new_o(),
            5 => Tet::new_s(),
            _ => Tet::new_z(),
        }
    }

    /// A piece of a shape drawn uniformly at random, at its spawn position.
    pub fn new_random() -> (r: Tet)
        ensures
            r.wf(),
            exists|k: int| 0 <= k < PIECE_KINDS && r@ == template(k),
    {
        let k = random_below(PIECE_KINDS);
        Tet::from_index(k)
    }

    /// Board position of each point of the model, in the piece's colour.
    pub fn points_pos(&self) -> (r: [Point; 4])
        requires
            self.wf(),
        ensures
            coords(r@) == self@.cells(),
            forall|i: int| 0 <= i < 4 ==> (#[trigger] r@[i]).color == self.color,
    {
        proof {
            lemma_model_within(*self);
        }
        let bx = self.pos.x - self.pivot.x;
        let by = self.pos.y - self.pivot.y;
        let r = [
            Point::new_with_color(bx + self.model[0].x, by + self.model[0].y, self.color),
            Point::new_with_color(bx + self.model[1].x, by + self.model[1].y, self.color),
            Point::new_with_color(bx + self.model[2].x, by + self.model[2].y, self.color),
            Point::new_with_color(bx + self.model[3].x, by + self.model[3].y, self.color),
        ];
        assert(coords(r@) =~= self@.cells());
        r
    }

    /// Whether every cell of the piece is on the board vertically (none above the top row).
    pub fn can_place(&self) -> (r: bool)
        requires
            self.wf(),
        ensures
            r == self@.can_lock(),
    {
        let points = self.points_pos();
        let mut i: usize = 0;
        while i < 4
            invariant
                i <= 4,
                coords(points@) == self@.cells(),
                self@.model.len() == 4,
                forall|j: int| 0 <= j < i ==> self@.cells()[j].1 >= 0,
            decreases 4 - i,
        {
            if points[i].y < 0 {
                assert(self@.cells()[i as int].1 < 0);
                return false;
            }
            i = i + 1;
        }
        true
    }

    /// Lock the piece into `occupied`; returns whether it could be locked.
    pub fn place(&self, occupied: &mut Vec<Point>) -> (r: bool)
        requires
            self.wf(),
        ensures
            r == self@.can_lock(),
            r ==> final(occupied)@ == locked_with(old(occupied)@, self@),
            !r ==> final(occupied)@ == old(occupied)@,
    {
        if !self.can_place() {
            return false;
        }
        let points = self.points_pos();
        occupied.push(points[0]);
        occupied.push(points[1]);
        occupied.push(points[2]);
        occupied.push(points[3]);
        assert forall|i: int| 0 <= i < 4 implies points@[i].x == (#[trigger] self@.cells()[i]).0 as i16
            && points@[i].y == self@.cells()[i].1 as i16 by {
            assert(coords(points@)[i] == xy(points@[i]));
        }
        assert(occupied@ =~= locked_with(old(occupied)@, self@));
        true
    }

    /// Whether the piece may move by (dx, dy).
    fn can_move(&self, dx: i16, dy: i16, game_controller: &GameController) -> (r: bool)
        requires
            self.wf(),
        ensures
            r == self@.can_move(dx as int, dy as int, *game_controller),
    {
        if game_controller.collision_check(self.points_pos(), dx, dy) {
            return false;
        }
        let x = self.pos.x as i32 + dx as i32;
        let y = self.pos.y as i32 + dy as i32;
        let limit = POS_LIMIT as i32;
        -limit <= x && x <= limit && -limit <= y && y <= limit
    }

    /// Move the anchor by (dx, dy).
    fn shift_anchor(&mut self, dx: i16, dy: i16)
        requires
            old(self).wf(),
            within((old(self).pos.x + dx, old(self).pos.y + dy), POS_LIMIT as int),
        ensures
            final(self).wf(),
            final(self)@ == old(self)@.moved(dx as int, dy as int),
    {
        self.pos = Point { x: self.pos.x + dx, y: self.pos.y + dy, color: self.pos.color };
    }

    /// Translate if there's no collision
    ///
    /// Returns true on success or false if unable to move: where a cell would hit the floor,
    /// a wall or a locked cell, or the anchor would leave `POS_LIMIT`.
    pub fn translate(&mut self, x: i16, y: i16, game_controller: &GameController) -> (r: bool)
        requires
            old(self).wf(),
        ensures
            final(self).wf(),
            r == old(self)@.can_move(x as int, y as int, *game_controller),
            r ==> final(self)@ == old(self)@.moved(x as int, y as int),
            r ==> !blocked(final(self)@.cells(), 0, 0, game_controller.board, game_controller.occupied@),
            !r ==> *final(self) == *old(self),
    {
        if !self.can_move(x, y, game_controller) {
            return false;
        }
        self.shift_anchor(x, y);
        proof {
            lemma_placement_stable(old(self)@, x as int, y as int, *game_controller);
        }
        true
    }

    /// Rotate one step, kicking the piece up to two cells sideways and up to two cells up to
    /// the first free position; returns false, leaving the piece as it was, if there is none.
    pub fn rotate(&mut self, game_controller: &GameController) -> (r: bool)
        requires
            old(self).wf(),
        ensures
            final(self).wf(),
            old(self).allowed_flips == 0 ==> !r,
            r == (old(self).allowed_flips != 0 && exists|k: int|
                0 <= k < KICK_COUNT && old(self)@.turned().can_move(
                    #[trigger] kick(k).0,
                    kick(k).1,
                    *game_controller,
                )),
            r ==> kicked_into(old(self)@, final(self)@, *game_controller),
            r ==> !blocked(final(self)@.cells(), 0, 0, game_controller.board, game_controller.occupied@),
            !r ==> *final(self) == *old(self),
    {
        if self.allowed_flips == 0 {
            return false;
        }
        let mut clone = *self;
        let reset_flip = clone.allowed_flips == clone.flips;
        if reset_flip {
            let n = clone.flips;
            let clockwise = clone.rotate_clockwise;
            let mut i: u8 = 0;
            while i < n
                invariant
                    i <= n,
                    n == self.flips,
                    clockwise == self.rotate_clockwise,
                    self.wf(),
                    clone.wf(),
                    clone@ == (TetView {
                        model: turn_all_n(self@.model, clockwise, i as nat),
                        pivot: turn_xy_n(self@.pivot, clockwise, i as nat),
                        ..self@
                    }),
                decreases n - i,
            {
                clone.rotate_model(clockwise);
                i = i + 1;
            }
            clone.flips = 0;
        } else {
            clone.rotate_model(!clone.rotate_clockwise);
            clone.flips = clone.flips + 1;
        }
        assert(clone@ == self@.turned());
        // Help the player by taking the closest free position
        let mut k: i16 = 0;
        while k < KICK_COUNT
            invariant
                0 <= k <= KICK_COUNT,
                clone.wf(),
                clone@ == old(self)@.turned(),
                *self == *old(self),
                self.allowed_flips != 0,
                forall|j: int|
                    0 <= j < k ==> !clone@.can_move(#[trigger] kick(j).0, kick(j).1, *game_controller),
            decreases KICK_COUNT - k,
        {
            let col = (k % 6) / 2;
            let dx = if k % 2 == 0 { col } else { -col };
            let dy = -(k / 6);
            assert((dx as int, dy as int) == kick(k as int));
            if clone.can_move(dx, dy, game_controller) {
                clone.shift_anchor(dx, dy);
                proof {
                    lemma_placement_stable(old(self)@.turned(), dx as int, dy as int, *game_controller);
                }
                *self = clone;
                assert(old(self)@.turned().can_move(kick(k as int).0, kick(k as int).1, *game_controller));
                assert(self@ == old(self)@.turned().moved(kick(k as int).0, kick(k as int).1));
                assert(kicked_into(old(self)@, self@, *game_controller));
                return true;
            }
            k = k + 1;
        }
        false
    }

    /// Move the piece down one row, or, where it cannot move, lock it, clear full rows and
    /// spawn the next piece.
    ///
    /// Returns false, changing nothing, when the piece can neither move nor lock.
    pub fn move_down(&mut self, game_controller: &mut GameController) -> (r: bool)
        requires
            old(self).wf(),
            old(game_controller).wf(),
        ensures
            final(self).wf(),
            final(game_controller).wf(),
            ({
                let v = old(self)@;
                let gc = *old(game_controller);
                let locked = locked_with(gc.occupied@, v);
                if v.can_move(0, 1, gc) {
                    r && final(self)@ == v.moved(0, 1) && *final(game_controller) == gc
                } else if !v.can_lock() {
                    &&& !r
                    &&& *final(self) == *old(self)
                    &&& final(game_controller).occupied@ == gc.occupied@
                    &&& final(game_controller).board == gc.board
                    &&& final(game_controller).score == gc.score
                    &&& final(game_controller).level == gc.level
                    &&& final(game_controller).fall_ms == gc.fall_ms
                } else {
                    &&& r
                    &&& exists|k: int| 0 <= k < PIECE_KINDS && final(self)@ == template(k)
                    &&& final(game_controller).board == gc.board
                    &&& final(game_controller).occupied@ == compact(locked, locked, gc.board)
                    &&& final(game_controller).score == score_after(
                        gc.score as int,
                        full_rows(locked, gc.board),
                    )
                    &&& final(game_controller).level == level_for(final(game_controller).score as int)
                    &&& final(game_controller).fall_ms == fall_interval(
                        final(game_controller).level as int,
                    )
                }
            }),
            distinct_cells(old(game_controller).occupied@) && !blocked(
                old(self)@.cells(),
                0,
                0,
                old(game_controller).board,
                old(game_controller).occupied@,
            ) ==> distinct_cells(final(game_controller).occupied@),
            none_above(old(game_controller).occupied@) ==> none_above(final(game_controller).occupied@),
            none_above(old(game_controller).occupied@) && old(game_controller).board.width >= 6 && !blocked(
                old(self)@.cells(),
                0,
                0,
                old(game_controller).board,
                old(game_controller).occupied@,
            ) ==> !blocked(
                final(self)@.cells(),
                0,
                0,
                final(game_controller).board,
                final(game_controller).occupied@,
            ),
    {
        if !self.translate(0, 1, game_controller) {
            let ghost before = game_controller.occupied@;
            if !self.place(&mut game_controller.occupied) {
                return false;
            }
            proof {
                lemma_lock_keeps_cells_apart(before, self@, game_controller.board);
                lemma_clear_keeps_cells_apart(game_controller.occupied@, game_controller.board);
            }
            game_controller.place_tet();
            *self = Tet::new_random();
            proof {
                if none_above(before) && game_controller.board.width >= 6 {
                    let k = choose|k: int| 0 <= k < PIECE_KINDS && self@ == template(k);
                    lemma_spawn_stands_free(k, *game_controller);
                }
            }
        }
        true
    }

    /// Turn model and pivot a quarter turn.
    fn rotate_model(&mut self, clockwise: bool)
        requires
            old(self).wf(),
        ensures
            final(self).wf(),
            final(self)@ == (TetView {
                model: turn_all(old(self)@.model, clockwise),
                pivot: turn_xy(old(self)@.pivot, clockwise),
                ..old(self)@
            }),
    {
        proof {
            lemma_model_within(*self);
        }
        let m = self.model;
        self.model = [
            turn_point(m[0], clockwise),
            turn_point(m[1], clockwise),
            turn_point(m[2], clockwise),
            turn_point(m[3], clockwise),
        ];
        self.pivot = turn_point(self.pivot, clockwise);
        assert(self@.model =~= turn_all(old(self)@.model, clockwise));
        proof {
            lemma_turn_all_distinct(old(self)@.model, clockwise);
        }
    }
}

} // verus!
