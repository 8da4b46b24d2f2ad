//! The game: settled pieces, the piece in play, the score, and the update
//! that drives them.

use vstd::prelude::*;
use crate::shapes::{
    cells_of, kept_cells, landing, lemma_fall_keeps_active, lemma_kept_cells_members,
    lemma_pruned_is_on_screen, lemma_shape_is_representable, lemma_steered_is_controllable,
    lemma_unlocked_piece_is_above_floor, new_i, new_j, new_l, new_o, new_s, new_t, new_z, occupied,
    on_screen, piece_views, taken_by, Input, PieceView, Shape, ShapeVariant,
};
use crate::utils::{is_multiple, is_multiple_of, pos, Cell, Pos, BOARD_HEIGHT, BOARD_WIDTH};

verus! {

/// Points for every gravity tick on which a piece falls.
pub const FALL_BONUS: usize = 10;

/// Points for clearing the bottom row.
pub const CLEAR_BONUS: usize = 1000;

/// The mathematical model of a game: the settled pieces, the piece in play
/// if there is one, the score, and the piece that comes next.
pub struct BoardView {
    pub locked: Seq<PieceView>,
    pub falling: Option<PieceView>,
    pub score: nat,
    pub next: PieceView,
}

impl BoardView {
    /// The model of the game that is made of the given parts.
    pub open spec fn assembled(
        locked_shapes: Seq<Shape>,
        falling: Option<Shape>,
        score: usize,
        next_shape: Shape,
    ) -> BoardView {
        BoardView {
            locked: piece_views(locked_shapes),
            falling: match falling {
                Some(shape) => Some(shape@),
                None => None,
            },
            score: score as nat,
            next: next_shape@,
        }
    }

    /// The cells that the settled pieces cover.
    pub open spec fn taken(self) -> Set<Cell> {
        occupied(self.locked)
    }

    /// A settled piece covers the cell of the last row in column `x`.
    pub open spec fn covers_bottom(self, x: int) -> bool {
        self.taken().contains(Cell { x, y: BOARD_HEIGHT - 1 })
    }

    /// The last row has a settled cell in every column of the board.
    pub open spec fn bottom_row_filled(self) -> bool {
        forall|x: int| 0 <= x < BOARD_WIDTH ==> #[trigger] self.covers_bottom(x)
    }

    /// The settled piece at `i` keeps to the columns of the board and to the
    /// rows up to `limit`.
    pub open spec fn settled_piece_within(self, i: int, limit: int) -> bool {
        self.locked[i].within_columns() && self.locked[i].rows_at_most(limit)
    }

    /// Every settled piece keeps to the columns of the board and to the rows
    /// up to `limit`.
    pub open spec fn settled_within(self, limit: int) -> bool {
        forall|i: int| 0 <= i < self.locked.len() ==> #[trigger] self.settled_piece_within(i, limit)
    }

    /// The piece in play, if there is one, is in play in the sense of
    /// [`PieceView::active`] and keeps to the rows up to `limit`.
    pub open spec fn poised(self, limit: int) -> bool {
        self.falling matches Some(piece) ==> piece.active() && piece.rows_at_most(limit)
    }

    /// The next piece, moved to the spawn column, is one that the player can
    /// control.
    pub open spec fn next_ready(self) -> bool {
        self.next.shifted(BOARD_WIDTH / 2, 0).controllable()
    }

    /// What holds of a game between two updates: the settled cells lie on the
    /// board, the piece in play is one that the player can control, and so is
    /// the next piece once it has been moved to the spawn column.
    pub open spec fn valid(self) -> bool {
        &&& self.settled_within(BOARD_HEIGHT - 1)
        &&& self.poised(i32::MAX - 2)
        &&& self.next_ready()
    }

    /// A piece enters on this update: it is a gravity tick and nothing is in
    /// play.
    pub open spec fn spawns(self, ticks: int, interval: int) -> bool {
        is_multiple(ticks, interval) && self.falling is None
    }

    /// The game started over: nothing settled, nothing in play, no points.
    pub open spec fn cleared(self) -> BoardView {
        BoardView { locked: Seq::empty(), falling: None, score: 0, ..self }
    }

    /// The next piece enters at the spawn column and `fresh` becomes the next
    /// piece. Where the entering piece meets a settled cell the game is over
    /// and starts again from an empty board.
    pub open spec fn spawned(self, fresh: PieceView) -> BoardView {
        let piece = self.next.shifted(BOARD_WIDTH / 2, 0);
        if piece.overlaps(self.taken()) {
            BoardView { next: fresh, ..self }.cleared()
        } else {
            BoardView { falling: Some(piece), next: fresh, ..self }
        }
    }

    /// The piece in play drops by one row and earns the fall bonus.
    pub open spec fn descended(self) -> BoardView {
        match self.falling {
            Some(piece) => BoardView {
                falling: Some(piece.fall()),
                score: self.score + FALL_BONUS as nat,
                ..self
            },
            None => self,
        }
    }

    /// What a gravity tick does: with nothing in play the next piece enters,
    /// otherwise the piece in play drops. Between gravity ticks nothing
    /// happens.
    pub open spec fn gravity_phase(self, ticks: int, interval: int, fresh: PieceView) -> BoardView {
        if !is_multiple(ticks, interval) {
            self
        } else if self.falling is None {
            self.spawned(fresh)
        } else {
            self.descended()
        }
    }

    /// The lock condition of the piece in play is evaluated; a piece that
    /// locks joins the settled pieces and leaves the slot empty.
    pub open spec fn lock_phase(self) -> BoardView {
        match self.falling {
            Some(piece) => {
                let settled = piece.settle(self.taken());
                if settled.locked {
                    BoardView { locked: self.locked.push(settled), falling: None, ..self }
                } else {
                    BoardView { falling: Some(settled), ..self }
                }
            },
            None => self,
        }
    }

    /// The player steers the piece in play.
    pub open spec fn input_phase(self, move_count: int, input: Input) -> BoardView {
        match self.falling {
            Some(piece) => BoardView {
                falling: Some(piece.steered(move_count, input, self.taken())),
                ..self
            },
            None => self,
        }
    }

    /// A filled bottom row earns the clear bonus and every settled cell
    /// moves down by one row.
    pub open spec fn clear_phase(self) -> BoardView {
        if self.bottom_row_filled() {
            BoardView {
                locked: self.locked.map_values(|piece: PieceView| piece.shifted(0, 1)),
                score: self.score + CLEAR_BONUS as nat,
                ..self
            }
        } else {
            self
        }
    }

    /// Settled cells below the screen are dropped.
    pub open spec fn prune_phase(self) -> BoardView {
        BoardView { locked: self.locked.map_values(|piece: PieceView| piece.pruned()), ..self }
    }

    /// One update of the game: gravity, locking, input, bottom-row clear and
    /// pruning, in this order. `fresh` is the piece that becomes the next one
    /// if a piece enters during this update.
    pub open spec fn step(
        self,
        ticks: int,
        interval: int,
        move_count: int,
        input: Input,
        fresh: PieceView,
    ) -> BoardView {
        self.gravity_phase(ticks, interval, fresh).lock_phase().input_phase(
            move_count,
            input,
        ).clear_phase().prune_phase()
    }
}

/// A game: the settled shapes, the shape in play, the score and the shape
/// that comes next.
pub struct Game {
    locked_shapes: Vec<Shape>,
    dynamic_shape: Option<Shape>,
    score: usize,
    pub next_shape: Shape,
}

impl View for Game {
    type V = BoardView;

    closed spec fn view(&self) -> BoardView {
        BoardView::assembled(
            self.locked_shapes@,
            self.dynamic_shape,
            self.score,
            self.next_shape,
        )
    }
}

/// Draws a whole number from `low` up to, not including, `high` with
/// `macroquad::rand::gen_range`, which scales a 32-bit draw into the interval
/// in floating point and cuts off the fraction. For bounds that are not
/// negative and at most `0x10_0000` that computation is exact, so the
/// result is at least `low` and below `high`. Nothing is said of which
/// number comes.
#[verifier::external_body]
fn random_below(low: i32, high: i32) -> (drawn: i32)
    requires
        0 <= low < high <= 0x10_0000,
    ensures
        low <= drawn < high,
{
    macroquad::rand::gen_range::<i32>(low, high)
}

/// The variant that stands at `index` in the order I, O, T, S, Z, J, L.
pub open spec fn variant_at(index: int) -> ShapeVariant {
    if index == 0 {
        ShapeVariant::I
    } else if index == 1 {
        ShapeVariant::O
    } else if index == 2 {
        ShapeVariant::T
    } else if index == 3 {
        ShapeVariant::S
    } else if index == 4 {
        ShapeVariant::Z
    } else if index == 5 {
        ShapeVariant::J
    } else {
        ShapeVariant::L
    }
}

/// The new shape for a draw from 0 to 6; no shape for any other number.
pub fn shape_for_draw(drawn: i32) -> (shape: Option<Shape>)
    ensures
        shape is Some <==> 0 <= drawn <= 6,
        shape matches Some(s) ==> s@ == PieceView::fresh(variant_at(drawn as int)),
{
    match drawn {
        0 => Some(new_i()),
        1 => Some(new_o()),
        2 => Some(new_t()),
        3 => Some(new_s()),
        4 => Some(new_z()),
        5 => Some(new_j()),
        6 => Some(new_l()),
        _ => None,
    }
}

impl Game {
    /// An empty board with no points and a randomly chosen next shape.
    pub fn new() -> (game: Self)
        ensures
            game@.valid(),
            game@.locked == Seq::<PieceView>::empty(),
            game@.falling is None,
            game@.score == 0,
            game@.next.is_fresh(),
    {
        let next_shape = Self::spawn_shape();
        Self { locked_shapes: Vec::new(), dynamic_shape: None, score: 0, next_shape }
    }

    /// A game made of the given parts, if they form a valid game.
    pub fn from_parts(
        locked_shapes: Vec<Shape>,
        falling: Option<Shape>,
        score: usize,
        next_shape: Shape,
    ) -> (game: Option<Self>)
        ensures
            game is Some <==> BoardView::assembled(locked_shapes@, falling, score, next_shape).valid(),
            game matches Some(g) ==> g@ == BoardView::assembled(
                locked_shapes@,
                falling,
                score,
                next_shape,
            ),
    {
        let game = Self { locked_shapes, dynamic_shape: falling, score, next_shape };
        if game.is_valid() {
            Some(game)
        } else {
            None
        }
    }

    /// Tells whether the game is a valid one: what `update` asks for and
    /// hands back.
    pub fn is_valid(&self) -> (ok: bool)
        ensures
            ok == self@.valid(),
    {
        let mut i: usize = 0;
        while i < self.locked_shapes.len()
            invariant
                i <= self.locked_shapes.len(),
                forall|j: int| 0 <= j < i ==> #[trigger] self@.settled_piece_within(j, BOARD_HEIGHT - 1),
            decreases self.locked_shapes.len() - i,
        {
            if !self.locked_shapes[i].is_on_board() {
                assert(!self@.settled_piece_within(i as int, BOARD_HEIGHT - 1));
                return false;
            }
            assert(self@.settled_piece_within(i as int, BOARD_HEIGHT - 1));
            i += 1;
        }
        let poised = match &self.dynamic_shape {
            Some(shape) => shape.is_controllable(),
            None => true,
        };
        poised && self.next_shape.is_controllable_after(BOARD_WIDTH / 2)
    }

    /// Where each tile of the shape in play would come to rest if it dropped
    /// straight down on its own; nothing if no shape is in play.
    pub fn landing_prediction(&self) -> (landed: Vec<Pos>)
        ensures
            cells_of(landed@) == match self@.falling {
                Some(piece) => piece.cells.map_values(|c: Cell| landing(self@.taken(), c)),
                None => Seq::<Cell>::empty(),
            },
    {
        match &self.dynamic_shape {
            Some(shape) => shape.landing_tiles(&self.locked_shapes),
            None => {
                let landed: Vec<Pos> = Vec::new();
                assert(cells_of(landed@) =~= Seq::<Cell>::empty());
                landed
            },
        }
    }

    /// A new shape of a variant chosen at random among the seven.
    pub fn spawn_shape() -> (shape: Shape)
        ensures
            shape@.is_fresh(),
    {
        let drawn = random_below(0, 7);
        match shape_for_draw(drawn) {
            Some(shape) => shape,
            None => vstd::pervasive::unreached(),
        }
    }

    /// Starts over: nothing settled, nothing in play, no points. The next
    /// shape stays.
    pub fn reset(&mut self)
        ensures
            final(self)@ == old(self)@.cleared(),
    {
        self.locked_shapes.clear();
        self.dynamic_shape = None;
        self.score = 0;
        assert(piece_views(self.locked_shapes@) =~= Seq::<PieceView>::empty());
    }

    /// The points earned so far.
    pub fn score(&self) -> (points: usize)
        ensures
            points == self@.score,
    {
        self.score
    }

    /// The shape that enters next.
    pub fn next_shape(&self) -> (shape: &Shape)
        ensures
            shape@ == self@.next,
    {
        &self.next_shape
    }

    /// The settled shapes.
    pub fn locked_shapes(&self) -> (shapes: &Vec<Shape>)
        ensures
            piece_views(shapes@) == self@.locked,
    {
        &self.locked_shapes
    }

    /// The shape in play, if there is one.
    pub fn falling_shape(&self) -> (shape: &Option<Shape>)
        ensures
            shape matches Some(s) ==> self@.falling == Some(s@),
            shape is None ==> self@.falling is None,
    {
        &self.dynamic_shape
    }

    /// The next shape enters at the spawn column and `fresh` becomes the next
    /// shape. Where the entering shape meets a settled tile the game starts
    /// over.
    pub fn spawn_next(&mut self, fresh: Shape)
        requires
            old(self)@.falling is None,
            old(self)@.next.shifted(BOARD_WIDTH / 2, 0).representable(),
        ensures
            final(self)@ == old(self)@.spawned(fresh@),
    {
        let mut entering = self.next_shape.clone();
        entering.center_x();
        self.next_shape = fresh;
        if entering.overlaps(&self.locked_shapes) {
            self.reset();
        } else {
            self.dynamic_shape = Some(entering);
        }
    }

    /// The shape in play drops by one row and earns the fall bonus.
    pub fn descend(&mut self)
        requires
            old(self)@.falling matches Some(piece) ==> piece.fall().representable(),
            old(self)@.falling is Some ==> old(self)@.score + FALL_BONUS <= usize::MAX,
        ensures
            final(self)@ == old(self)@.descended(),
    {
        match self.dynamic_shape.take() {
            Some(mut shape) => {
                shape.gravity();
                self.dynamic_shape = Some(shape);
                self.score += FALL_BONUS;
            },
            None => {},
        }
    }

    /// Evaluates the lock condition of the shape in play; a shape that locks
    /// joins the settled shapes.
    pub fn lock_falling(&mut self)
        ensures
            final(self)@ == old(self)@.lock_phase(),
    {
        match self.dynamic_shape.take() {
            Some(mut shape) => {
                shape.update_locked_status(&self.locked_shapes);
                if shape.locked() {
                    self.locked_shapes.push(shape);
                    assert(piece_views(self.locked_shapes@) =~= piece_views(
                        old(self).locked_shapes@,
                    ).push(shape@));
                } else {
                    self.dynamic_shape = Some(shape);
                }
            },
            None => {},
        }
    }

    /// Lets the player steer the shape in play.
    pub fn steer(&mut self, move_count: i32, input: &Input)
        requires
            old(self)@.falling matches Some(piece) ==> (input.rotate ==> piece.anchored()),
            old(self)@.falling matches Some(piece) ==> piece.steered(
                move_count as int,
                *input,
                old(self)@.taken(),
            ).representable(),
        ensures
            final(self)@ == old(self)@.input_phase(move_count as int, *input),
    {
        match self.dynamic_shape.take() {
            Some(mut shape) => {
                shape.control(move_count, &self.locked_shapes, input);
                self.dynamic_shape = Some(shape);
            },
            None => {},
        }
    }

    /// Where the last row is filled, earns the clear bonus and moves every
    /// settled tile down by one row.
    pub fn clear_bottom_row(&mut self)
        requires
            old(self)@.bottom_row_filled() ==> old(self)@.score + CLEAR_BONUS <= usize::MAX,
            old(self)@.bottom_row_filled() ==> forall|i: int|
                0 <= i < old(self)@.locked.len() ==> (#[trigger] old(self)@.locked[i]).shifted(
                    0,
                    1,
                ).representable(),
        ensures
            final(self)@ == old(self)@.clear_phase(),
    {
        if self.bottom_row_filled() {
            self.score += CLEAR_BONUS;
            let ghost before = old(self)@.locked;
            let mut i: usize = 0;
            while i < self.locked_shapes.len()
                invariant
                    i <= self.locked_shapes.len(),
                    before == old(self)@.locked,
                    self.locked_shapes.len() == before.len(),
                    self.dynamic_shape == old(self).dynamic_shape,
                    self.next_shape == old(self).next_shape,
                    self.score == old(self).score + CLEAR_BONUS,
                    forall|j: int|
                        0 <= j < before.len() ==> (#[trigger] before[j]).shifted(
                            0,
                            1,
                        ).representable(),
                    forall|j: int|
                        0 <= j < i ==> (#[trigger] self.locked_shapes[j])@ == before[j].shifted(0, 1),
                    forall|j: int|
                        i <= j < before.len() ==> (#[trigger] self.locked_shapes[j])@ == before[j],
                decreases self.locked_shapes.len() - i,
            {
                self.locked_shapes[i].shift(0, 1);
                i += 1;
            }
            assert(self@.locked =~= old(self)@.clear_phase().locked);
        }
    }

    /// Drops the settled tiles that scrolled off the screen.
    pub fn prune(&mut self)
        ensures
            final(self)@ == old(self)@.prune_phase(),
    {
        let ghost before = old(self)@.locked;
        let mut i: usize = 0;
        while i < self.locked_shapes.len()
            invariant
                i <= self.locked_shapes.len(),
                before == old(self)@.locked,
                self.locked_shapes.len() == before.len(),
                self.dynamic_shape == old(self).dynamic_shape,
                self.next_shape == old(self).next_shape,
                self.score == old(self).score,
                forall|j: int| 0 <= j < i ==> (#[trigger] self.locked_shapes[j])@ == before[j].pruned(),
                forall|j: int|
                    i <= j < before.len() ==> (#[trigger] self.locked_shapes[j])@ == before[j],
            decreases self.locked_shapes.len() - i,
        {
            self.locked_shapes[i].remove_if_below_screen();
            i += 1;
        }
        assert(self@.locked =~= old(self)@.prune_phase().locked);
    }

    /// One update of the game: on a gravity tick the next shape enters or the
    /// shape in play drops; then the lock condition is evaluated, the player
    /// steers, a filled bottom row is cleared and tiles below the screen are
    /// dropped. A shape that enters makes room for a new next shape, which
    /// is chosen at random.
    pub fn update(&mut self, ticks: &i32, interval: &i32, move_count: i32, input: &Input)
        requires
            old(self)@.valid(),
            *interval != 0,
            old(self)@.score + FALL_BONUS + CLEAR_BONUS <= usize::MAX,
        ensures
            final(self)@.valid(),
            exists|variant: ShapeVariant|
                final(self)@ == old(self)@.step(
                    *ticks as int,
                    *interval as int,
                    move_count as int,
                    *input,
                    #[trigger] PieceView::fresh(variant),
                ),
            !old(self)@.spawns(*ticks as int, *interval as int) ==> final(self)@.next == old(
                self,
            )@.next,
    {
        let ghost start = self@;
        let ghost mut fresh_view = PieceView::fresh(ShapeVariant::I);
        proof {
            lemma_shape_is_representable(self.next_shape);
            if self.dynamic_shape is Some {
                lemma_shape_is_representable(self.dynamic_shape->0);
            }
        }
        if is_multiple_of(*ticks, *interval) {
            if self.dynamic_shape.is_none() {
                let fresh = Self::spawn_shape();
                proof {
                    fresh_view = fresh@;
                    let entering = start.next.shifted(BOARD_WIDTH / 2, 0);
                    assert forall|i: int| 0 <= i < entering.cells.len() implies (
                    #[trigger] entering.cells[i]).representable() by {
                        assert(entering.cells[i].in_columns());
                        assert(entering.cells[i].y <= i32::MAX - 2);
                        assert(start.next.cells[i].representable());
                    }
                }
                self.spawn_next(fresh);
            } else {
                proof {
                    let piece = start.falling->0;
                    let fallen = piece.fall();
                    assert forall|i: int| 0 <= i < fallen.cells.len() implies (
                    #[trigger] fallen.cells[i]).representable() by {
                        assert(piece.cells[i].y <= i32::MAX - 2);
                        assert(piece.cells[i].representable());
                    }
                }
                self.descend();
            }
        }
        let ghost fallen = self@;
        proof {
            lemma_fresh_piece_can_enter(fresh_view.variant);
            lemma_gravity_phase(start, *ticks as int, *interval as int, fresh_view);
            lemma_lock_phase(fallen);
        }
        self.lock_falling();
        let ghost landed = self@;
        proof {
            if self.dynamic_shape is Some {
                let shape = self.dynamic_shape->0;
                lemma_shape_is_representable(shape);
                lemma_steered_is_controllable(shape@, move_count as int, *input, landed.taken());
            }
        }
        self.steer(move_count, input);
        let ghost steered = self@;
        proof {
            lemma_step_keeps_valid(
                start,
                *ticks as int,
                *interval as int,
                move_count as int,
                *input,
                fresh_view,
            );
            assert forall|i: int| 0 <= i < steered.locked.len() implies (
            #[trigger] steered.locked[i]).shifted(0, 1).representable() by {
                assert(landed.settled_piece_within(i, i32::MAX - 1));
                lemma_shape_is_representable(self.locked_shapes@[i]);
                let piece = steered.locked[i];
                assert forall|j: int| 0 <= j < piece.cells.len() implies (#[trigger] piece.shifted(
                    0,
                    1,
                ).cells[j]).representable() by {
                    assert(piece.cells[j].y <= i32::MAX - 1);
                    assert(piece.cells[j].representable());
                }
            }
        }
        self.clear_bottom_row();
        self.prune();
    }

    /// Tells whether the last row has a settled tile in every column.
    pub fn bottom_row_filled(&self) -> (filled: bool)
        ensures
            filled == self@.bottom_row_filled(),
    {
        let mut x: i32 = 0;
        while x < BOARD_WIDTH
            invariant
                0 <= x <= BOARD_WIDTH,
                forall|c: int| 0 <= c < x ==> #[trigger] self@.covers_bottom(c),
            decreases BOARD_WIDTH - x,
        {
            if !is_occupied_at(&self.locked_shapes, x, BOARD_HEIGHT - 1) {
                assert(!self@.covers_bottom(x as int));
                return false;
            }
            assert(self@.covers_bottom(x as int));
            x += 1;
        }
        true
    }
}

/// Tells whether one of the shapes covers the cell in column `x`, row `y`.
fn is_occupied_at(shapes: &Vec<Shape>, x: i32, y: i32) -> (found: bool)
    ensures
        found == taken_by(shapes@).contains(Cell { x: x as int, y: y as int }),
{
    crate::shapes::is_occupied(shapes, pos(x, y))
}

/// A gravity tick on a valid game leaves the settled cells on the board and
/// the piece in play with room for one more shift.
proof fn lemma_gravity_phase(board: BoardView, ticks: int, interval: int, fresh: PieceView)
    requires
        board.valid(),
        fresh.shifted(BOARD_WIDTH / 2, 0).controllable(),
    ensures
        board.gravity_phase(ticks, interval, fresh).settled_within(BOARD_HEIGHT - 1),
        board.gravity_phase(ticks, interval, fresh).poised(i32::MAX - 1),
        board.gravity_phase(ticks, interval, fresh).next_ready(),
{
    let after = board.gravity_phase(ticks, interval, fresh);
    if let Some(piece) = board.falling {
        lemma_fall_keeps_active(piece);
        assert forall|i: int| 0 <= i < piece.cells.len() implies (#[trigger] piece.cells[i]).y
            <= i32::MAX - 1 by {
            assert(piece.cells[i].y <= i32::MAX - 2);
        }
    }
    if board.spawns(ticks, interval) {
        let piece = board.next.shifted(BOARD_WIDTH / 2, 0);
        assert forall|i: int| 0 <= i < piece.cells.len() implies (#[trigger] piece.cells[i]).y
            <= i32::MAX - 1 by {
            assert(piece.cells[i].y <= i32::MAX - 2);
        }
    }
    assert forall|i: int| 0 <= i < after.locked.len() implies #[trigger] after.settled_piece_within(
        i,
        BOARD_HEIGHT - 1,
    ) by {
        assert(board.settled_piece_within(i, BOARD_HEIGHT - 1));
    }
}

/// Locking keeps the settled cells in the columns of the board and leaves a
/// piece in play only above the last row.
proof fn lemma_lock_phase(board: BoardView)
    requires
        board.settled_within(BOARD_HEIGHT - 1),
        board.poised(i32::MAX - 1),
    ensures
        board.lock_phase().settled_within(i32::MAX - 1),
        board.lock_phase().poised(BOARD_HEIGHT - 2),
{
    let after = board.lock_phase();
    if let Some(piece) = board.falling {
        let settled = piece.settle(board.taken());
        if !settled.locked {
            lemma_unlocked_piece_is_above_floor(piece, board.taken());
        }
    }
    assert forall|i: int| 0 <= i < after.locked.len() implies #[trigger] after.settled_piece_within(
        i,
        i32::MAX - 1,
    ) by {
        if i < board.locked.len() {
            assert(board.settled_piece_within(i, BOARD_HEIGHT - 1));
            let piece = board.locked[i];
            assert forall|j: int| 0 <= j < piece.cells.len() implies (#[trigger] piece.cells[j]).y
                <= i32::MAX - 1 by {
                assert(piece.cells[j].y <= BOARD_HEIGHT - 1);
            }
        }
    }
}

/// Clearing and pruning bring the settled cells back onto the board.
proof fn lemma_clear_and_prune(board: BoardView)
    requires
        board.settled_within(i32::MAX - 1),
    ensures
        board.clear_phase().settled_within(i32::MAX as int),
        board.clear_phase().prune_phase().settled_within(BOARD_HEIGHT - 1),
{
    let cleared = board.clear_phase();
    assert forall|i: int| 0 <= i < cleared.locked.len() implies #[trigger] cleared.settled_piece_within(
        i,
        i32::MAX as int,
    ) by {
        assert(board.settled_piece_within(i, i32::MAX - 1));
        let before = board.locked[i];
        let piece = cleared.locked[i];
        assert forall|j: int| 0 <= j < piece.cells.len() implies (#[trigger] piece.cells[j]).in_columns()
            && piece.cells[j].y <= i32::MAX by {
            assert(before.cells[j].in_columns());
            assert(before.cells[j].y <= i32::MAX - 1);
        }
    }
    let pruned = cleared.prune_phase();
    assert forall|i: int| 0 <= i < pruned.locked.len() implies #[trigger] pruned.settled_piece_within(
        i,
        BOARD_HEIGHT - 1,
    ) by {
        assert(cleared.settled_piece_within(i, i32::MAX as int));
        lemma_pruned_is_on_screen(cleared.locked[i]);
    }
}

/// An update takes a valid game to a valid game, whatever piece is handed in
/// as the next one, as long as that piece can enter in its turn.
pub proof fn lemma_step_keeps_valid(
    board: BoardView,
    ticks: int,
    interval: int,
    move_count: int,
    input: Input,
    fresh: PieceView,
)
    requires
        board.valid(),
        fresh.shifted(BOARD_WIDTH / 2, 0).controllable(),
    ensures
        board.step(ticks, interval, move_count, input, fresh).valid(),
{
    let fallen = board.gravity_phase(ticks, interval, fresh);
    lemma_gravity_phase(board, ticks, interval, fresh);
    let landed = fallen.lock_phase();
    lemma_lock_phase(fallen);
    let steered = landed.input_phase(move_count, input);
    if let Some(piece) = landed.falling {
        lemma_steered_is_controllable(piece, move_count, input, landed.taken());
    }
    assert forall|i: int| 0 <= i < steered.locked.len() implies #[trigger] steered.settled_piece_within(
        i,
        i32::MAX - 1,
    ) by {
        assert(landed.settled_piece_within(i, i32::MAX - 1));
    }
    lemma_clear_and_prune(steered);
}

/// A new piece of any variant can enter at the spawn column.
pub proof fn lemma_fresh_piece_can_enter(variant: ShapeVariant)
    ensures
        PieceView::fresh(variant).shifted(BOARD_WIDTH / 2, 0).controllable(),
{
}

/// Which piece is handed in as the next one matters only to the preview, and
/// only on an update on which a piece enters.
pub proof fn lemma_fresh_only_sets_next(
    board: BoardView,
    ticks: int,
    interval: int,
    move_count: int,
    input: Input,
    fresh: PieceView,
    other: PieceView,
)
    ensures
        board.step(ticks, interval, move_count, input, fresh) == (BoardView {
            next: if board.spawns(ticks, interval) {
                fresh
            } else {
                board.next
            },
            ..board.step(ticks, interval, move_count, input, other)
        }),
{
    let a = board.gravity_phase(ticks, interval, fresh);
    let b = board.gravity_phase(ticks, interval, other);
    assert(a == BoardView { next: a.next, ..b });
    let a = a.lock_phase();
    let b = b.lock_phase();
    assert(a == BoardView { next: a.next, ..b });
    let a = a.input_phase(move_count, input);
    let b = b.input_phase(move_count, input);
    assert(a == BoardView { next: a.next, ..b });
    assert forall|x: int| a.covers_bottom(x) == b.covers_bottom(x) by {}
    let a = a.clear_phase();
    let b = b.clear_phase();
    assert(a == BoardView { next: a.next, ..b });
    let a = a.prune_phase();
    let b = b.prune_phase();
    assert(a == BoardView { next: a.next, ..b });
}

/// The score after an update: a game that starts over has no points;
/// otherwise the fall bonus is earned once if a piece was in play on a
/// gravity tick, and the clear bonus once if the last row is filled after
/// gravity, locking and input.
pub proof fn lemma_step_score(
    board: BoardView,
    ticks: int,
    interval: int,
    move_count: int,
    input: Input,
    fresh: PieceView,
)
    ensures
        ({
            let after = board.step(ticks, interval, move_count, input, fresh);
            let before_clear = board.gravity_phase(ticks, interval, fresh).lock_phase().input_phase(
                move_count,
                input,
            );
            let starts_over = board.spawns(ticks, interval) && board.next.shifted(
                BOARD_WIDTH / 2,
                0,
            ).overlaps(board.taken());
            let fall_bonus: nat = if is_multiple(ticks, interval) && board.falling is Some {
                FALL_BONUS as nat
            } else {
                0
            };
            let clear_bonus: nat = if before_clear.bottom_row_filled() {
                CLEAR_BONUS as nat
            } else {
                0
            };
            &&& starts_over ==> after.score == 0
            &&& !starts_over ==> after.score == board.score + fall_bonus + clear_bonus
        }),
{
    let fallen = board.gravity_phase(ticks, interval, fresh);
    if board.spawns(ticks, interval) && board.next.shifted(BOARD_WIDTH / 2, 0).overlaps(
        board.taken(),
    ) {
        lemma_empty_board_has_no_filled_row(fallen);
    }
}

/// With nothing settled and nothing in play, no phase after gravity changes
/// the game, and the last row is not filled.
proof fn lemma_empty_board_has_no_filled_row(board: BoardView)
    requires
        board.locked.len() == 0,
        board.falling is None,
    ensures
        board.lock_phase() == board,
        !board.bottom_row_filled(),
{
    assert(!board.covers_bottom(0));
}

/// Pruning keeps exactly the settled cells that are on the screen.
pub proof fn lemma_prune_keeps_screen(board: BoardView, c: Cell)
    ensures
        board.prune_phase().taken().contains(c) <==> on_screen(c) && board.taken().contains(c),
{
    let after = board.prune_phase();
    if after.taken().contains(c) {
        let (i, j) = choose|i: int, j: int|
            0 <= i < after.locked.len() && 0 <= j < after.locked[i].cells.len()
                && #[trigger] after.locked[i].cells[j] == c;
        lemma_kept_cells_members(board.locked[i].cells);
        assert(kept_cells(board.locked[i].cells).contains(c));
        let k = choose|k: int| 0 <= k < board.locked[i].cells.len() && board.locked[i].cells[k] == c;
        assert(board.locked[i].cells[k] == c);
    }
    if on_screen(c) && board.taken().contains(c) {
        let (i, j) = choose|i: int, j: int|
            0 <= i < board.locked.len() && 0 <= j < board.locked[i].cells.len()
                && #[trigger] board.locked[i].cells[j] == c;
        lemma_kept_cells_members(board.locked[i].cells);
        assert(board.locked[i].cells.contains(c));
        assert(kept_cells(board.locked[i].cells).contains(c));
        let k = choose|k: int|
            0 <= k < kept_cells(board.locked[i].cells).len() && kept_cells(board.locked[i].cells)[k]
                == c;
        assert(after.locked[i].cells[k] == c);
    }
}

/// Clearing a filled last row moves every settled cell down by one row.
pub proof fn lemma_clear_moves_cells_down(board: BoardView, c: Cell)
    requires
        board.bottom_row_filled(),
    ensures
        board.clear_phase().taken().contains(c) <==> board.taken().contains(c.shifted(0, -1)),
{
    let after = board.clear_phase();
    if after.taken().contains(c) {
        let (i, j) = choose|i: int, j: int|
            0 <= i < after.locked.len() && 0 <= j < after.locked[i].cells.len()
                && #[trigger] after.locked[i].cells[j] == c;
        assert(board.locked[i].cells[j] == c.shifted(0, -1));
    }
    if board.taken().contains(c.shifted(0, -1)) {
        let (i, j) = choose|i: int, j: int|
            0 <= i < board.locked.len() && 0 <= j < board.locked[i].cells.len()
                && #[trigger] board.locked[i].cells[j] == c.shifted(0, -1);
        assert(after.locked[i].cells[j] == c);
    }
}

/// After a filled last row was cleared and the board pruned, a cell is
/// settled exactly if it is on the screen and the cell above it was settled
/// before. So the cells of the cleared row are gone, and the last row now
/// holds what stood in the row above it.
pub proof fn lemma_cleared_row_scrolls_off(board: BoardView, c: Cell)
    requires
        board.bottom_row_filled(),
    ensures
        board.clear_phase().prune_phase().taken().contains(c) <==> on_screen(c)
            && board.taken().contains(c.shifted(0, -1)),
{
    lemma_clear_moves_cells_down(board, c);
    lemma_prune_keeps_screen(board.clear_phase(), c);
}

} // verus!
