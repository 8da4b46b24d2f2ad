//! Pieces: their layouts, how they move, turn and lock, and the model that
//! the rules are stated over.

use vstd::prelude::*;
use crate::utils::{
    lemma_rotate_around_order_four, pos, quarter_turn, rotate_around, Cell, Pos, BOARD_HEIGHT,
    BOARD_WIDTH,
};

verus! {

/// The seven standard pieces.
#[derive(Debug, Copy, Clone, PartialEq, Eq, Structural)]
pub enum ShapeVariant {
    I,
    O,
    T,
    S,
    Z,
    J,
    L,
}

/// What the player asks for during one frame.
#[derive(Debug, Copy, Clone, PartialEq, Eq, Structural)]
pub struct Input {
    /// The move-left key is held.
    pub left: bool,
    /// The move-right key is held.
    pub right: bool,
    /// The rotate key went down in this frame.
    pub rotate: bool,
}

/// The mathematical model of a piece: its cells in order, the index of the
/// cell it turns about, its variant and whether it has settled.
pub struct PieceView {
    pub cells: Seq<Cell>,
    pub anchor: int,
    pub variant: ShapeVariant,
    pub locked: bool,
}

/// The cells that a sequence of tiles stands for.
pub open spec fn cells_of(tiles: Seq<Pos>) -> Seq<Cell> {
    tiles.map_values(|p: Pos| p@)
}

/// The models of a sequence of pieces.
pub open spec fn piece_views(shapes: Seq<Shape>) -> Seq<PieceView> {
    shapes.map_values(|s: Shape| s@)
}

/// The set of cells that the given pieces cover.
pub open spec fn occupied(pieces: Seq<PieceView>) -> Set<Cell> {
    Set::new(
        |c: Cell|
            exists|i: int, j: int|
                0 <= i < pieces.len() && 0 <= j < pieces[i].cells.len()
                    && #[trigger] pieces[i].cells[j] == c,
    )
}

/// The set of cells that the given shapes cover.
pub open spec fn taken_by(shapes: Seq<Shape>) -> Set<Cell> {
    occupied(piece_views(shapes))
}

/// The cells among `cells` that are still on the screen, in their order.
pub open spec fn kept_cells(cells: Seq<Cell>) -> Seq<Cell> {
    cells.filter(|c: Cell| on_screen(c))
}

/// A cell can drop by one row: it is above the last row and the cell below
/// it is not taken.
pub open spec fn can_drop(taken: Set<Cell>, c: Cell) -> bool {
    c.y < BOARD_HEIGHT - 1 && !taken.contains(c.shifted(0, 1))
}

/// Where a cell comes to rest when it drops straight down on its own: the
/// first cell at or below it that is in the last row, or below that row, or
/// directly above a taken cell.
pub open spec fn landing(taken: Set<Cell>, c: Cell) -> Cell
    decreases BOARD_HEIGHT - 1 - c.y,
{
    if can_drop(taken, c) {
        landing(taken, c.shifted(0, 1))
    } else {
        c
    }
}

/// A cell stays on the screen when its row is not below the last one.
pub open spec fn on_screen(c: Cell) -> bool {
    c.y <= BOARD_HEIGHT - 1
}

impl PieceView {
    /// The cells of a new piece of the given variant, around the origin.
    pub open spec fn spawn_cells(variant: ShapeVariant) -> Seq<Cell> {
        match variant {
            ShapeVariant::I => seq![
                Cell { x: -2, y: 0 },
                Cell { x: -1, y: 0 },
                Cell { x: 0, y: 0 },
                Cell { x: 1, y: 0 },
            ],
            ShapeVariant::O => seq![
                Cell { x: -1, y: 0 },
                Cell { x: 0, y: 0 },
                Cell { x: -1, y: 1 },
                Cell { x: 0, y: 1 },
            ],
            ShapeVariant::T => seq![
                Cell { x: -1, y: 1 },
                Cell { x: 0, y: 1 },
                Cell { x: 0, y: 0 },
                Cell { x: 1, y: 1 },
            ],
            ShapeVariant::S => seq![
                Cell { x: -1, y: 1 },
                Cell { x: 0, y: 1 },
                Cell { x: 0, y: 0 },
                Cell { x: 1, y: 0 },
            ],
            ShapeVariant::Z => seq![
                Cell { x: -1, y: 0 },
                Cell { x: 0, y: 0 },
                Cell { x: 0, y: 1 },
                Cell { x: 1, y: 1 },
            ],
            ShapeVariant::J => seq![
                Cell { x: -1, y: 0 },
                Cell { x: -1, y: 1 },
                Cell { x: 0, y: 1 },
                Cell { x: 1, y: 1 },
            ],
            ShapeVariant::L => seq![
                Cell { x: -1, y: 1 },
                Cell { x: 0, y: 1 },
                Cell { x: 1, y: 1 },
                Cell { x: 1, y: 0 },
            ],
        }
    }

    /// The index of the cell that a new piece of the given variant turns about.
    pub open spec fn spawn_anchor(variant: ShapeVariant) -> int {
        match variant {
            ShapeVariant::I => 1,
            ShapeVariant::O => 3,
            ShapeVariant::T => 1,
            ShapeVariant::S => 1,
            ShapeVariant::Z => 2,
            ShapeVariant::J => 2,
            ShapeVariant::L => 1,
        }
    }

    /// A new, unlocked piece of the given variant, around the origin.
    pub open spec fn fresh(variant: ShapeVariant) -> PieceView {
        PieceView {
            cells: Self::spawn_cells(variant),
            anchor: Self::spawn_anchor(variant),
            variant,
            locked: false,
        }
    }

    /// The piece is a new one of some variant.
    pub open spec fn is_fresh(self) -> bool {
        self == Self::fresh(self.variant)
    }

    /// Every cell fits in machine coordinates.
    pub open spec fn representable(self) -> bool {
        forall|i: int| 0 <= i < self.cells.len() ==> (#[trigger] self.cells[i]).representable()
    }

    /// The anchor index names one of the cells.
    pub open spec fn anchored(self) -> bool {
        0 <= self.anchor < self.cells.len()
    }

    /// The cell that the piece turns about.
    pub open spec fn pivot(self) -> Cell {
        self.cells[self.anchor]
    }

    /// The piece with the given cells and everything else unchanged.
    pub open spec fn with_cells(self, cells: Seq<Cell>) -> PieceView {
        PieceView { cells, ..self }
    }

    /// Every cell moved by `dx` columns and `dy` rows.
    pub open spec fn shifted(self, dx: int, dy: int) -> PieceView {
        self.with_cells(self.cells.map_values(|c: Cell| c.shifted(dx, dy)))
    }

    /// One step of gravity: an unlocked piece drops by one row, a locked one
    /// stays as it is.
    pub open spec fn fall(self) -> PieceView {
        if self.locked {
            self
        } else {
            self.shifted(0, 1)
        }
    }

    /// Some cell lies in the last row of the board or below it.
    pub open spec fn touches_floor(self) -> bool {
        exists|i: int| 0 <= i < self.cells.len() && (#[trigger] self.cells[i]).y >= BOARD_HEIGHT - 1
    }

    /// Some cell has a taken cell directly below it.
    pub open spec fn rests_on(self, taken: Set<Cell>) -> bool {
        exists|i: int|
            0 <= i < self.cells.len() && taken.contains((#[trigger] self.cells[i]).shifted(0, 1))
    }

    /// The piece after its lock condition was evaluated: it is locked if it
    /// was so before, if it touches the floor, or if it rests on a taken cell.
    pub open spec fn settle(self, taken: Set<Cell>) -> PieceView {
        PieceView { locked: self.locked || self.touches_floor() || self.rests_on(taken), ..self }
    }

    /// The cell at `i` may move by `dx` columns: it stays on the board and
    /// meets no taken cell.
    pub open spec fn cell_can_shift(self, i: int, dx: int, taken: Set<Cell>) -> bool {
        let target = self.cells[i].shifted(dx, 0);
        target.in_columns() && !taken.contains(target)
    }

    /// The whole piece may move by `dx` columns.
    pub open spec fn can_shift(self, dx: int, taken: Set<Cell>) -> bool {
        forall|i: int| 0 <= i < self.cells.len() ==> #[trigger] self.cell_can_shift(i, dx, taken)
    }

    /// The cell at `i` may take a quarter turn about the piece's own anchor:
    /// it lands in a column of the board and on no taken cell. Rows are not
    /// looked at.
    pub open spec fn cell_can_turn(self, i: int, taken: Set<Cell>) -> bool {
        let target = self.cells[i].rotated_around(self.pivot());
        target.in_columns() && !taken.contains(target)
    }

    /// The whole piece may take a quarter turn about its own anchor.
    pub open spec fn can_turn(self, taken: Set<Cell>) -> bool {
        forall|i: int| 0 <= i < self.cells.len() ==> #[trigger] self.cell_can_turn(i, taken)
    }

    /// A quarter turn of every cell about `about`; the square piece looks the
    /// same after a turn and is left as it is.
    pub open spec fn turned_about(self, about: Cell) -> PieceView {
        if self.variant == ShapeVariant::O {
            self
        } else {
            self.with_cells(self.cells.map_values(|c: Cell| c.rotated_around(about)))
        }
    }

    /// The piece after `count` quarter turns about `about`.
    pub open spec fn turned_times(self, about: Cell, count: nat) -> PieceView
        decreases count,
    {
        if count == 0 {
            self
        } else {
            self.turned_about(about).turned_times(about, (count - 1) as nat)
        }
    }

    /// The piece after `count` steps of gravity.
    pub open spec fn fall_times(self, count: nat) -> PieceView
        decreases count,
    {
        if count == 0 {
            self
        } else {
            self.fall().fall_times((count - 1) as nat)
        }
    }

    /// The piece after the player's sideways wish, if any, was granted.
    pub open spec fn nudged(self, move_count: int, input: Input, taken: Set<Cell>) -> PieceView {
        if move_count % 5 != 0 {
            self
        } else if input.left {
            if self.can_shift(-1, taken) {
                self.shifted(-1, 0)
            } else {
                self
            }
        } else if input.right {
            if self.can_shift(1, taken) {
                self.shifted(1, 0)
            } else {
                self
            }
        } else {
            self
        }
    }

    /// The piece after the player's turn wish, if any, was granted.
    pub open spec fn spun(self, input: Input, taken: Set<Cell>) -> PieceView {
        if input.rotate && self.can_turn(taken) {
            self.turned_about(self.pivot())
        } else {
            self
        }
    }

    /// The piece after one frame of player control: a sideways move on every
    /// fifth count, then a turn, each only where it is legal.
    pub open spec fn steered(self, move_count: int, input: Input, taken: Set<Cell>) -> PieceView {
        self.nudged(move_count, input, taken).spun(input, taken)
    }

    /// Some cell of the piece is a taken cell.
    pub open spec fn overlaps(self, taken: Set<Cell>) -> bool {
        exists|i: int| 0 <= i < self.cells.len() && taken.contains(#[trigger] self.cells[i])
    }

    /// Every cell lies in a column of the board.
    pub open spec fn within_columns(self) -> bool {
        forall|i: int| 0 <= i < self.cells.len() ==> (#[trigger] self.cells[i]).in_columns()
    }

    /// Every row is at most `limit`.
    pub open spec fn rows_at_most(self, limit: int) -> bool {
        forall|i: int| 0 <= i < self.cells.len() ==> (#[trigger] self.cells[i]).y <= limit
    }

    /// A piece in play: four cells in columns of the board, one of them the
    /// anchor, not yet locked. The anchor keeps such a distance from the
    /// smallest machine row that a quarter turn, which moves a cell at most
    /// `BOARD_WIDTH - 1` rows away from the anchor, stays in machine
    /// coordinates.
    pub open spec fn active(self) -> bool {
        &&& self.cells.len() == 4
        &&& self.anchored()
        &&& !self.locked
        &&& self.within_columns()
        &&& self.pivot().y >= i32::MIN + BOARD_WIDTH - 1
    }

    /// A piece in play that has room below for one fall and one more shift
    /// in machine coordinates.
    pub open spec fn controllable(self) -> bool {
        &&& self.active()
        &&& self.rows_at_most(i32::MAX - 2)
    }

    /// The piece without the cells that scrolled off the screen.
    pub open spec fn pruned(self) -> PieceView {
        self.with_cells(kept_cells(self.cells))
    }

    /// `k` is the index of the first cell in the smallest column.
    pub open spec fn is_left_most(self, k: int) -> bool {
        &&& 0 <= k < self.cells.len()
        &&& forall|j: int| 0 <= j < self.cells.len() ==> self.cells[k].x <= (#[trigger] self.cells[j]).x
        &&& forall|j: int| 0 <= j < k ==> self.cells[k].x < (#[trigger] self.cells[j]).x
    }

    /// `k` is the index of the first cell in the largest column.
    pub open spec fn is_right_most(self, k: int) -> bool {
        &&& 0 <= k < self.cells.len()
        &&& forall|j: int| 0 <= j < self.cells.len() ==> self.cells[k].x >= (#[trigger] self.cells[j]).x
        &&& forall|j: int| 0 <= j < k ==> self.cells[k].x > (#[trigger] self.cells[j]).x
    }
}

/// A piece: its tiles, the tile it turns about, its variant and whether it
/// has settled.
pub struct Shape {
    pub tiles: Vec<Pos>,
    anchor_index: usize,
    pub variant: ShapeVariant,
    locked: bool,
}

impl View for Shape {
    type V = PieceView;

    closed spec fn view(&self) -> PieceView {
        PieceView {
            cells: cells_of(self.tiles@),
            anchor: self.anchor_index as int,
            variant: self.variant,
            locked: self.locked,
        }
    }
}

impl Clone for Shape {
    fn clone(&self) -> (copy: Self)
        ensures
            copy@ == self@,
    {
        Shape {
            tiles: self.tiles.clone(),
            anchor_index: self.anchor_index,
            variant: self.variant,
            locked: self.locked,
        }
    }
}

impl Shape {
    /// The tiles of the piece, in their order.
    pub fn tiles(&self) -> (tiles: &Vec<Pos>)
        ensures
            cells_of(tiles@) == self@.cells,
    {
        &self.tiles
    }

    /// The variant of the piece.
    pub fn variant(&self) -> (variant: ShapeVariant)
        ensures
            variant == self@.variant,
    {
        self.variant
    }

    /// The index of the tile that the piece turns about.
    pub fn anchor_index(&self) -> (index: usize)
        ensures
            index == self@.anchor,
    {
        self.anchor_index
    }

    /// Whether the piece has settled.
    pub fn locked(&self) -> (settled: bool)
        ensures
            settled == self@.locked,
    {
        self.locked
    }
}

/// An unlocked shape of four tiles.
fn build(a: Pos, b: Pos, c: Pos, d: Pos, anchor_index: usize, variant: ShapeVariant) -> (shape: Shape)
    ensures
        shape@ == (PieceView {
            cells: seq![a@, b@, c@, d@],
            anchor: anchor_index as int,
            variant,
            locked: false,
        }),
{
    let mut tiles: Vec<Pos> = Vec::new();
    tiles.push(a);
    tiles.push(b);
    tiles.push(c);
    tiles.push(d);
    assert(cells_of(tiles@) =~= seq![a@, b@, c@, d@]);
    Shape { tiles, anchor_index, variant, locked: false }
}

/// The bar: four tiles in a row.
pub fn new_i() -> (shape: Shape)
    ensures
        shape@ == PieceView::fresh(ShapeVariant::I),
{
    build(pos(-2, 0), pos(-1, 0), pos(0, 0), pos(1, 0), 1, ShapeVariant::I)
}

/// The square: two rows of two tiles.
pub fn new_o() -> (shape: Shape)
    ensures
        shape@ == PieceView::fresh(ShapeVariant::O),
{
    build(pos(-1, 0), pos(0, 0), pos(-1, 1), pos(0, 1), 3, ShapeVariant::O)
}

/// The T: a row of three tiles with one above the middle.
pub fn new_t() -> (shape: Shape)
    ensures
        shape@ == PieceView::fresh(ShapeVariant::T),
{
    build(pos(-1, 1), pos(0, 1), pos(0, 0), pos(1, 1), 1, ShapeVariant::T)
}

/// The S: two tiles with two more above them, one column to the right.
pub fn new_s() -> (shape: Shape)
    ensures
        shape@ == PieceView::fresh(ShapeVariant::S),
{
    build(pos(-1, 1), pos(0, 1), pos(0, 0), pos(1, 0), 1, ShapeVariant::S)
}

/// The Z: two tiles with two more below them, one column to the right.
pub fn new_z() -> (shape: Shape)
    ensures
        shape@ == PieceView::fresh(ShapeVariant::Z),
{
    build(pos(-1, 0), pos(0, 0), pos(0, 1), pos(1, 1), 2, ShapeVariant::Z)
}

/// The J: a row of three tiles with one above its left end.
pub fn new_j() -> (shape: Shape)
    ensures
        shape@ == PieceView::fresh(ShapeVariant::J),
{
    build(pos(-1, 0), pos(-1, 1), pos(0, 1), pos(1, 1), 2, ShapeVariant::J)
}

/// The L: a row of three tiles with one above its right end.
pub fn new_l() -> (shape: Shape)
    ensures
        shape@ == PieceView::fresh(ShapeVariant::L),
{
    build(pos(-1, 1), pos(0, 1), pos(1, 1), pos(1, 0), 1, ShapeVariant::L)
}

/// A new shape of the given variant, around the origin.
pub fn new_shape(variant: ShapeVariant) -> (shape: Shape)
    ensures
        shape@ == PieceView::fresh(variant),
{
    match variant {
        ShapeVariant::I => new_i(),
        ShapeVariant::O => new_o(),
        ShapeVariant::T => new_t(),
        ShapeVariant::S => new_s(),
        ShapeVariant::Z => new_z(),
        ShapeVariant::J => new_j(),
        ShapeVariant::L => new_l(),
    }
}

/// The cells of a shape have machine coordinates.
pub proof fn lemma_shape_is_representable(shape: Shape)
    ensures
        shape@.representable(),
{
    assert forall|i: int| 0 <= i < shape@.cells.len() implies (#[trigger] shape@.cells[i]).representable() by {
        assert(shape@.cells[i] == shape.tiles@[i]@);
    }
}

/// Whatever a shape covers has machine coordinates.
pub proof fn lemma_taken_cells_are_representable(shapes: Seq<Shape>, c: Cell)
    requires
        taken_by(shapes).contains(c),
    ensures
        c.representable(),
{
    let pieces = piece_views(shapes);
    let (i, j) = choose|i: int, j: int|
        0 <= i < pieces.len() && 0 <= j < pieces[i].cells.len() && #[trigger] pieces[i].cells[j]
            == c;
    assert(pieces[i].cells[j] == shapes[i].tiles@[j]@);
}

/// Keeping the cells on the screen, one cell at a time.
proof fn lemma_kept_cells_push(cells: Seq<Cell>, c: Cell)
    ensures
        kept_cells(cells.push(c)) == if on_screen(c) {
            kept_cells(cells).push(c)
        } else {
            kept_cells(cells)
        },
{
    reveal(Seq::filter);
    assert(cells.push(c).drop_last() =~= cells);
}

/// Tells whether one of the shapes covers `tile`.
pub fn is_occupied(shapes: &Vec<Shape>, tile: Pos) -> (found: bool)
    ensures
        found == taken_by(shapes@).contains(tile@),
{
    let ghost pieces = piece_views(shapes@);
    let mut i: usize = 0;
    while i < shapes.len()
        invariant
            i <= shapes.len(),
            pieces == piece_views(shapes@),
            forall|a: int, b: int|
                0 <= a < i && 0 <= b < pieces[a].cells.len() ==> #[trigger] pieces[a].cells[b]
                    != tile@,
        decreases shapes.len() - i,
    {
        let shape = &shapes[i];
        let mut j: usize = 0;
        while j < shape.tiles.len()
            invariant
                i < shapes.len(),
                j <= shape.tiles.len(),
                shape == &shapes[i as int],
                pieces == piece_views(shapes@),
                forall|b: int| 0 <= b < j ==> #[trigger] pieces[i as int].cells[b] != tile@,
            decreases shape.tiles.len() - j,
        {
            let candidate = shape.tiles[j];
            assert(pieces[i as int].cells[j as int] == candidate@);
            if candidate.x == tile.x && candidate.y == tile.y {
                return true;
            }
            j += 1;
        }
        i += 1;
    }
    false
}

impl Shape {
    /// Moves every tile by `dx` columns and `dy` rows.
    pub fn shift(&mut self, dx: i32, dy: i32)
        requires
            old(self)@.shifted(dx as int, dy as int).representable(),
        ensures
            final(self)@ == old(self)@.shifted(dx as int, dy as int),
    {
        let ghost target = old(self)@.shifted(dx as int, dy as int);
        let mut i: usize = 0;
        while i < self.tiles.len()
            invariant
                i <= self.tiles.len(),
                self.tiles.len() == old(self).tiles.len(),
                self.anchor_index == old(self).anchor_index,
                self.variant == old(self).variant,
                self.locked == old(self).locked,
                target == old(self)@.shifted(dx as int, dy as int),
                target.representable(),
                forall|j: int| 0 <= j < i ==> (#[trigger] self.tiles[j])@ == target.cells[j],
                forall|j: int|
                    i <= j < self.tiles.len() ==> #[trigger] self.tiles[j] == old(self).tiles[j],
            decreases self.tiles.len() - i,
        {
            let tile = self.tiles[i];
            assert(target.cells[i as int] == tile@.shifted(dx as int, dy as int));
            assert(target.cells[i as int].representable());
            self.tiles[i] = Pos { x: tile.x + dx, y: tile.y + dy };
            i += 1;
        }
        assert(self@.cells =~= target.cells);
    }

    /// Moves the piece from the origin to the middle column of the board.
    pub fn center_x(&mut self)
        requires
            old(self)@.shifted(BOARD_WIDTH / 2, 0).representable(),
        ensures
            final(self)@ == old(self)@.shifted(BOARD_WIDTH / 2, 0),
    {
        self.shift(BOARD_WIDTH / 2, 0);
    }

    /// One step of gravity: an unlocked piece drops by one row.
    pub fn gravity(&mut self)
        requires
            old(self)@.fall().representable(),
        ensures
            final(self)@ == old(self)@.fall(),
            old(self)@.locked ==> final(self)@ == old(self)@,
    {
        if !self.locked {
            self.shift(0, 1);
        }
    }

    /// Tells whether a tile is in the last row or below it.
    fn on_floor(&self) -> (touching: bool)
        ensures
            touching == self@.touches_floor(),
    {
        let mut i: usize = 0;
        while i < self.tiles.len()
            invariant
                i <= self.tiles.len(),
                forall|j: int| 0 <= j < i ==> (#[trigger] self@.cells[j]).y < BOARD_HEIGHT - 1,
            decreases self.tiles.len() - i,
        {
            if self.tiles[i].y >= BOARD_HEIGHT - 1 {
                assert(self@.cells[i as int].y >= BOARD_HEIGHT - 1);
                return true;
            }
            i += 1;
        }
        false
    }

    /// Tells whether a tile stands directly above a tile of `locked_shapes`.
    fn supported(&self, locked_shapes: &Vec<Shape>) -> (resting: bool)
        requires
            !self@.touches_floor(),
        ensures
            resting == self@.rests_on(taken_by(locked_shapes@)),
    {
        let ghost taken = taken_by(locked_shapes@);
        let mut i: usize = 0;
        while i < self.tiles.len()
            invariant
                i <= self.tiles.len(),
                !self@.touches_floor(),
                taken == taken_by(locked_shapes@),
                forall|j: int|
                    0 <= j < i ==> !taken.contains((#[trigger] self@.cells[j]).shifted(0, 1)),
            decreases self.tiles.len() - i,
        {
            let tile = self.tiles[i];
            assert(self@.cells[i as int] == tile@);
            if is_occupied(locked_shapes, pos(tile.x, tile.y + 1)) {
                assert(taken.contains(self@.cells[i as int].shifted(0, 1)));
                return true;
            }
            i += 1;
        }
        false
    }

    /// Evaluates the lock condition: the piece becomes locked when a tile
    /// is in the last row or directly above a tile of `locked_shapes`.
    pub fn update_locked_status(&mut self, locked_shapes: &Vec<Shape>)
        ensures
            final(self)@ == old(self)@.settle(taken_by(locked_shapes@)),
    {
        if self.on_floor() {
            self.locked = true;
        }
        if !self.locked {
            if self.supported(locked_shapes) {
                self.locked = true;
            }
        }
    }

    /// The first tile in the smallest column.
    pub fn left_most(&self) -> (edge: Pos)
        requires
            self@.cells.len() > 0,
        ensures
            exists|k: int| self@.is_left_most(k) && edge@ == self@.cells[k],
    {
        let mut best: usize = 0;
        let mut i: usize = 1;
        while i < self.tiles.len()
            invariant
                1 <= i <= self.tiles.len(),
                best < i,
                forall|j: int| 0 <= j < i ==> self.tiles[best as int].x <= (#[trigger] self.tiles[j]).x,
                forall|j: int| 0 <= j < best ==> self.tiles[best as int].x < (#[trigger] self.tiles[j]).x,
            decreases self.tiles.len() - i,
        {
            if self.tiles[i].x < self.tiles[best].x {
                best = i;
            }
            i += 1;
        }
        assert(self@.is_left_most(best as int));
        self.tiles[best]
    }

    /// The first tile in the largest column.
    pub fn right_most(&self) -> (edge: Pos)
        requires
            self@.cells.len() > 0,
        ensures
            exists|k: int| self@.is_right_most(k) && edge@ == self@.cells[k],
    {
        let mut best: usize = 0;
        let mut i: usize = 1;
        while i < self.tiles.len()
            invariant
                1 <= i <= self.tiles.len(),
                best < i,
                forall|j: int| 0 <= j < i ==> self.tiles[best as int].x >= (#[trigger] self.tiles[j]).x,
                forall|j: int| 0 <= j < best ==> self.tiles[best as int].x > (#[trigger] self.tiles[j]).x,
            decreases self.tiles.len() - i,
        {
            if self.tiles[i].x > self.tiles[best].x {
                best = i;
            }
            i += 1;
        }
        assert(self@.is_right_most(best as int));
        self.tiles[best]
    }

    /// Tells whether the piece may move by `dx` columns: every tile must
    /// stay on the board and meet no tile of `locked_shapes`.
    pub fn can_move(&self, dx: i32, locked_shapes: &Vec<Shape>) -> (ok: bool)
        ensures
            ok == self@.can_shift(dx as int, taken_by(locked_shapes@)),
    {
        let ghost taken = taken_by(locked_shapes@);
        let mut i: usize = 0;
        while i < self.tiles.len()
            invariant
                i <= self.tiles.len(),
                taken == taken_by(locked_shapes@),
                forall|j: int| 0 <= j < i ==> #[trigger] self@.cell_can_shift(j, dx as int, taken),
            decreases self.tiles.len() - i,
        {
            let tile = self.tiles[i];
            assert(self@.cells[i as int] == tile@);
            let column: i64 = tile.x as i64 + dx as i64;
            if column < 0 || column > BOARD_WIDTH as i64 - 1 {
                assert(!self@.cell_can_shift(i as int, dx as int, taken));
                return false;
            }
            if is_occupied(locked_shapes, Pos::new(column as i32, tile.y)) {
                assert(!self@.cell_can_shift(i as int, dx as int, taken));
                return false;
            }
            assert(self@.cell_can_shift(i as int, dx as int, taken));
            i += 1;
        }
        true
    }

    /// Tells whether the piece may move one column to the right. It may not
    /// where a tile would leave the board.
    pub fn can_move_right(&self, locked_shapes: &Vec<Shape>) -> (ok: bool)
        ensures
            ok == self@.can_shift(1, taken_by(locked_shapes@)),
            ok ==> forall|i: int|
                0 <= i < self@.cells.len() ==> (#[trigger] self@.cells[i]).x + 1 < BOARD_WIDTH,
    {
        let ok = self.can_move(1, locked_shapes);
        proof {
            if ok {
                lemma_shift_stays_on_board(self@, 1, taken_by(locked_shapes@));
            }
        }
        ok
    }

    /// Tells whether the piece may move one column to the left. It may not
    /// where a tile would leave the board.
    pub fn can_move_left(&self, locked_shapes: &Vec<Shape>) -> (ok: bool)
        ensures
            ok == self@.can_shift(-1, taken_by(locked_shapes@)),
            ok ==> forall|i: int| 0 <= i < self@.cells.len() ==> (#[trigger] self@.cells[i]).x - 1 >= 0,
    {
        let ok = self.can_move(-1, locked_shapes);
        proof {
            if ok {
                lemma_shift_stays_on_board(self@, -1, taken_by(locked_shapes@));
            }
        }
        ok
    }

    /// Tells whether the piece may take a quarter turn about its anchor:
    /// every turned tile must land in a column of the board and on no tile of
    /// `locked_shapes`. Rows are not looked at.
    pub fn can_rotate(&self, locked_shapes: &Vec<Shape>) -> (ok: bool)
        requires
            self@.cells.len() > 0 ==> self@.anchored(),
        ensures
            ok == self@.can_turn(taken_by(locked_shapes@)),
    {
        let ghost taken = taken_by(locked_shapes@);
        let mut i: usize = 0;
        while i < self.tiles.len()
            invariant
                i <= self.tiles.len(),
                self@.cells.len() > 0 ==> self@.anchored(),
                taken == taken_by(locked_shapes@),
                forall|j: int| 0 <= j < i ==> #[trigger] self@.cell_can_turn(j, taken),
            decreases self.tiles.len() - i,
        {
            let tile = self.tiles[i];
            let anchor = self.tiles[self.anchor_index];
            assert(self@.cells[i as int] == tile@);
            assert(self@.pivot() == anchor@);
            let (column, row) = quarter_turn(tile, anchor);
            if column < 0 || column > BOARD_WIDTH as i64 - 1 {
                assert(!self@.cell_can_turn(i as int, taken));
                return false;
            }
            if i32::MIN as i64 <= row && row <= i32::MAX as i64 {
                if is_occupied(locked_shapes, Pos::new(column as i32, row as i32)) {
                    assert(!self@.cell_can_turn(i as int, taken));
                    return false;
                }
            } else {
                proof {
                    let target = tile@.rotated_around(anchor@);
                    if taken.contains(target) {
                        lemma_taken_cells_are_representable(locked_shapes@, target);
                    }
                }
            }
            assert(self@.cell_can_turn(i as int, taken));
            i += 1;
        }
        true
    }

    /// Tells whether a tile of the piece is also a tile of `shapes`.
    pub fn overlaps(&self, shapes: &Vec<Shape>) -> (hit: bool)
        ensures
            hit == self@.overlaps(taken_by(shapes@)),
    {
        let ghost taken = taken_by(shapes@);
        let mut i: usize = 0;
        while i < self.tiles.len()
            invariant
                i <= self.tiles.len(),
                taken == taken_by(shapes@),
                forall|j: int| 0 <= j < i ==> !taken.contains(#[trigger] self@.cells[j]),
            decreases self.tiles.len() - i,
        {
            let tile = self.tiles[i];
            assert(self@.cells[i as int] == tile@);
            if is_occupied(shapes, tile) {
                return true;
            }
            i += 1;
        }
        false
    }

    /// Tells whether every tile lies in a column of the board and on the
    /// screen.
    pub fn is_on_board(&self) -> (ok: bool)
        ensures
            ok == (self@.within_columns() && self@.rows_at_most(BOARD_HEIGHT - 1)),
    {
        let mut i: usize = 0;
        while i < self.tiles.len()
            invariant
                i <= self.tiles.len(),
                forall|j: int| 0 <= j < i ==> (#[trigger] self@.cells[j]).in_columns(),
                forall|j: int| 0 <= j < i ==> (#[trigger] self@.cells[j]).y <= BOARD_HEIGHT - 1,
            decreases self.tiles.len() - i,
        {
            let tile = self.tiles[i];
            assert(self@.cells[i as int] == tile@);
            if tile.x < 0 || tile.x > BOARD_WIDTH - 1 || tile.y > BOARD_HEIGHT - 1 {
                return false;
            }
            i += 1;
        }
        true
    }

    /// Tells whether the piece, moved by `dx` columns, would be one that the
    /// player can control.
    pub fn is_controllable_after(&self, dx: i32) -> (ok: bool)
        ensures
            ok == self@.shifted(dx as int, 0).controllable(),
    {
        let ghost moved = self@.shifted(dx as int, 0);
        if self.tiles.len() != 4 || self.anchor_index >= 4 || self.locked {
            return false;
        }
        assert(moved.pivot() == self@.pivot().shifted(dx as int, 0));
        if self.tiles[self.anchor_index].y < i32::MIN + BOARD_WIDTH - 1 {
            return false;
        }
        let mut i: usize = 0;
        while i < self.tiles.len()
            invariant
                i <= self.tiles.len(),
                moved == self@.shifted(dx as int, 0),
                forall|j: int| 0 <= j < i ==> (#[trigger] moved.cells[j]).in_columns(),
                forall|j: int| 0 <= j < i ==> (#[trigger] moved.cells[j]).y <= i32::MAX - 2,
            decreases self.tiles.len() - i,
        {
            let tile = self.tiles[i];
            assert(moved.cells[i as int] == tile@.shifted(dx as int, 0));
            let column: i64 = tile.x as i64 + dx as i64;
            if column < 0 || column > BOARD_WIDTH as i64 - 1 || tile.y > i32::MAX - 2 {
                return false;
            }
            i += 1;
        }
        true
    }

    /// Tells whether the player can control the piece where it stands.
    pub fn is_controllable(&self) -> (ok: bool)
        ensures
            ok == self@.controllable(),
    {
        assert(self@.shifted(0, 0).cells =~= self@.cells);
        self.is_controllable_after(0)
    }

    /// Where each tile would come to rest if it dropped straight down on its
    /// own, in the order of the tiles.
    pub fn landing_tiles(&self, locked_shapes: &Vec<Shape>) -> (landed: Vec<Pos>)
        ensures
            cells_of(landed@) == self@.cells.map_values(
                |c: Cell| landing(taken_by(locked_shapes@), c),
            ),
    {
        let ghost taken = taken_by(locked_shapes@);
        let mut landed: Vec<Pos> = Vec::new();
        let mut i: usize = 0;
        while i < self.tiles.len()
            invariant
                i <= self.tiles.len(),
                taken == taken_by(locked_shapes@),
                landed.len() == i,
                forall|j: int| 0 <= j < i ==> (#[trigger] landed[j])@ == landing(taken, self@.cells[j]),
            decreases self.tiles.len() - i,
        {
            let tile = self.tiles[i];
            assert(self@.cells[i as int] == tile@);
            let mut at = tile;
            while at.y < BOARD_HEIGHT - 1 && !is_occupied(locked_shapes, pos(at.x, at.y + 1))
                invariant
                    taken == taken_by(locked_shapes@),
                    landing(taken, at@) == landing(taken, tile@),
                decreases BOARD_HEIGHT - 1 - at.y,
            {
                at = pos(at.x, at.y + 1);
            }
            landed.push(at);
            i += 1;
        }
        assert(cells_of(landed@) =~= self@.cells.map_values(|c: Cell| landing(taken, c)));
        landed
    }

    /// Drops the tiles that scrolled off the bottom of the screen.
    pub fn remove_if_below_screen(&mut self)
        ensures
            final(self)@ == old(self)@.pruned(),
    {
        let mut kept: Vec<Pos> = Vec::new();
        let mut i: usize = 0;
        assert(self.tiles@.take(0) =~= Seq::<Pos>::empty());
        assert(cells_of(Seq::<Pos>::empty()) =~= Seq::<Cell>::empty());
        assert(kept_cells(Seq::<Cell>::empty()) =~= Seq::<Cell>::empty()) by {
            reveal(Seq::filter);
        }
        while i < self.tiles.len()
            invariant
                i <= self.tiles.len(),
                *self == *old(self),
                cells_of(kept@) == kept_cells(cells_of(self.tiles@.take(i as int))),
            decreases self.tiles.len() - i,
        {
            let tile = self.tiles[i];
            proof {
                let before = self.tiles@.take(i as int);
                assert(self.tiles@.take(i + 1) =~= before.push(tile));
                assert(cells_of(before.push(tile)) =~= cells_of(before).push(tile@));
                lemma_kept_cells_push(cells_of(before), tile@);
                assert(cells_of(kept@.push(tile)) =~= cells_of(kept@).push(tile@));
            }
            if !(tile.y > BOARD_HEIGHT - 1) {
                kept.push(tile);
            }
            i += 1;
        }
        assert(self.tiles@.take(self.tiles.len() as int) =~= self.tiles@);
        self.tiles = kept;
    }

    /// Applies the player's wishes for one frame: a sideways move on every
    /// fifth count, left before right, then a turn, each only where legal.
    pub fn control(&mut self, move_count: i32, locked_shapes: &Vec<Shape>, input: &Input)
        requires
            input.rotate ==> old(self)@.anchored(),
            old(self)@.steered(
                move_count as int,
                *input,
                taken_by(locked_shapes@),
            ).representable(),
        ensures
            final(self)@ == old(self)@.steered(move_count as int, *input, taken_by(locked_shapes@)),
    {
        let ghost taken = taken_by(locked_shapes@);
        if move_count % 5 == 0 {
            if input.left {
                if self.can_move_left(locked_shapes) {
                    proof {
                        lemma_legal_shift_is_representable(self@, -1, taken);
                    }
                    self.shift(-1, 0);
                }
            } else if input.right {
                if self.can_move_right(locked_shapes) {
                    proof {
                        lemma_legal_shift_is_representable(self@, 1, taken);
                    }
                    self.shift(1, 0);
                }
            }
        }
        assert(self@ == old(self)@.nudged(move_count as int, *input, taken));
        if input.rotate {
            if self.can_rotate(locked_shapes) {
                let anchor = self.tiles[self.anchor_index];
                self.rotate(anchor);
            }
        }
    }

    /// Turns every tile by a quarter about `anchor`; the square piece is
    /// left as it is.
    pub fn rotate(&mut self, anchor: Pos)
        requires
            old(self)@.turned_about(anchor@).representable(),
        ensures
            final(self)@ == old(self)@.turned_about(anchor@),
            old(self)@.variant == ShapeVariant::O ==> final(self)@ == old(self)@,
    {
        if self.variant == ShapeVariant::O {
            return ;
        }
        let ghost target = old(self)@.turned_about(anchor@);
        let mut i: usize = 0;
        while i < self.tiles.len()
            invariant
                i <= self.tiles.len(),
                self.tiles.len() == old(self).tiles.len(),
                self.anchor_index == old(self).anchor_index,
                self.variant == old(self).variant,
                self.variant != ShapeVariant::O,
                self.locked == old(self).locked,
                target == old(self)@.turned_about(anchor@),
                target.representable(),
                forall|j: int| 0 <= j < i ==> (#[trigger] self.tiles[j])@ == target.cells[j],
                forall|j: int|
                    i <= j < self.tiles.len() ==> #[trigger] self.tiles[j] == old(self).tiles[j],
            decreases self.tiles.len() - i,
        {
            let tile = self.tiles[i];
            assert(target.cells[i as int] == tile@.rotated_around(anchor@));
            assert(target.cells[i as int].representable());
            self.tiles[i] = rotate_around(tile, anchor);
            i += 1;
        }
        assert(self@.cells =~= target.cells);
    }
}

/// A piece that may move sideways ends with every cell in a column of the
/// board: a move that would leave the board at either side is never legal.
pub proof fn lemma_shift_stays_on_board(piece: PieceView, dx: int, taken: Set<Cell>)
    requires
        piece.can_shift(dx, taken),
    ensures
        forall|i: int|
            0 <= i < piece.cells.len() ==> 0 <= (#[trigger] piece.cells[i]).x + dx < BOARD_WIDTH,
{
    assert forall|i: int| 0 <= i < piece.cells.len() implies 0 <= (#[trigger] piece.cells[i]).x + dx
        < BOARD_WIDTH by {
        assert(piece.cell_can_shift(i, dx, taken));
    }
}

/// A legal sideways move of a piece with machine coordinates gives a piece
/// with machine coordinates.
proof fn lemma_legal_shift_is_representable(piece: PieceView, dx: int, taken: Set<Cell>)
    requires
        piece.representable(),
        piece.can_shift(dx, taken),
    ensures
        piece.shifted(dx, 0).representable(),
{
    assert forall|i: int| 0 <= i < piece.cells.len() implies (#[trigger] piece.shifted(
        dx,
        0,
    ).cells[i]).representable() by {
        assert(piece.cell_can_shift(i, dx, taken));
        assert(piece.cells[i].representable());
    }
}

/// A piece that the player can control is, after one step of gravity, still
/// in play, with room below for one more shift.
pub proof fn lemma_fall_keeps_active(piece: PieceView)
    requires
        piece.controllable(),
    ensures
        piece.fall().active(),
        piece.fall().rows_at_most(i32::MAX - 1),
{
    let fallen = piece.fall();
    assert(fallen.pivot() == piece.pivot().shifted(0, 1));
    assert forall|i: int| 0 <= i < fallen.cells.len() implies (#[trigger] fallen.cells[i]).in_columns()
        && fallen.cells[i].y <= i32::MAX - 1 by {
        assert(piece.cells[i].in_columns());
        assert(piece.cells[i].y <= i32::MAX - 2);
    }
}

/// A piece in play that does not lock lies wholly above the last row.
pub proof fn lemma_unlocked_piece_is_above_floor(piece: PieceView, taken: Set<Cell>)
    requires
        piece.active(),
        !piece.settle(taken).locked,
    ensures
        piece.settle(taken).active(),
        piece.settle(taken).rows_at_most(BOARD_HEIGHT - 2),
{
    let settled = piece.settle(taken);
    assert forall|i: int| 0 <= i < settled.cells.len() implies (#[trigger] settled.cells[i]).y
        <= BOARD_HEIGHT - 2 by {
        if piece.cells[i].y >= BOARD_HEIGHT - 1 {
            assert(piece.touches_floor());
        }
    }
}

/// A sideways move, where it is granted, keeps a piece in play and in the
/// same rows.
proof fn lemma_nudged_keeps_active(
    piece: PieceView,
    move_count: int,
    input: Input,
    taken: Set<Cell>,
    limit: int,
)
    requires
        piece.active(),
        piece.rows_at_most(limit),
    ensures
        piece.nudged(move_count, input, taken).active(),
        piece.nudged(move_count, input, taken).rows_at_most(limit),
        piece.representable() ==> piece.nudged(move_count, input, taken).representable(),
{
    let moved = piece.nudged(move_count, input, taken);
    if moved != piece {
        let dx: int = if input.left {
            -1
        } else {
            1
        };
        assert(moved == piece.shifted(dx, 0));
        assert(piece.can_shift(dx, taken));
        assert(moved.pivot() == piece.pivot().shifted(dx, 0));
        assert forall|i: int| 0 <= i < moved.cells.len() implies (#[trigger] moved.cells[i]).in_columns()
            && moved.cells[i].y <= limit && (piece.representable()
            ==> moved.cells[i].representable()) by {
            assert(piece.cell_can_shift(i, dx, taken));
            assert(piece.cells[i].y <= limit);
            if piece.representable() {
                assert(piece.cells[i].representable());
            }
        }
    }
}

/// A quarter turn, where it is granted, keeps a piece in play; it moves no
/// cell more than `BOARD_WIDTH - 1` rows away from the anchor.
proof fn lemma_spun_keeps_active(piece: PieceView, input: Input, taken: Set<Cell>, limit: int)
    requires
        piece.active(),
        piece.rows_at_most(limit),
        limit + BOARD_WIDTH - 1 <= i32::MAX,
    ensures
        piece.spun(input, taken).active(),
        piece.spun(input, taken).rows_at_most(limit + BOARD_WIDTH - 1),
        piece.representable() ==> piece.spun(input, taken).representable(),
{
    let turned = piece.spun(input, taken);
    if turned != piece {
        let about = piece.pivot();
        assert(piece.can_turn(taken));
        assert(piece.cells[piece.anchor].in_columns());
        assert(piece.cells[piece.anchor].y <= limit);
        assert(turned.pivot() == about.rotated_around(about));
        assert forall|i: int| 0 <= i < turned.cells.len() implies (#[trigger] turned.cells[i]).in_columns()
            && turned.cells[i].y <= limit + BOARD_WIDTH - 1
            && turned.cells[i].representable() by {
            assert(piece.cell_can_turn(i, taken));
            assert(piece.cells[i].in_columns());
            assert(turned.cells[i] == piece.cells[i].rotated_around(about));
        }
    } else {
        assert forall|i: int| 0 <= i < turned.cells.len() implies (#[trigger] turned.cells[i]).y
            <= limit + BOARD_WIDTH - 1 by {
            assert(piece.cells[i].y <= limit);
        }
    }
}

/// A piece in play above the last row is, after the player has steered it,
/// one that the player can control again.
pub proof fn lemma_steered_is_controllable(
    piece: PieceView,
    move_count: int,
    input: Input,
    taken: Set<Cell>,
)
    requires
        piece.active(),
        piece.rows_at_most(BOARD_HEIGHT - 2),
    ensures
        piece.steered(move_count, input, taken).controllable(),
        piece.representable() ==> piece.steered(move_count, input, taken).representable(),
{
    let moved = piece.nudged(move_count, input, taken);
    lemma_nudged_keeps_active(piece, move_count, input, taken, BOARD_HEIGHT - 2);
    lemma_spun_keeps_active(moved, input, taken, BOARD_HEIGHT - 2);
    let steered = moved.spun(input, taken);
    assert forall|i: int| 0 <= i < steered.cells.len() implies (#[trigger] steered.cells[i]).y
        <= i32::MAX - 2 by {
        assert(steered.cells[i].y <= BOARD_HEIGHT - 2 + BOARD_WIDTH - 1);
    }
}

/// What stays of the cells on the screen is exactly the cells that were
/// there and are on the screen.
pub proof fn lemma_kept_cells_members(cells: Seq<Cell>)
    ensures
        forall|c: Cell| #[trigger]
            kept_cells(cells).contains(c) <==> cells.contains(c) && on_screen(c),
    decreases cells.len(),
{
    reveal(Seq::filter);
    if cells.len() > 0 {
        let front = cells.drop_last();
        let last = cells.last();
        lemma_kept_cells_members(front);
        assert(cells =~= front.push(last));
        lemma_kept_cells_push(front, last);
        assert forall|c: Cell| #[trigger]
            kept_cells(cells).contains(c) <==> cells.contains(c) && on_screen(c) by {
            if kept_cells(cells).contains(c) {
                let i = choose|i: int| 0 <= i < kept_cells(cells).len() && kept_cells(cells)[i] == c;
                if on_screen(last) && i == kept_cells(front).len() {
                    assert(cells[cells.len() - 1] == c);
                } else {
                    assert(kept_cells(front)[i] == c);
                    assert(kept_cells(front).contains(c));
                    let j = choose|j: int| 0 <= j < front.len() && front[j] == c;
                    assert(cells[j] == c);
                }
            }
            if cells.contains(c) && on_screen(c) {
                let j = choose|j: int| 0 <= j < cells.len() && cells[j] == c;
                if j == cells.len() - 1 {
                    assert(kept_cells(cells)[kept_cells(front).len() as int] == c);
                } else {
                    assert(front[j] == c);
                    assert(front.contains(c));
                    assert(kept_cells(front).contains(c));
                    let i = choose|i: int| 0 <= i < kept_cells(front).len() && kept_cells(front)[i] == c;
                    assert(kept_cells(cells)[i] == c);
                }
            }
        }
    }
}

/// Pruning leaves a piece on the screen and in the columns it was in.
pub proof fn lemma_pruned_is_on_screen(piece: PieceView)
    ensures
        piece.pruned().rows_at_most(BOARD_HEIGHT - 1),
        piece.within_columns() ==> piece.pruned().within_columns(),
{
    lemma_kept_cells_members(piece.cells);
    let kept = piece.pruned();
    assert forall|i: int| 0 <= i < kept.cells.len() implies (#[trigger] kept.cells[i]).y
        <= BOARD_HEIGHT - 1 && (piece.within_columns() ==> kept.cells[i].in_columns()) by {
        assert(kept_cells(piece.cells).contains(kept.cells[i]));
        let j = choose|j: int| 0 <= j < piece.cells.len() && piece.cells[j] == kept.cells[i];
        if piece.within_columns() {
            assert(piece.cells[j].in_columns());
        }
    }
}

/// Four quarter turns about the same cell bring every piece back to where it
/// started.
pub proof fn lemma_four_turns_restore(piece: PieceView, about: Cell)
    ensures
        piece.turned_times(about, 4) == piece,
{
    reveal_with_fuel(PieceView::turned_times, 5);
    let once = piece.turned_about(about);
    let twice = once.turned_about(about);
    let thrice = twice.turned_about(about);
    let back = thrice.turned_about(about);
    assert(back.cells =~= piece.cells) by {
        if piece.variant != ShapeVariant::O {
            assert forall|i: int| 0 <= i < piece.cells.len() implies back.cells[i] == piece.cells[i] by {
                lemma_rotate_around_order_four(piece.cells[i], about);
            }
        }
    }
}

/// Turning never changes the square piece, however often it is asked for.
pub proof fn lemma_square_never_turns(piece: PieceView, about: Cell, count: nat)
    requires
        piece.variant == ShapeVariant::O,
    ensures
        piece.turned_times(about, count) == piece,
    decreases count,
{
    if count > 0 {
        lemma_square_never_turns(piece, about, (count - 1) as nat);
    }
}

/// Gravity never changes a locked piece, however often it is applied.
pub proof fn lemma_locked_piece_never_falls(piece: PieceView, count: nat)
    requires
        piece.locked,
    ensures
        piece.fall_times(count) == piece,
    decreases count,
{
    if count > 0 {
        lemma_locked_piece_never_falls(piece, (count - 1) as nat);
    }
}

/// Evaluating the lock condition never unlocks a piece and never moves it.
pub proof fn lemma_settle_keeps_lock(piece: PieceView, taken: Set<Cell>)
    ensures
        piece.locked ==> piece.settle(taken) == piece,
        piece.settle(taken).cells == piece.cells,
{
}

/// A cell lands in its own column, at or below where it started, on the
/// first cell that is in the last row, below it, or directly above a taken
/// cell: every cell that it passes on the way can drop further.
pub proof fn lemma_landing_is_first_rest(taken: Set<Cell>, c: Cell)
    ensures
        landing(taken, c).x == c.x,
        landing(taken, c).y >= c.y,
        !can_drop(taken, landing(taken, c)),
        forall|y: int|
            c.y <= y < landing(taken, c).y ==> #[trigger] can_drop(taken, Cell { x: c.x, y }),
    decreases BOARD_HEIGHT - 1 - c.y,
{
    if can_drop(taken, c) {
        let below = c.shifted(0, 1);
        lemma_landing_is_first_rest(taken, below);
        assert forall|y: int| c.y <= y < landing(taken, c).y implies #[trigger] can_drop(
            taken,
            Cell { x: c.x, y },
        ) by {
            if y == c.y {
                assert(Cell { x: c.x, y } == c);
            } else {
                assert(can_drop(taken, Cell { x: below.x, y }));
            }
        }
    }
}

} // verus!
