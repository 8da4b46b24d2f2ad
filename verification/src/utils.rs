//! Positions on the grid and the quarter turn about an anchor.

use vstd::prelude::*;
use vstd::arithmetic::div_mod::{lemma_fundamental_div_mod, lemma_mod_multiples_basic};
use vstd::arithmetic::mul::{lemma_mul_is_commutative, lemma_mul_unary_negation};

verus! {

/// Number of columns of the board.
pub const BOARD_WIDTH: i32 = 10;

/// Number of rows of the board.
pub const BOARD_HEIGHT: i32 = 24;

/// A cell of the unbounded mathematical grid, addressed by column `x` and row
/// `y` (rows grow downwards). It is the model of a [`Pos`].
pub struct Cell {
    pub x: int,
    pub y: int,
}

impl Cell {
    /// Component-wise sum.
    pub open spec fn plus(self, other: Cell) -> Cell {
        Cell { x: self.x + other.x, y: self.y + other.y }
    }

    /// Component-wise difference.
    pub open spec fn minus(self, other: Cell) -> Cell {
        Cell { x: self.x - other.x, y: self.y - other.y }
    }

    /// Component-wise product.
    pub open spec fn times(self, other: Cell) -> Cell {
        Cell { x: self.x * other.x, y: self.y * other.y }
    }

    /// The cell `dx` columns to the right and `dy` rows below.
    pub open spec fn shifted(self, dx: int, dy: int) -> Cell {
        Cell { x: self.x + dx, y: self.y + dy }
    }

    /// One quarter turn about `anchor`: the offset `(x, y)` from the anchor
    /// becomes `(-y, x)`.
    pub open spec fn rotated_around(self, anchor: Cell) -> Cell {
        let offset = self.minus(anchor);
        Cell { x: -offset.y, y: offset.x }.plus(anchor)
    }

    /// Both coordinates fit in an `i32`.
    pub open spec fn representable(self) -> bool {
        &&& i32::MIN <= self.x <= i32::MAX
        &&& i32::MIN <= self.y <= i32::MAX
    }

    /// The column lies on the board.
    pub open spec fn in_columns(self) -> bool {
        0 <= self.x < BOARD_WIDTH
    }
}

/// A position on the grid: column `x`, row `y`.
#[derive(Debug, Clone, Copy, PartialEq, Eq, Structural)]
pub struct Pos {
    pub x: i32,
    pub y: i32,
}

impl View for Pos {
    type V = Cell;

    open spec fn view(&self) -> Cell {
        Cell { x: self.x as int, y: self.y as int }
    }
}

impl Pos {
    /// The position in column `x` and row `y`.
    pub fn new(x: i32, y: i32) -> (p: Self)
        ensures
            p@ == (Cell { x: x as int, y: y as int }),
    {
        Self { x, y }
    }

    /// Component-wise sum.
    pub fn add(&self, other: Self) -> (sum: Self)
        requires
            self@.plus(other@).representable(),
        ensures
            sum@ == self@.plus(other@),
    {
        Self { x: self.x + other.x, y: self.y + other.y }
    }

    /// Component-wise difference.
    pub fn sub(&self, other: Self) -> (difference: Self)
        requires
            self@.minus(other@).representable(),
        ensures
            difference@ == self@.minus(other@),
    {
        Self { x: self.x - other.x, y: self.y - other.y }
    }

    /// Component-wise product.
    pub fn mul(&self, other: Self) -> (product: Self)
        requires
            self@.times(other@).representable(),
        ensures
            product@ == self@.times(other@),
    {
        Self { x: self.x * other.x, y: self.y * other.y }
    }
}

/// The position in column `x` and row `y`.
pub fn pos(x: i32, y: i32) -> (p: Pos)
    ensures
        p@ == (Cell { x: x as int, y: y as int }),
{
    Pos { x, y }
}

/// The quarter turn of `point` about `anchor`, computed in 64 bits so that
/// no intermediate value can overflow.
pub(crate) fn quarter_turn(point: Pos, anchor: Pos) -> (turned: (i64, i64))
    ensures
        turned.0 == point@.rotated_around(anchor@).x,
        turned.1 == point@.rotated_around(anchor@).y,
{
    let dx: i64 = point.x as i64 - anchor.x as i64;
    let dy: i64 = point.y as i64 - anchor.y as i64;
    (anchor.x as i64 - dy, anchor.y as i64 + dx)
}

/// Turns `point` by one quarter about `anchor`.
pub fn rotate_around(point: Pos, anchor: Pos) -> (turned: Pos)
    requires
        point@.rotated_around(anchor@).representable(),
    ensures
        turned@ == point@.rotated_around(anchor@),
{
    let (x, y) = quarter_turn(point, anchor);
    Pos { x: x as i32, y: y as i32 }
}

/// Four quarter turns about the same anchor bring every cell back to where
/// it started.
pub proof fn lemma_rotate_around_order_four(p: Cell, a: Cell)
    ensures
        p.rotated_around(a).rotated_around(a).rotated_around(a).rotated_around(a) == p,
{
}

/// `k` times `d`, named so that it can guide the search for a factor.
pub open spec fn multiple(k: int, d: int) -> int {
    k * d
}

/// `n` is a whole multiple of `d`.
pub open spec fn is_multiple(n: int, d: int) -> bool {
    exists|k: int| n == #[trigger] multiple(k, d)
}

/// For a positive divisor, being a multiple means leaving no remainder.
pub proof fn lemma_multiple_leaves_no_remainder(n: int, d: int)
    requires
        d > 0,
    ensures
        is_multiple(n, d) == (n % d == 0),
{
    if n % d == 0 {
        lemma_fundamental_div_mod(n, d);
        lemma_mul_is_commutative(d, n / d);
        assert(n == multiple(n / d, d));
    }
    if is_multiple(n, d) {
        let k = choose|k: int| n == #[trigger] multiple(k, d);
        lemma_mod_multiples_basic(k, d);
    }
}

/// Changing the sign of the number or of the divisor keeps multiples.
pub proof fn lemma_multiple_ignores_sign(n: int, d: int)
    ensures
        is_multiple(n, d) == is_multiple(-n, d),
        is_multiple(n, d) == is_multiple(n, -d),
{
    if is_multiple(n, d) {
        let k = choose|k: int| n == #[trigger] multiple(k, d);
        lemma_mul_unary_negation(k, d);
        assert(-n == multiple(-k, d));
        assert(n == multiple(-k, -d)) by {
            lemma_mul_unary_negation(-k, d);
        }
    }
    if is_multiple(-n, d) {
        let k = choose|k: int| -n == #[trigger] multiple(k, d);
        lemma_mul_unary_negation(k, d);
        assert(n == multiple(-k, d));
    }
    if is_multiple(n, -d) {
        let k = choose|k: int| n == #[trigger] multiple(k, -d);
        lemma_mul_unary_negation(k, d);
        assert(n == multiple(-k, d));
    }
}

/// Tells whether `n` is a whole multiple of the non-zero `d`.
pub fn is_multiple_of(n: i32, d: i32) -> (b: bool)
    requires
        d != 0,
    ensures
        b == is_multiple(n as int, d as int),
{
    let size: i64 = if n < 0 { -(n as i64) } else { n as i64 };
    let step: i64 = if d < 0 { -(d as i64) } else { d as i64 };
    proof {
        lemma_multiple_ignores_sign(n as int, d as int);
        lemma_multiple_ignores_sign(-(n as int), d as int);
        lemma_multiple_leaves_no_remainder(size as int, step as int);
    }
    size % step == 0
}

} // verus!
