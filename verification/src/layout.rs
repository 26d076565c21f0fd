//! Where things go on a board: routes with one bend, aligned components and arrays of
//! components.
use vstd::prelude::*;
use crate::decimal::{decimal, push_decimal};
use crate::text::same_text;

verus! {

// ─── Routes ───────────────────────────────────────────────────────────────────

/// A straight piece of track.
#[derive(Debug, Clone, Copy, PartialEq)]
pub struct Segment<T> {
    pub x1: T,
    pub y1: T,
    pub x2: T,
    pub y2: T,
}

/// The route between two points: straight where they are in line, and otherwise first
/// along and then across.
pub open spec fn route_of<T>(x1: T, y1: T, x2: T, y2: T, in_line: bool) -> Seq<Segment<T>> {
    if in_line {
        seq![Segment { x1, y1, x2, y2 }]
    } else {
        seq![
            Segment { x1, y1, x2, y2: y1 },
            Segment { x1: x2, y1, x2, y2 },
        ]
    }
}

/// The route between two points. `in_line` tells whether they share one of their
/// coordinates, as far as that can be told.
pub fn route_pad_to_pad<T: Copy>(x1: T, y1: T, x2: T, y2: T, in_line: bool) -> (r: Vec<Segment<T>>)
    ensures
        r@ == route_of(x1, y1, x2, y2, in_line),
{
    if in_line {
        vec![Segment { x1, y1, x2, y2 }]
    } else {
        vec![Segment { x1, y1, x2, y2: y1 }, Segment { x1: x2, y1, x2, y2 }]
    }
}

/// A route leads from the one point to the other without a gap, and where it bends
/// each of its pieces is parallel to an axis.
pub proof fn law_route_connects<T>(x1: T, y1: T, x2: T, y2: T, in_line: bool)
    ensures
        ({
            let route = route_of(x1, y1, x2, y2, in_line);
            &&& route.len() > 0
            &&& route[0].x1 == x1 && route[0].y1 == y1
            &&& route.last().x2 == x2 && route.last().y2 == y2
            &&& forall|i: int|
                0 <= i < route.len() - 1 ==> (#[trigger] route[i]).x2 == route[i + 1].x1
                    && route[i].y2 == route[i + 1].y1
            &&& !in_line ==> forall|i: int|
                0 <= i < route.len() ==> (#[trigger] route[i]).x1 == route[i].x2 || route[i].y1
                    == route[i].y2
        }),
{
}

/// A route between points that are in line is one straight piece; any other has one bend, and
/// goes along before it goes across.
pub proof fn law_route_has_at_most_one_bend<T>(x1: T, y1: T, x2: T, y2: T, in_line: bool)
    ensures
        ({
            let route = route_of(x1, y1, x2, y2, in_line);
            &&& in_line ==> route.len() == 1
            &&& !in_line ==> route.len() == 2 && route[0].y2 == y1 && route[0].x2 == x2
        }),
{
}

// ─── Alignment ────────────────────────────────────────────────────────────────

/// Where a component goes that is aligned to a coordinate: along the y axis where that
/// is asked for, and along the x axis otherwise.
pub open spec fn aligned_of<T>(axis: Seq<char>, value: T, x: T, y: T) -> (T, T) {
    if axis == "y"@ {
        (x, value)
    } else {
        (value, y)
    }
}

/// Where a component at `x` and `y` goes that is aligned to a coordinate.
pub fn align_component<T: Copy>(axis: &str, value: T, x: T, y: T) -> (r: (T, T))
    ensures
        r == aligned_of(axis@, value, x, y),
{
    if same_text(axis, "y") {
        (x, value)
    } else {
        (value, y)
    }
}

/// A component that is aligned stays where it is when it is aligned again.
pub proof fn law_alignment_is_settled<T>(axis: Seq<char>, value: T, x: T, y: T)
    ensures
        aligned_of(axis, value, aligned_of(axis, value, x, y).0, aligned_of(axis, value, x, y).1)
            == aligned_of(axis, value, x, y),
{
}

/// A component that is aligned has the coordinate that it is aligned to, and keeps the other
/// one.
pub proof fn law_alignment_moves_along_one_axis<T>(axis: Seq<char>, value: T, x: T, y: T)
    ensures
        axis == "y"@ ==> aligned_of(axis, value, x, y).0 == x && aligned_of(axis, value, x, y).1
            == value,
        axis != "y"@ ==> aligned_of(axis, value, x, y).0 == value && aligned_of(axis, value, x, y).1
            == y,
{
}

// ─── Arrays ───────────────────────────────────────────────────────────────────

/// One component of an array.
#[derive(Debug, Clone, PartialEq)]
pub struct ArrayCell {
    pub column: u64,
    pub row: u64,
    pub reference: String,
}

/// An array of components and how far its placement has come: the next component, and its
/// number.
pub struct ArrayState {
    pub prefix: Seq<char>,
    pub count_x: nat,
    pub count_y: nat,
    pub column: nat,
    pub row: nat,
    pub number: nat,
}

/// The placement of an array of components, row by row.
#[derive(Debug, Clone)]
pub struct ArrayPlacement {
    pub prefix: String,
    pub count_x: u64,
    pub count_y: u64,
    pub column: u64,
    pub row: u64,
    pub number: u64,
}

impl View for ArrayPlacement {
    type V = ArrayState;

    open spec fn view(&self) -> ArrayState {
        ArrayState {
            prefix: self.prefix@,
            count_x: self.count_x as nat,
            count_y: self.count_y as nat,
            column: self.column as nat,
            row: self.row as nat,
            number: self.number as nat,
        }
    }
}

/// An array before its first component.
pub open spec fn array_of(prefix: Seq<char>, count_x: nat, count_y: nat, start: nat) -> ArrayState {
    ArrayState { prefix, count_x, count_y, column: 0, row: 0, number: start }
}

/// Is there a component left to place?
pub open spec fn has_cell(s: ArrayState) -> bool {
    s.column < s.count_x && s.row < s.count_y
}

/// The placement after one more component.
pub open spec fn cell_placed(s: ArrayState) -> ArrayState {
    if s.column + 1 < s.count_x {
        ArrayState { column: s.column + 1, number: s.number + 1, ..s }
    } else {
        ArrayState { column: 0, row: s.row + 1, number: s.number + 1, ..s }
    }
}

/// The placement after `k` components.
pub open spec fn cells_placed(s: ArrayState, k: nat) -> ArrayState
    decreases k,
{
    if k == 0 {
        s
    } else {
        cell_placed(cells_placed(s, (k - 1) as nat))
    }
}

impl ArrayPlacement {
    /// The placement of an array, before its first component.
    pub fn new(prefix: String, count_x: u64, count_y: u64, start: u64) -> (r: ArrayPlacement)
        ensures
            r@ == array_of(prefix@, count_x as nat, count_y as nat, start as nat),
    {
        ArrayPlacement { prefix, count_x, count_y, column: 0, row: 0, number: start }
    }

    /// Is there a component left to place?
    pub fn has_next(&self) -> (r: bool)
        ensures
            r == has_cell(self@),
    {
        self.column < self.count_x && self.row < self.count_y
    }

    /// The next component of the array, if there is one left.
    pub fn next_cell(&mut self) -> (r: Option<ArrayCell>)
        requires
            has_cell(old(self)@) ==> old(self)@.number < u64::MAX,
        ensures
            match r {
                Some(cell) => {
                    &&& has_cell(old(self)@)
                    &&& cell.column == old(self)@.column
                    &&& cell.row == old(self)@.row
                    &&& cell.reference@ == old(self)@.prefix + decimal(old(self)@.number)
                    &&& final(self)@ == cell_placed(old(self)@)
                },
                None => !has_cell(old(self)@) && final(self)@ == old(self)@,
            },
    {
        if !self.has_next() {
            return None;
        }
        let mut reference = self.prefix.clone();
        push_decimal(&mut reference, self.number);
        let cell = ArrayCell { column: self.column, row: self.row, reference };
        if self.column + 1 < self.count_x {
            self.column = self.column + 1;
        } else {
            self.column = 0;
            self.row = self.row + 1;
        }
        self.number = self.number + 1;
        Some(cell)
    }
}

/// An array is placed row by row and numbered in that order: after `k` components the
/// next one stands in column `k % count_x` of row `k / count_x` and has number
/// `start + k`.
pub proof fn law_array_goes_row_by_row(
    prefix: Seq<char>,
    count_x: nat,
    count_y: nat,
    start: nat,
    k: nat,
)
    requires
        count_x > 0,
    ensures
        cells_placed(array_of(prefix, count_x, count_y, start), k) == (ArrayState {
            prefix,
            count_x,
            count_y,
            column: k % count_x,
            row: k / count_x,
            number: start + k,
        }),
    decreases k,
{
    if k == 0 {
        assert(0nat % count_x == 0 && 0nat / count_x == 0) by (nonlinear_arith)
            requires
                count_x > 0,
        ;
    } else {
        let j = (k - 1) as nat;
        law_array_goes_row_by_row(prefix, count_x, count_y, start, j);
        lemma_next_cell(j, count_x);
    }
}

proof fn lemma_next_cell(j: nat, n: nat)
    requires
        n > 0,
    ensures
        j % n + 1 < n ==> (j + 1) % n == j % n + 1 && (j + 1) / n == j / n,
        j % n + 1 >= n ==> (j + 1) % n == 0 && (j + 1) / n == j / n + 1,
{
    let q = j / n;
    let r = j % n;
    assert(j == q * n + r && r < n) by (nonlinear_arith)
        requires
            n > 0,
            q == j / n,
            r == j % n,
    ;
    if r + 1 < n {
        vstd::arithmetic::div_mod::lemma_fundamental_div_mod_converse(
            j as int + 1,
            n as int,
            q as int,
            r as int + 1,
        );
    } else {
        assert(j + 1 == (q + 1) * n) by (nonlinear_arith)
            requires
                j == q * n + r,
                r + 1 == n,
        ;
        vstd::arithmetic::div_mod::lemma_fundamental_div_mod_converse(
            j as int + 1,
            n as int,
            q as int + 1,
            0,
        );
    }
}

/// Every component of an array is placed, and no more: there is one left after `k`
/// components just where `k` is less than the number of rows times that of columns.
pub proof fn law_array_is_complete(
    prefix: Seq<char>,
    count_x: nat,
    count_y: nat,
    start: nat,
    k: nat,
)
    requires
        count_x > 0,
    ensures
        has_cell(cells_placed(array_of(prefix, count_x, count_y, start), k)) <==> k < count_x
            * count_y,
{
    law_array_goes_row_by_row(prefix, count_x, count_y, start, k);
    let q = k / count_x;
    let r = k % count_x;
    assert(k == q * count_x + r && r < count_x) by (nonlinear_arith)
        requires
            count_x > 0,
            q == k / count_x,
            r == k % count_x,
    ;
    if q < count_y {
        assert(k < count_x * count_y) by (nonlinear_arith)
            requires
                k == q * count_x + r,
                r < count_x,
                q + 1 <= count_y,
        ;
    } else {
        assert(k >= count_x * count_y) by (nonlinear_arith)
            requires
                k == q * count_x + r,
                q >= count_y,
        ;
    }
}

} // verus!
