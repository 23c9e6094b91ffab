//! Packed storage for a symmetric relation over `N` elements.
//!
//! Only the `N * (N + 1) / 2` distinct unordered pairs are stored, row by row
//! in lower-triangular order; `(i, j)` and `(j, i)` address the same slot.

use vstd::prelude::*;

verus! {

/// Number of slots needed to hold every unordered pair over `n` elements.
pub open spec fn triangle(n: nat) -> nat {
    n * (n + 1) / 2
}

/// The slot that holds the unordered pair `{i, j}`: with `row` the larger and
/// `col` the smaller of the two, `row * (row + 1) / 2 + col`.
pub open spec fn slot(i: nat, j: nat) -> nat {
    if i >= j {
        triangle(i) + j
    } else {
        triangle(j) + i
    }
}

/// The first slot of a row lies directly behind the last slot of the row
/// above it.
pub proof fn lemma_triangle_step(n: nat)
    ensures
        triangle(n + 1) == triangle(n) + n + 1,
{
    assert((n + 1) * (n + 2) == n * (n + 1) + 2 * (n + 1)) by (nonlinear_arith);
}

/// `triangle` grows with its argument.
pub proof fn lemma_triangle_monotonic(a: nat, b: nat)
    requires
        a <= b,
    ensures
        triangle(a) <= triangle(b),
    decreases b - a,
{
    if a < b {
        lemma_triangle_monotonic(a, (b - 1) as nat);
        lemma_triangle_step((b - 1) as nat);
    }
}

/// Every pair over `n` elements has its slot among the first `triangle(n)`.
pub proof fn lemma_slot_in_range(i: nat, j: nat, n: nat)
    requires
        i < n,
        j < n,
    ensures
        slot(i, j) < triangle(n),
{
    let row = if i >= j { i } else { j };
    lemma_triangle_step(row);
    lemma_triangle_monotonic(row + 1, n);
}

/// The two orders of a pair share one slot.
pub proof fn lemma_slot_symmetric(i: nat, j: nat)
    ensures
        slot(i, j) == slot(j, i),
{
}

/// Two pairs share a slot only if they are the same unordered pair.
pub proof fn lemma_slot_injective(i1: nat, j1: nat, i2: nat, j2: nat)
    requires
        slot(i1, j1) == slot(i2, j2),
    ensures
        (i1 == i2 && j1 == j2) || (i1 == j2 && j1 == i2),
{
    let r1 = if i1 >= j1 { i1 } else { j1 };
    let c1 = if i1 >= j1 { j1 } else { i1 };
    let r2 = if i2 >= j2 { i2 } else { j2 };
    let c2 = if i2 >= j2 { j2 } else { i2 };
    if r1 < r2 {
        lemma_triangle_step(r1);
        lemma_triangle_monotonic(r1 + 1, r2);
    } else if r2 < r1 {
        lemma_triangle_step(r2);
        lemma_triangle_monotonic(r2 + 1, r1);
    }
}

/// The row of the pair that a slot holds: the last row that begins at or
/// before the slot.
pub open spec fn row_of(p: nat) -> nat
    decreases p,
{
    if p == 0 {
        0
    } else {
        let r = row_of((p - 1) as nat);
        if triangle(r + 1) <= p {
            r + 1
        } else {
            r
        }
    }
}

/// The column of the pair that a slot holds.
pub open spec fn col_of(p: nat) -> nat {
    (p - triangle(row_of(p))) as nat
}

/// A slot lies in its row.
pub proof fn lemma_row_of_bounds(p: nat)
    ensures
        triangle(row_of(p)) <= p < triangle(row_of(p) + 1),
    decreases p,
{
    if p == 0 {
        lemma_triangle_step(0);
    } else {
        lemma_row_of_bounds((p - 1) as nat);
        let r = row_of((p - 1) as nat);
        lemma_triangle_step(r);
        lemma_triangle_step(r + 1);
    }
}

/// Every slot holds a pair of the lower triangle, and is the slot of that
/// pair.
pub proof fn lemma_slot_of_row_col(p: nat)
    ensures
        col_of(p) <= row_of(p),
        slot(row_of(p), col_of(p)) == p,
{
    lemma_row_of_bounds(p);
    lemma_triangle_step(row_of(p));
}

/// The slot of a pair of the lower triangle holds that pair.
pub proof fn lemma_row_col_of_slot(row: nat, col: nat)
    requires
        col <= row,
    ensures
        row_of(slot(row, col)) == row,
        col_of(slot(row, col)) == col,
{
    let p = slot(row, col);
    lemma_slot_of_row_col(p);
    lemma_slot_injective(row, col, row_of(p), col_of(p));
}

/// `triangle(row)`, computed without leaving `usize` on the way.
pub fn triangle_of(row: usize) -> (t: usize)
    requires
        triangle(row as nat) <= usize::MAX,
    ensures
        t == triangle(row as nat),
{
    let half = row / 2;
    if row % 2 == 0 {
        assert(row * (row + 1) == 2 * (half * (row + 1))) by (nonlinear_arith)
            requires
                row == 2 * half,
        ;
        half * (row + 1)
    } else {
        assert(row * (row + 1) == 2 * (row * (half + 1))) by (nonlinear_arith)
            requires
                row == 2 * half + 1,
        ;
        assert(row * (half + 1) >= row) by (nonlinear_arith)
            requires
                half >= 0,
                row >= 0,
        ;
        row * (half + 1)
    }
}

/// `triangle(n)`, if it fits `usize`.
pub fn checked_triangle(n: usize) -> (t: Option<usize>)
    ensures
        match t {
            Some(v) => v == triangle(n as nat),
            None => triangle(n as nat) > usize::MAX,
        },
{
    let half = n / 2;
    if n % 2 == 0 {
        assert(n * (n + 1) == 2 * (half * n + half)) by (nonlinear_arith)
            requires
                n == 2 * half,
        ;
        match half.checked_mul(n) {
            Some(product) => product.checked_add(half),
            None => None,
        }
    } else {
        assert(n * (n + 1) == 2 * (n * (half + 1))) by (nonlinear_arith)
            requires
                n == 2 * half + 1,
        ;
        n.checked_mul(half + 1)
    }
}

/// A lower-triangular matrix in one `Vec`, addressed by unordered pairs.
#[derive(Default, Clone, Debug)]
pub struct LowerTriangular<T>(pub Vec<T>);

impl<T> View for LowerTriangular<T> {
    type V = Seq<T>;

    /// The slots, in row-major lower-triangular order.
    open spec fn view(&self) -> Seq<T> {
        self.0@
    }
}

impl<T> LowerTriangular<T> {
    /// The value stored for the unordered pair `{i, j}`.
    pub open spec fn at(&self, i: nat, j: nat) -> T {
        self@[slot(i, j) as int]
    }

    /// The slot's position for a pair whose slot exists.
    fn position(&self, index: (usize, usize)) -> (p: usize)
        requires
            slot(index.0 as nat, index.1 as nat) < self@.len(),
        ensures
            p == slot(index.0 as nat, index.1 as nat),
    {
        let len = self.0.len();
        let row = if index.0 >= index.1 { index.0 } else { index.1 };
        let col = if index.0 >= index.1 { index.1 } else { index.0 };
        let base = triangle_of(row);
        base + col
    }

    /// The value stored for the pair `index`, in either order.
    pub fn index(&self, index: (usize, usize)) -> (value: &T)
        requires
            slot(index.0 as nat, index.1 as nat) < self@.len(),
        ensures
            *value == self.at(index.0 as nat, index.1 as nat),
    {
        let p = self.position(index);
        &self.0[p]
    }

    /// The slot of the pair `index`, in either order, for writing.
    pub fn index_mut(&mut self, index: (usize, usize)) -> (value: &mut T)
        requires
            slot(index.0 as nat, index.1 as nat) < old(self)@.len(),
        ensures
            *value == old(self).at(index.0 as nat, index.1 as nat),
            final(self)@ == old(self)@.update(
                slot(index.0 as nat, index.1 as nat) as int,
                *final(value),
            ),
    {
        let p = self.position(index);
        &mut self.0[p]
    }
}

/// A value written for a pair is the value read for the pair in the other
/// order, and every other pair keeps its value.
pub proof fn lemma_write_read<T>(
    before: LowerTriangular<T>,
    after: LowerTriangular<T>,
    i: nat,
    j: nat,
    value: T,
)
    requires
        slot(i, j) < before@.len(),
        after@ == before@.update(slot(i, j) as int, value),
    ensures
        after.at(i, j) == value,
        after.at(j, i) == value,
        forall|a: nat, b: nat|
            !(a == i && b == j) && !(a == j && b == i) && slot(a, b) < before@.len()
                ==> #[trigger] after.at(a, b) == before.at(a, b),
{
    assert forall|a: nat, b: nat|
        !(a == i && b == j) && !(a == j && b == i) && slot(a, b) < before@.len()
            implies #[trigger] after.at(a, b) == before.at(a, b) by {
        if slot(a, b) == slot(i, j) {
            lemma_slot_injective(a, b, i, j);
        }
    }
}

} // verus!
