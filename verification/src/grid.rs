//! The square grid on which the children of a folder start out: the smallest
//! one that has a cell for each child, filled row by row.

use vstd::prelude::*;

verus! {

/// A cell of a square grid, by its row and its column, both counted from 0.
#[derive(Debug, Clone, Copy, PartialEq, Eq, Structural)]
pub struct Cell {
    pub row: usize,
    pub column: usize,
}

/// Whether `base` is the side of the smallest square grid with at least
/// `count` cells: the square root of `count`, rounded up.
pub open spec fn is_grid_base(count: nat, base: nat) -> bool {
    base * base >= count && (base == 0 || (base - 1) * (base - 1) < count)
}

/// The side of the smallest square grid with at least `count` cells.
pub open spec fn grid_base_of(count: nat) -> nat {
    choose|base: nat| is_grid_base(count, base)
}

/// The cell with number `index` of a grid of side `base`, counted row by row.
pub open spec fn cell_of(index: nat, base: nat) -> (nat, nat) {
    (index / base, index % base)
}

/// A larger side gives a larger square.
pub proof fn lemma_square_monotone(a: nat, b: nat)
    requires
        a <= b,
    ensures
        a * a <= b * b,
{
    assert(a * a <= b * b) by (nonlinear_arith)
        requires
            a <= b,
    ;
}

/// A count has one grid base and no other.
pub proof fn lemma_grid_base_unique(count: nat, a: nat, b: nat)
    requires
        is_grid_base(count, a),
        is_grid_base(count, b),
    ensures
        a == b,
{
    if a < b {
        lemma_square_monotone(a, (b - 1) as nat);
    } else if b < a {
        lemma_square_monotone(b, (a - 1) as nat);
    }
}

/// Whatever meets the definition of the grid base is the grid base.
pub proof fn lemma_grid_base_is(count: nat, base: nat)
    requires
        is_grid_base(count, base),
    ensures
        grid_base_of(count) == base,
{
    lemma_grid_base_unique(count, grid_base_of(count), base);
}

/// The side of the smallest square grid with at least `count` cells.
pub fn grid_base(count: usize) -> (base: usize)
    ensures
        is_grid_base(count as nat, base as nat),
        base == grid_base_of(count as nat),
        base <= count,
{
    let mut base: usize = 0;
    while (base as u128) * (base as u128) < (count as u128)
        invariant
            base <= count,
            base == 0 || (base - 1) * (base - 1) < count,
            base * base <= u128::MAX,
        decreases count - base,
    {
        proof {
            let b = base as nat;
            assert(b * b < count ==> b < count) by (nonlinear_arith);
            assert((b + 1) * (b + 1) <= u128::MAX) by (nonlinear_arith)
                requires
                    b + 1 <= 0xffff_ffff_ffff_ffff,
            ;
        }
        base = base + 1;
    }
    proof {
        lemma_grid_base_is(count as nat, base as nat);
    }
    base
}

/// The cell with number `index` of a grid of side `base`, counted row by row.
pub fn grid_cell(index: usize, base: usize) -> (cell: Cell)
    requires
        index < base * base,
    ensures
        (cell.row as nat, cell.column as nat) == cell_of(index as nat, base as nat),
        cell.row < base,
        cell.column < base,
        cell.row * base + cell.column == index,
{
    proof {
        lemma_cell_in_grid(index as nat, base as nat);
    }
    Cell { row: index / base, column: index % base }
}

/// The cells in which `count` children start out: child `i` stands in cell
/// `i` of the smallest square grid that holds them all.
pub fn grid_cells(count: usize) -> (cells: Vec<Cell>)
    ensures
        cells@.len() == count,
        forall|i: int|
            0 <= i < count ==> (
            #[trigger] cells@[i].row as nat,
            cells@[i].column as nat,
            ) == cell_of(i as nat, grid_base_of(count as nat)),
        forall|i: int|
            0 <= i < count ==> (#[trigger] cells@[i]).row < grid_base_of(count as nat)
                && cells@[i].column < grid_base_of(count as nat),
        forall|i: int, j: int| 0 <= i < j < count ==> cells@[i] != cells@[j],
{
    let base = grid_base(count);
    let mut cells: Vec<Cell> = Vec::new();
    let mut i: usize = 0;
    while i < count
        invariant
            i <= count,
            cells@.len() == i,
            is_grid_base(count as nat, base as nat),
            base == grid_base_of(count as nat),
            forall|k: int|
                0 <= k < i ==> (
                #[trigger] cells@[k].row as nat,
                cells@[k].column as nat,
                ) == cell_of(k as nat, base as nat),
            forall|k: int|
                0 <= k < i ==> (#[trigger] cells@[k]).row < base && cells@[k].column < base,
        decreases count - i,
    {
        cells.push(grid_cell(i, base));
        i = i + 1;
    }
    proof {
        assert forall|i: int, j: int| 0 <= i < j < count implies cells@[i] != cells@[j] by {
            lemma_cells_distinct(i as nat, j as nat, base as nat);
        }
    }
    cells
}

/// A cell whose number is below the number of cells lies inside the grid, and
/// its row and column give its number back.
pub proof fn lemma_cell_in_grid(index: nat, base: nat)
    requires
        index < base * base,
    ensures
        base > 0,
        cell_of(index, base).0 < base,
        cell_of(index, base).1 < base,
        cell_of(index, base).0 * base + cell_of(index, base).1 == index,
{
    assert(base > 0) by (nonlinear_arith)
        requires
            index < base * base,
    ;
    let b = base as int;
    let i = index as int;
    vstd::arithmetic::div_mod::lemma_fundamental_div_mod(i, b);
    vstd::arithmetic::div_mod::lemma_mod_bound(i, b);
    assert(i / b < b) by (nonlinear_arith)
        requires
            i < b * b,
            i == b * (i / b) + i % b,
            0 <= i % b,
            b > 0,
    ;
    assert(0 <= i / b) by (nonlinear_arith)
        requires
            0 <= i,
            b > 0,
    ;
    assert((i / b) * b == b * (i / b)) by (nonlinear_arith);
}

/// Two children never start out in the same cell.
pub proof fn lemma_cells_distinct(i: nat, j: nat, base: nat)
    requires
        i != j,
        base > 0,
    ensures
        cell_of(i, base) != cell_of(j, base),
{
    vstd::arithmetic::div_mod::lemma_fundamental_div_mod(i as int, base as int);
    vstd::arithmetic::div_mod::lemma_fundamental_div_mod(j as int, base as int);
}

/// The grid for `count` children has a cell for each of them.
pub proof fn lemma_grid_fits(count: nat, index: nat)
    requires
        index < count,
    ensures
        index < grid_base_of(count) * grid_base_of(count),
{
    lemma_grid_base_exists(count);
}

/// A grid with a shorter side than the grid base has too few cells.
pub proof fn lemma_grid_minimal(count: nat, side: nat)
    requires
        side < grid_base_of(count),
    ensures
        side * side < count,
{
    lemma_grid_base_exists(count);
    lemma_square_monotone(side, (grid_base_of(count) - 1) as nat);
}

/// Every count has a grid base.
pub proof fn lemma_grid_base_exists(count: nat)
    ensures
        is_grid_base(count, grid_base_of(count)),
    decreases count,
{
    if count == 0 {
        assert(is_grid_base(0, 0));
    } else {
        lemma_grid_base_exists((count - 1) as nat);
        let b = grid_base_of((count - 1) as nat);
        if b * b >= count {
            assert(is_grid_base(count, b));
        } else {
            assert((b + 1) * (b + 1) >= count) by (nonlinear_arith)
                requires
                    b * b >= count - 1,
            ;
            assert(is_grid_base(count, b + 1));
        }
    }
}

} // verus!
