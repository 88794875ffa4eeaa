//! The fixed layout of the 9x9 grid: 81 cells in row-major order and 27 houses
//! (9 rows, 9 columns, 9 blocks of 3x3).
use vstd::prelude::*;

verus! {

/// Number of cells on a board.
pub const N_CELLS: usize = 81;

/// Number of houses: 9 rows, then 9 columns, then 9 blocks.
pub const N_HOUSES: usize = 27;

/// Nine cell positions that must together hold each digit once.
pub type House = [usize; 9];

pub open spec fn row_of(i: int) -> int {
    i / 9
}

pub open spec fn col_of(i: int) -> int {
    i % 9
}

pub open spec fn block_of(i: int) -> int {
    3 * (i / 27) + (i % 9) / 3
}

/// The `k`-th member of house `h`: houses `0..9` are rows, `9..18` columns and
/// `18..27` blocks, each listed in row-major order.
pub open spec fn house_cell(h: int, k: int) -> int {
    if h < 9 {
        9 * h + k
    } else if h < 18 {
        9 * k + (h - 9)
    } else {
        27 * ((h - 18) / 3) + 3 * ((h - 18) % 3) + 9 * (k / 3) + k % 3
    }
}

/// The members of house `h`, in order.
pub open spec fn house_seq(h: int) -> Seq<usize> {
    Seq::new(9, |k: int| house_cell(h, k) as usize)
}

/// Two distinct cells that share a row, a column or a block.
pub open spec fn are_neighbors(i: int, j: int) -> bool {
    &&& i != j
    &&& row_of(i) == row_of(j) || col_of(i) == col_of(j) || block_of(i) == block_of(j)
}

/// Every house member is a cell of the board.
pub proof fn lemma_house_cell_bounds(h: int, k: int)
    requires
        0 <= h < 27,
        0 <= k < 9,
    ensures
        0 <= house_cell(h, k) < 81,
{
}

/// Cell `i` is member `3 * (row % 3) + col % 3` of its block.
proof fn lemma_block_place(i: int)
    requires
        0 <= i < 81,
    ensures
        0 <= block_of(i) < 9,
        house_cell(18 + block_of(i), 3 * (row_of(i) % 3) + col_of(i) % 3) == i,
{
    let r = i / 9;
    let c = i % 9;
    assert(i == 9 * r + c && 0 <= r < 9 && 0 <= c < 9);
    let rq = r / 3;
    let rm = r % 3;
    let cq = c / 3;
    let cm = c % 3;
    assert(r == 3 * rq + rm && 0 <= rm < 3 && 0 <= rq < 3);
    assert(c == 3 * cq + cm && 0 <= cm < 3 && 0 <= cq < 3);
    assert(i == 27 * rq + (9 * rm + c));
    assert(i / 27 == rq) by (nonlinear_arith)
        requires
            i == 27 * rq + (9 * rm + c),
            0 <= 9 * rm + c < 27,
    ;
    let b = 3 * rq + cq;
    assert(b / 3 == rq && b % 3 == cq);
    let a = 3 * rm + cm;
    assert(a / 3 == rm && a % 3 == cm);
}

/// Two neighbouring cells lie together in one house, at distinct places.
pub proof fn lemma_neighbors_share_house(i: int, j: int)
    requires
        0 <= i < 81,
        0 <= j < 81,
        are_neighbors(i, j),
    ensures
        exists|h: int, a: int, b: int|
            0 <= h < 27 && 0 <= a < 9 && 0 <= b < 9 && a != b && house_cell(h, a) == i
                && house_cell(h, b) == j,
{
    if row_of(i) == row_of(j) {
        let h = row_of(i);
        assert(house_cell(h, col_of(i)) == i && house_cell(h, col_of(j)) == j);
    } else if col_of(i) == col_of(j) {
        let h = 9 + col_of(i);
        assert(house_cell(h, row_of(i)) == i && house_cell(h, row_of(j)) == j);
    } else {
        lemma_block_place(i);
        lemma_block_place(j);
        let h = 18 + block_of(i);
        let a = 3 * (row_of(i) % 3) + col_of(i) % 3;
        let b = 3 * (row_of(j) % 3) + col_of(j) % 3;
        assert(house_cell(h, a) == i && house_cell(h, b) == j);
    }
}

/// The members of a house are distinct cells.
pub proof fn lemma_house_members_distinct(h: int, a: int, b: int)
    requires
        0 <= h < 27,
        0 <= a < 9,
        0 <= b < 9,
        a != b,
    ensures
        house_cell(h, a) != house_cell(h, b),
{
    if h >= 18 {
        assert(a == 3 * (a / 3) + a % 3);
        assert(b == 3 * (b / 3) + b % 3);
    }
}

/// The members of house `h`, in order.
pub fn house(h: usize) -> (r: House)
    requires
        h < N_HOUSES,
    ensures
        r@ == house_seq(h as int),
        forall|k: int| 0 <= k < 9 ==> #[trigger] r@[k] < N_CELLS,
        r@.no_duplicates(),
{
    let mut r: House = [0usize; 9];
    for k in 0..9usize
        invariant
            h < 27,
            forall|j: int| 0 <= j < k ==> r@[j] == house_seq(h as int)[j],
    {
        let c: usize = if h < 9 {
            9 * h + k
        } else if h < 18 {
            9 * k + (h - 9)
        } else {
            27 * ((h - 18) / 3) + 3 * ((h - 18) % 3) + 9 * (k / 3) + k % 3
        };
        r[k] = c;
    }
    assert(r@ =~= house_seq(h as int));
    assert forall|a: int, b: int| 0 <= a < 9 && 0 <= b < 9 && a != b implies r@[a] != r@[b] by {
        lemma_house_members_distinct(h as int, a, b);
    }
    r
}

/// Whether cells `i` and `j` are neighbours.
pub fn neighbors(i: usize, j: usize) -> (r: bool)
    requires
        i < N_CELLS,
        j < N_CELLS,
    ensures
        r == are_neighbors(i as int, j as int),
{
    i != j && (i / 9 == j / 9 || i % 9 == j % 9 || 3 * (i / 27) + (i % 9) / 3 == 3 * (j / 27) + (j
        % 9) / 3)
}

} // verus!
