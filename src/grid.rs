//! Row-major square grids: index arithmetic and neighbour counting over a mine mask.

use vstd::prelude::*;

verus! {

/// `(r, c)` lies on a `size × size` grid.
pub open spec fn in_grid(size: int, r: int, c: int) -> bool {
    0 <= r < size && 0 <= c < size
}

/// Row-major position of `(r, c)`.
pub open spec fn flat(size: int, r: int, c: int) -> int {
    r * size + c
}

/// 1 when `(r, c)` is on the grid and holds a mine, else 0.
pub open spec fn mine_bit(mask: Seq<bool>, size: int, r: int, c: int) -> int {
    if in_grid(size, r, c) && mask[flat(size, r, c)] {
        1
    } else {
        0
    }
}

/// Number of mines among the up-to-eight cells that touch `(r, c)`, diagonals included.
pub open spec fn neighbor_count(mask: Seq<bool>, size: int, r: int, c: int) -> int {
    mine_bit(mask, size, r - 1, c - 1) + mine_bit(mask, size, r - 1, c) + mine_bit(mask, size, r - 1, c + 1)
        + mine_bit(mask, size, r, c - 1) + mine_bit(mask, size, r, c + 1)
        + mine_bit(mask, size, r + 1, c - 1) + mine_bit(mask, size, r + 1, c) + mine_bit(mask, size, r + 1, c + 1)
}

/// `p` and `q` share an edge.
pub open spec fn edge_adjacent(p: (int, int), q: (int, int)) -> bool {
    (p.0 == q.0 && (p.1 == q.1 + 1 || q.1 == p.1 + 1)) || (p.1 == q.1 && (p.0 == q.0 + 1 || q.0 == p.0 + 1))
}

pub proof fn lemma_flat_bounds(size: int, r: int, c: int)
    requires
        in_grid(size, r, c),
    ensures
        0 <= flat(size, r, c) < size * size,
{
    assert(0 <= r * size) by (nonlinear_arith)
        requires
            0 <= r,
            0 <= size,
    ;
    assert(r * size + c < size * size) by (nonlinear_arith)
        requires
            r < size,
            c < size,
            0 <= r,
    ;
}

pub proof fn lemma_flat_injective(size: int, r1: int, c1: int, r2: int, c2: int)
    requires
        in_grid(size, r1, c1),
        in_grid(size, r2, c2),
        flat(size, r1, c1) == flat(size, r2, c2),
    ensures
        r1 == r2,
        c1 == c2,
{
    if r1 < r2 {
        assert(r1 * size + size <= r2 * size) by (nonlinear_arith)
            requires
                r1 < r2,
                0 <= size,
        ;
    } else if r2 < r1 {
        assert(r2 * size + size <= r1 * size) by (nonlinear_arith)
            requires
                r2 < r1,
                0 <= size,
        ;
    }
}

pub proof fn lemma_flat_split(size: int, i: int)
    requires
        0 <= size,
        0 <= i < size * size,
    ensures
        in_grid(size, i / size, i % size),
        flat(size, i / size, i % size) == i,
{
    assert(size > 0) by {
        if size == 0 {
            assert(size * size == 0);
        }
    }
    vstd::arithmetic::div_mod::lemma_fundamental_div_mod(i, size);
    vstd::arithmetic::div_mod::lemma_div_pos_is_pos(i, size);
    vstd::arithmetic::div_mod::lemma_mod_bound(i, size);
    let q = i / size;
    let m = i % size;
    assert(q * size == size * q) by (nonlinear_arith);
    assert(q < size) by (nonlinear_arith)
        requires
            i == size * q + m,
            0 <= m,
            i < size * size,
            size > 0,
    ;
}

/// The row-major position of an on-grid `(r, c)`.
pub fn flat_index(size: usize, r: usize, c: usize) -> (i: usize)
    requires
        r < size,
        c < size,
        size * size <= usize::MAX,
    ensures
        i as int == flat(size as int, r as int, c as int),
        i < size * size,
{
    proof {
        lemma_flat_bounds(size as int, r as int, c as int);
    }
    r * size + c
}

fn mine_at(mask: &Vec<bool>, size: usize, r: usize, c: usize) -> (b: bool)
    requires
        r < size,
        c < size,
        size * size <= usize::MAX,
        mask@.len() == size * size,
    ensures
        b == mask@[flat(size as int, r as int, c as int)],
{
    mask[flat_index(size, r, c)]
}

/// Counts the mines that touch `(r, c)` in a row-major mine mask.
pub fn count_neighbors(mask: &Vec<bool>, size: usize, r: usize, c: usize) -> (n: u8)
    requires
        r < size,
        c < size,
        size * size <= usize::MAX,
        mask@.len() == size * size,
    ensures
        n as int == neighbor_count(mask@, size as int, r as int, c as int),
        n <= 8,
{
    let up = r > 0;
    let down = r + 1 < size;
    let left = c > 0;
    let right = c + 1 < size;
    let mut n: u8 = 0;
    if up && left && mine_at(mask, size, r - 1, c - 1) {
        n = n + 1;
    }
    if up && mine_at(mask, size, r - 1, c) {
        n = n + 1;
    }
    if up && right && mine_at(mask, size, r - 1, c + 1) {
        n = n + 1;
    }
    if left && mine_at(mask, size, r, c - 1) {
        n = n + 1;
    }
    if right && mine_at(mask, size, r, c + 1) {
        n = n + 1;
    }
    if down && left && mine_at(mask, size, r + 1, c - 1) {
        n = n + 1;
    }
    if down && mine_at(mask, size, r + 1, c) {
        n = n + 1;
    }
    if down && right && mine_at(mask, size, r + 1, c + 1) {
        n = n + 1;
    }
    n
}

} // verus!
