use vstd::prelude::*;
use vstd::arithmetic::div_mod::lemma_fundamental_div_mod_converse;

verus! {

/// Offset of entry `j` of row `i` in a row-major table whose rows hold `d` entries.
pub open spec fn offset2(d: int, i: int, j: int) -> int {
    i * d + j
}

/// Offset of entry `[a][b][c][e]` in a row-major block whose three inner
/// extents are `d1`, `d2` and `d3` (the last axis varies fastest).
pub open spec fn offset4(d1: int, d2: int, d3: int, a: int, b: int, c: int, e: int) -> int {
    ((a * d1 + b) * d2 + c) * d3 + e
}

/// Number of entries of a block with extents `d0`, `d1`, `d2`, `d3`.
pub open spec fn volume4(d0: int, d1: int, d2: int, d3: int) -> int {
    d0 * d1 * d2 * d3
}

/// An in-range row and column give an offset inside the table, not below the row number.
pub proof fn lemma_offset2_bound(n: int, d: int, i: int, j: int)
    by (nonlinear_arith)
    requires
        0 <= i < n,
        0 <= j < d,
    ensures
        0 <= i <= i * d <= offset2(d, i, j) < n * d,
{
}

/// Distinct in-range (row, column) pairs have distinct offsets: the row and
/// the column are the quotient and the remainder of the offset by the row length.
pub proof fn lemma_offset2_split(d: int, i: int, j: int)
    requires
        0 <= j < d,
    ensures
        offset2(d, i, j) / d == i,
        offset2(d, i, j) % d == j,
{
    lemma_fundamental_div_mod_converse(i * d + j, d, i, j);
}

/// Every offset inside an `n` by `d` table is the offset of exactly the row
/// `x / d` and the column `x % d`, both in range.
pub proof fn lemma_offset2_join(n: int, d: int, x: int)
    by (nonlinear_arith)
    requires
        0 <= x < n * d,
        0 <= d,
    ensures
        0 < d,
        0 < n,
        0 <= x / d < n,
        0 <= x % d < d,
        offset2(d, x / d, x % d) == x,
{
}

/// In-range indices give an offset inside the block, and the partial offsets
/// over the leading axes never exceed it.
pub proof fn lemma_offset4_bound(
    d0: int,
    d1: int,
    d2: int,
    d3: int,
    a: int,
    b: int,
    c: int,
    e: int,
)
    requires
        0 <= a < d0,
        0 <= b < d1,
        0 <= c < d2,
        0 <= e < d3,
    ensures
        0 <= a * d1 <= a * d1 + b,
        a * d1 + b <= (a * d1 + b) * d2 <= (a * d1 + b) * d2 + c,
        (a * d1 + b) * d2 + c <= ((a * d1 + b) * d2 + c) * d3 <= offset4(d1, d2, d3, a, b, c, e),
        offset4(d1, d2, d3, a, b, c, e) < volume4(d0, d1, d2, d3),
{
    lemma_offset2_bound(d0, d1, a, b);
    lemma_offset2_bound(d0 * d1, d2, a * d1 + b, c);
    lemma_offset2_bound(d0 * d1 * d2, d3, (a * d1 + b) * d2 + c, e);
}

/// Two in-range index tuples with the same offset are the same tuple: no two
/// entries of a block share a slot.
pub proof fn lemma_offset4_injective(
    d1: int,
    d2: int,
    d3: int,
    a: int,
    b: int,
    c: int,
    e: int,
    a2: int,
    b2: int,
    c2: int,
    e2: int,
)
    requires
        0 <= b < d1,
        0 <= c < d2,
        0 <= e < d3,
        0 <= b2 < d1,
        0 <= c2 < d2,
        0 <= e2 < d3,
        offset4(d1, d2, d3, a, b, c, e) == offset4(d1, d2, d3, a2, b2, c2, e2),
    ensures
        a == a2,
        b == b2,
        c == c2,
        e == e2,
{
    lemma_offset2_split(d3, (a * d1 + b) * d2 + c, e);
    lemma_offset2_split(d3, (a2 * d1 + b2) * d2 + c2, e2);
    lemma_offset2_split(d2, a * d1 + b, c);
    lemma_offset2_split(d2, a2 * d1 + b2, c2);
    lemma_offset2_split(d1, a, b);
    lemma_offset2_split(d1, a2, b2);
}

/// The indices `[a][b][c][e]` of the entry at offset `x` in a row-major block
/// whose three inner extents are `d1`, `d2` and `d3`.
pub open spec fn cell4(d1: int, d2: int, d3: int, x: int) -> (int, int, int, int) {
    (((x / d3) / d2) / d1, ((x / d3) / d2) % d1, (x / d3) % d2, x % d3)
}

/// Taking the offset of in-range indices and then the indices of that offset
/// gives the indices back.
pub proof fn lemma_cell4_of_offset4(d1: int, d2: int, d3: int, a: int, b: int, c: int, e: int)
    requires
        0 <= b < d1,
        0 <= c < d2,
        0 <= e < d3,
    ensures
        cell4(d1, d2, d3, offset4(d1, d2, d3, a, b, c, e)) == (a, b, c, e),
{
    lemma_offset2_split(d3, (a * d1 + b) * d2 + c, e);
    lemma_offset2_split(d2, a * d1 + b, c);
    lemma_offset2_split(d1, a, b);
}

/// Every offset inside a block is the offset of its own indices, and they
/// are in range.
pub proof fn lemma_offset4_of_cell4(d0: int, d1: int, d2: int, d3: int, x: int)
    requires
        0 <= d0,
        0 <= d1,
        0 <= d2,
        0 <= d3,
        0 <= x < volume4(d0, d1, d2, d3),
    ensures
        0 < d1 && 0 < d2 && 0 < d3,
        0 <= cell4(d1, d2, d3, x).0 < d0,
        0 <= cell4(d1, d2, d3, x).1 < d1,
        0 <= cell4(d1, d2, d3, x).2 < d2,
        0 <= cell4(d1, d2, d3, x).3 < d3,
        offset4(
            d1,
            d2,
            d3,
            cell4(d1, d2, d3, x).0,
            cell4(d1, d2, d3, x).1,
            cell4(d1, d2, d3, x).2,
            cell4(d1, d2, d3, x).3,
        ) == x,
{
    lemma_offset2_join(d0 * d1 * d2, d3, x);
    lemma_offset2_join(d0 * d1, d2, x / d3);
    lemma_offset2_join(d0, d1, (x / d3) / d2);
}

/// A product of two natural numbers with a positive second factor is no
/// smaller than the first.
pub proof fn lemma_product_grows(x: int, y: int)
    by (nonlinear_arith)
    requires
        0 <= x,
        1 <= y,
    ensures
        x <= x * y,
{
}

/// The product of four extents, or `None` where it cannot be held in a `usize`.
pub fn checked_volume4(d0: usize, d1: usize, d2: usize, d3: usize) -> (r: Option<usize>)
    ensures
        r matches Some(v) ==> v == volume4(d0 as int, d1 as int, d2 as int, d3 as int),
        r is None <==> volume4(d0 as int, d1 as int, d2 as int, d3 as int) > usize::MAX,
{
    if d0 == 0 || d1 == 0 || d2 == 0 || d3 == 0 {
        assert(d0 * d1 * d2 * d3 == 0) by (nonlinear_arith)
            requires
                d0 == 0 || d1 == 0 || d2 == 0 || d3 == 0,
        ;
        return Some(0);
    }
    proof {
        lemma_product_grows(d0 * d1, d2 as int);
        lemma_product_grows(d0 * d1 * d2, d3 as int);
        assert(0 <= d0 * d1) by (nonlinear_arith);
        assert(0 <= d0 * d1 * d2) by (nonlinear_arith);
    }
    match d0.checked_mul(d1) {
        None => None,
        Some(p) => match p.checked_mul(d2) {
            None => None,
            Some(q) => q.checked_mul(d3),
        },
    }
}

/// The row and the column of offset `x` in a table whose rows hold `d` entries.
pub fn split2(d: usize, x: usize) -> (r: (usize, usize))
    requires
        d > 0,
    ensures
        r.0 == x as int / d as int,
        r.1 == x as int % d as int,
        r.1 < d,
        offset2(d as int, r.0 as int, r.1 as int) == x,
{
    proof {
        vstd::arithmetic::div_mod::lemma_fundamental_div_mod(x as int, d as int);
        assert(d * (x as int / d as int) == (x as int / d as int) * d) by (nonlinear_arith);
    }
    (x / d, x % d)
}

/// The indices of the entry at offset `x` in a row-major block whose three
/// inner extents are `d1`, `d2` and `d3`.
pub fn split4(d1: usize, d2: usize, d3: usize, x: usize) -> (r: (usize, usize, usize, usize))
    requires
        d1 > 0,
        d2 > 0,
        d3 > 0,
    ensures
        (r.0 as int, r.1 as int, r.2 as int, r.3 as int) == cell4(
            d1 as int,
            d2 as int,
            d3 as int,
            x as int,
        ),
{
    let (q1, e) = split2(d3, x);
    let (q2, c) = split2(d2, q1);
    let (a, b) = split2(d1, q2);
    (a, b, c, e)
}

} // verus!
