//! Arithmetic of fixed-width line wrapping.

use vstd::arithmetic::div_mod::lemma_fundamental_div_mod_converse;
use vstd::prelude::*;

verus! {

/// Byte position of residue `k` of a run of wrapped lines whose first line
/// starts at byte `base`, with `lb` residues and `lw` bytes per full line.
pub open spec fn layout_byte(base: int, lb: int, lw: int, k: int) -> int {
    base + (k / lb) * lw + k % lb
}

/// Moving `t` residues forward inside one physical line moves `t` bytes.
pub proof fn lemma_same_line(base: int, lb: int, lw: int, k: int, t: int)
    requires
        lb > 0,
        k >= 0,
        t >= 0,
        k % lb + t < lb,
    ensures
        layout_byte(base, lb, lw, k + t) == layout_byte(base, lb, lw, k) + t,
        (k + t) % lb == k % lb + t,
{
    let q = k / lb;
    let r = k % lb;
    assert(k == q * lb + r) by (nonlinear_arith)
        requires lb > 0, q == k / lb, r == k % lb;
    assert(k + t == q * lb + (r + t));
    lemma_fundamental_div_mod_converse(k + t, lb, q, r + t);
}

/// Stepping past the last residue of a full line skips the terminator bytes.
pub proof fn lemma_next_line(base: int, lb: int, lw: int, k: int)
    requires
        lb > 0,
        k >= 0,
        k % lb == lb - 1,
    ensures
        layout_byte(base, lb, lw, k + 1) == layout_byte(base, lb, lw, k) + 1 + (lw - lb),
        (k + 1) % lb == 0,
{
    let q = k / lb;
    assert(k == q * lb + (lb - 1)) by (nonlinear_arith)
        requires lb > 0, q == k / lb, k % lb == lb - 1;
    assert(k + 1 == (q + 1) * lb + 0) by (nonlinear_arith)
        requires k == q * lb + (lb - 1);
    lemma_fundamental_div_mod_converse(k + 1, lb, q + 1, 0);
    assert((q + 1) * lw == q * lw + lw) by (nonlinear_arith);
}

/// Positions of residues grow strictly with their index.
pub proof fn lemma_strictly_increasing(base: int, lb: int, lw: int, k1: int, k2: int)
    requires
        lb > 0,
        lw >= lb,
        0 <= k1 < k2,
    ensures
        layout_byte(base, lb, lw, k1) < layout_byte(base, lb, lw, k2),
{
    let q1 = k1 / lb;
    let q2 = k2 / lb;
    let r1 = k1 % lb;
    let r2 = k2 % lb;
    assert(k1 == q1 * lb + r1 && k2 == q2 * lb + r2 && 0 <= r1 < lb && 0 <= r2 < lb)
        by (nonlinear_arith)
        requires lb > 0, q1 == k1 / lb, q2 == k2 / lb, r1 == k1 % lb, r2 == k2 % lb;
    if q1 == q2 {
        assert(r1 < r2);
    } else {
        assert(q1 < q2) by (nonlinear_arith)
            requires k1 == q1 * lb + r1, k2 == q2 * lb + r2, 0 <= r1 < lb, 0 <= r2 < lb, k1 < k2, q1 != q2;
        assert(q1 * lw + lw <= q2 * lw) by (nonlinear_arith)
            requires q1 < q2, lw >= 0;
    }
}

/// Splitting an index at a line boundary: counting from residue `first` is the
/// same as counting from the start of its line with an in-line phase.
pub proof fn lemma_rebase(base: int, lb: int, lw: int, first: int, j: int)
    requires
        lb > 0,
        first >= 0,
        j >= 0,
    ensures
        layout_byte(base, lb, lw, first + j) == layout_byte(
            base + (first / lb) * lw,
            lb,
            lw,
            first % lb + j,
        ),
{
    let q = first / lb;
    let r = first % lb;
    let s = r + j;
    assert(first == q * lb + r && 0 <= r < lb) by (nonlinear_arith)
        requires lb > 0, q == first / lb, r == first % lb;
    assert(s == (s / lb) * lb + s % lb && 0 <= s % lb < lb && s / lb >= 0) by (nonlinear_arith)
        requires lb > 0, s >= 0;
    assert(first + j == (q + s / lb) * lb + s % lb) by (nonlinear_arith)
        requires first == q * lb + r, s == r + j, s == (s / lb) * lb + s % lb;
    lemma_fundamental_div_mod_converse(first + j, lb, q + s / lb, s % lb);
    assert((q + s / lb) * lw == q * lw + (s / lb) * lw) by (nonlinear_arith);
}

} // verus!
