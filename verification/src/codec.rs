//! Mixed-radix coding of a 2x2 block of cell states as one integer.
//!
//! For an alphabet of `n` states, an ordered block (top-left, top-right,
//! bottom-left, bottom-right) is encoded as `a*n^3 + b*n^2 + c*n + d`, an
//! integer below `n^4`. Encoding and decoding are exact inverses.

use vstd::prelude::*;
use vstd::arithmetic::div_mod::{
    lemma_fundamental_div_mod, lemma_fundamental_div_mod_converse, lemma_div_denominator,
    lemma_mod_division_less_than_divisor, lemma_div_pos_is_pos,
};

verus! {

/// One cell's state: an integer below the rule set's alphabet size.
#[derive(Clone, Copy, Debug, PartialEq, Eq, Hash, PartialOrd, Ord, Structural)]
pub struct CellState(pub u8);

/// A 2x2 block of cells encoded as one mixed-radix integer below `n^4`.
#[derive(Clone, Copy, Debug, PartialEq, Eq, Hash, PartialOrd, Ord, Structural)]
pub struct BlockInt(pub u8);

/// The raw values carried by a sequence of block integers.
pub open spec fn block_vals(s: Seq<BlockInt>) -> Seq<u8> {
    s.map_values(|b: BlockInt| b.0)
}

/// The block index of the tuple `(a, b, c, d)` in an `n`-state alphabet.
pub open spec fn block_code(n: nat, a: nat, b: nat, c: nat, d: nat) -> nat {
    a * n * n * n + b * n * n + c * n + d
}

/// The top-left cell of the block encoded by `code`.
pub open spec fn cell_tl(n: nat, code: nat) -> nat {
    code / (n * n * n)
}

/// The top-right cell of the block encoded by `code`.
pub open spec fn cell_tr(n: nat, code: nat) -> nat {
    (code / (n * n)) % n
}

/// The bottom-left cell of the block encoded by `code`.
pub open spec fn cell_bl(n: nat, code: nat) -> nat {
    (code / n) % n
}

/// The bottom-right cell of the block encoded by `code`.
pub open spec fn cell_br(n: nat, code: nat) -> nat {
    code % n
}

/// Law: decoding the code of any block of four valid cell states yields
/// exactly that block back, and the code itself lies below `n^4`.
pub proof fn lemma_decode_of_code(n: nat, a: nat, b: nat, c: nat, d: nat)
    requires
        a < n,
        b < n,
        c < n,
        d < n,
    ensures
        block_code(n, a, b, c, d) < n * n * n * n,
        cell_tl(n, block_code(n, a, b, c, d)) == a,
        cell_tr(n, block_code(n, a, b, c, d)) == b,
        cell_bl(n, block_code(n, a, b, c, d)) == c,
        cell_br(n, block_code(n, a, b, c, d)) == d,
{
    let e = block_code(n, a, b, c, d) as int;
    let ni = n as int;
    let ai = a as int;
    let bi = b as int;
    let ci = c as int;
    let di = d as int;
    assert(0 <= bi * ni * ni + ci * ni + di < ni * ni * ni && 0 <= ci * ni + di < ni * ni && e < ni
        * ni * ni * ni) by (nonlinear_arith)
        requires
            ai < ni,
            bi < ni,
            ci < ni,
            di < ni,
            0 <= ai,
            0 <= bi,
            0 <= ci,
            0 <= di,
            e == ai * ni * ni * ni + bi * ni * ni + ci * ni + di,
    ;
    assert(e == ai * (ni * ni * ni) + (bi * ni * ni + ci * ni + di) && e == (ai * ni + bi) * (ni
        * ni) + (ci * ni + di) && e == (ai * ni * ni + bi * ni + ci) * ni + di && ai * ni * ni + bi
        * ni + ci == (ai * ni + bi) * ni + ci) by (nonlinear_arith)
        requires
            e == ai * ni * ni * ni + bi * ni * ni + ci * ni + di,
    ;
    lemma_fundamental_div_mod_converse(e, ni * ni * ni, ai, bi * ni * ni + ci * ni + di);
    lemma_fundamental_div_mod_converse(e, ni * ni, ai * ni + bi, ci * ni + di);
    lemma_fundamental_div_mod_converse(ai * ni + bi, ni, ai, bi);
    lemma_fundamental_div_mod_converse(e, ni, ai * ni * ni + bi * ni + ci, di);
    lemma_fundamental_div_mod_converse(ai * ni * ni + bi * ni + ci, ni, ai * ni + bi, ci);
}

/// Law: re-encoding the four decoded cells of any code below `n^4` yields
/// exactly that code back, and each decoded cell is a valid state.
pub proof fn lemma_code_of_decode(n: nat, code: nat)
    requires
        1 <= n,
        code < n * n * n * n,
    ensures
        cell_tl(n, code) < n,
        cell_tr(n, code) < n,
        cell_bl(n, code) < n,
        cell_br(n, code) < n,
        block_code(n, cell_tl(n, code), cell_tr(n, code), cell_bl(n, code), cell_br(n, code))
            == code,
{
    let e = code as int;
    let ni = n as int;
    lemma_mod_division_less_than_divisor(e, ni);
    lemma_fundamental_div_mod(e, ni);
    lemma_div_pos_is_pos(e, ni);
    let q1 = e / ni;
    lemma_div_pos_is_pos(q1, ni);
    lemma_mod_division_less_than_divisor(q1, ni);
    lemma_fundamental_div_mod(q1, ni);
    let q2 = q1 / ni;
    lemma_div_pos_is_pos(q2, ni);
    lemma_mod_division_less_than_divisor(q2, ni);
    lemma_fundamental_div_mod(q2, ni);
    let q3 = q2 / ni;
    lemma_div_denominator(e, ni, ni);
    assert(q2 == e / (ni * ni));
    lemma_div_denominator(e, ni * ni, ni);
    assert(q3 == e / (ni * ni * ni));
    // q3 < n, since code < n^4.
    assert(q3 < ni) by (nonlinear_arith)
        requires
            0 < ni,
            e < ni * ni * ni * ni,
            e == ni * q1 + e % ni,
            q1 == ni * q2 + q1 % ni,
            q2 == ni * q3 + q2 % ni,
            0 <= e % ni,
            0 <= q1 % ni,
            0 <= q2 % ni,
            0 <= q3,
    ;
    assert(e == q3 * ni * ni * ni + (q2 % ni) * ni * ni + (q1 % ni) * ni + e % ni)
        by (nonlinear_arith)
        requires
            e == ni * q1 + e % ni,
            q1 == ni * q2 + q1 % ni,
            q2 == ni * q3 + q2 % ni,
    ;
}

} // verus!
