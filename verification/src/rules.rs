//! Rule sets: a pair of validated permutations over the block-index space,
//! with their precomputed inverses and the designated edit states.

use vstd::prelude::*;
use crate::codec::{
    BlockInt, CellState, block_code, block_vals, cell_bl, cell_br, cell_tl, cell_tr,
    lemma_decode_of_code,
};
use crate::permutation::{PermutationArray, invert, is_inverse_of, is_permutation};

verus! {

/// A validated rule set: the two step permutations, their inverses, and the
/// alphabet size. Immutable once constructed; the constructors only hand out
/// rule sets satisfying [`Rules::wf`].
pub struct Rules {
    pub(crate) n_states: u8,
    pub(crate) step1: Vec<BlockInt>,
    pub(crate) step2: Vec<BlockInt>,
    pub(crate) step1_invert: Vec<BlockInt>,
    pub(crate) step2_invert: Vec<BlockInt>,
}

/// The state a cell of a foreign alphabet is remapped to under an `n`-state
/// rule set: values outside the alphabet collapse to state 1.
pub open spec fn normalize_cell(n: nat, s: nat) -> nat {
    if s >= n { 1 } else { s }
}

impl Rules {
    /// The alphabet size.
    pub open(crate) spec fn n(&self) -> nat {
        self.n_states as nat
    }

    /// The block-index space size, `n^4`.
    pub open(crate) spec fn size(&self) -> nat {
        self.n() * self.n() * self.n() * self.n()
    }

    /// The permutation applied on even-phase forward steps.
    pub open(crate) spec fn spec_step1(&self) -> Seq<u8> {
        block_vals(self.step1@)
    }

    /// The permutation applied on odd-phase forward steps.
    pub open(crate) spec fn spec_step2(&self) -> Seq<u8> {
        block_vals(self.step2@)
    }

    /// The inverse of the even-phase permutation.
    pub open(crate) spec fn spec_step1_invert(&self) -> Seq<u8> {
        block_vals(self.step1_invert@)
    }

    /// The inverse of the odd-phase permutation.
    pub open(crate) spec fn spec_step2_invert(&self) -> Seq<u8> {
        block_vals(self.step2_invert@)
    }

    /// Well-formedness: a supported alphabet, both step tables permutations
    /// of the whole block-index space, and both inverse tables exact.
    pub open(crate) spec fn wf(&self) -> bool {
        &&& (self.n() == 2 || self.n() == 3)
        &&& self.spec_step1().len() == self.size()
        &&& self.spec_step2().len() == self.size()
        &&& is_permutation(self.spec_step1())
        &&& is_permutation(self.spec_step2())
        &&& is_inverse_of(self.spec_step1_invert(), self.spec_step1())
        &&& is_inverse_of(self.spec_step2_invert(), self.spec_step2())
    }

    /// Builds a rule set that applies the same permutation in both phases.
    /// Accepts exactly the arrays of a supported length (16 or 81) that are
    /// permutations of their index range.
    pub fn from_one_step(step: Vec<BlockInt>) -> (r: Option<Rules>)
        ensures
            r is Some <==> (step@.len() == 16 || step@.len() == 81) && is_permutation(
                block_vals(step@),
            ),
            r matches Some(rs) ==> rs.wf() && rs.spec_step1() == block_vals(step@)
                && rs.spec_step2() == block_vals(step@) && rs.n() == (
            if step@.len() == 16 {
                2nat
            } else {
                3nat
            }),
    {
        let m = step.len();
        if !(m == 16 || m == 81) {
            return None;
        }
        let n_states: u8 = if m == 16 {
            2
        } else {
            3
        };
        let inv = match invert(&step) {
            Some(inv) => inv,
            None => {
                return None;
            },
        };
        let step_copy = copy_table(&step);
        let inv_copy = copy_table(&inv);
        Some(
            Rules {
                n_states,
                step1: step,
                step2: step_copy,
                step1_invert: inv,
                step2_invert: inv_copy,
            },
        )
    }

    /// Builds a rule set from two independent permutations, the first applied
    /// on even phases and the second on odd phases. Accepts exactly two
    /// arrays of one supported length (both 16 or both 81) that are each
    /// permutations of their index range.
    pub fn from_two_steps(step1: Vec<BlockInt>, step2: Vec<BlockInt>) -> (r: Option<Rules>)
        ensures
            r is Some <==> ((step1@.len() == 16 && step2@.len() == 16) || (step1@.len() == 81
                && step2@.len() == 81)) && is_permutation(block_vals(step1@)) && is_permutation(
                block_vals(step2@),
            ),
            r matches Some(rs) ==> rs.wf() && rs.spec_step1() == block_vals(step1@)
                && rs.spec_step2() == block_vals(step2@) && rs.n() == (
            if step1@.len() == 16 {
                2nat
            } else {
                3nat
            }),
    {
        let m1 = step1.len();
        let m2 = step2.len();
        if !((m1 == 16 && m2 == 16) || (m1 == 81 && m2 == 81)) {
            return None;
        }
        let n_states: u8 = if m1 == 16 {
            2
        } else {
            3
        };
        let inv1 = match invert(&step1) {
            Some(inv) => inv,
            None => {
                return None;
            },
        };
        let inv2 = match invert(&step2) {
            Some(inv) => inv,
            None => {
                return None;
            },
        };
        let rs = Rules { n_states, step1, step2, step1_invert: inv1, step2_invert: inv2 };
        proof {
            assert(rs.size() == rs.spec_step1().len());
        }
        Some(rs)
    }

    /// The permutation table for even-phase forward steps.
    pub fn step1(&self) -> (r: &Vec<BlockInt>)
        ensures
            block_vals(r@) == self.spec_step1(),
    {
        &self.step1
    }

    /// The permutation table for odd-phase forward steps.
    pub fn step2(&self) -> (r: &Vec<BlockInt>)
        ensures
            block_vals(r@) == self.spec_step2(),
    {
        &self.step2
    }

    /// The inverse of the even-phase table.
    pub fn step1_invert(&self) -> (r: &Vec<BlockInt>)
        ensures
            block_vals(r@) == self.spec_step1_invert(),
    {
        &self.step1_invert
    }

    /// The inverse of the odd-phase table.
    pub fn step2_invert(&self) -> (r: &Vec<BlockInt>)
        ensures
            block_vals(r@) == self.spec_step2_invert(),
    {
        &self.step2_invert
    }

    /// The state painted by the primary edit gesture.
    pub fn mouse_1(&self) -> (r: CellState)
        requires
            self.wf(),
        ensures
            r.0 == 1,
            (r.0 as nat) < self.n(),
    {
        CellState(1)
    }

    /// The state painted by the secondary edit gesture.
    pub fn mouse_2(&self) -> (r: CellState)
        requires
            self.wf(),
        ensures
            r.0 as nat == (if self.n() == 2 { 0nat } else { 2nat }),
            (r.0 as nat) < self.n(),
    {
        if self.n_states == 2 {
            CellState(0)
        } else {
            CellState(2)
        }
    }

    /// The state painted by the clearing edit gesture.
    pub fn mouse_3(&self) -> (r: CellState)
        requires
            self.wf(),
        ensures
            r.0 == 0,
            (r.0 as nat) < self.n(),
    {
        CellState(0)
    }

    /// The state a cleared or freshly allocated cell holds.
    pub fn default_state(&self) -> (r: CellState)
        requires
            self.wf(),
        ensures
            r.0 == 0,
            (r.0 as nat) < self.n(),
    {
        CellState(0)
    }

    /// Remaps a cell state of a possibly different alphabet into this rule
    /// set's alphabet: anything above the highest valid state becomes 1.
    pub fn normalize_state(&self, other_rules_state: CellState) -> (r: CellState)
        requires
            self.wf(),
        ensures
            r.0 as nat == normalize_cell(self.n(), other_rules_state.0 as nat),
            (r.0 as nat) < self.n(),
    {
        if other_rules_state.0 >= self.n_states {
            CellState(1)
        } else {
            other_rules_state
        }
    }

    /// Encodes a block given as (top-left, top-right, bottom-left,
    /// bottom-right) into its block index.
    pub fn to_block_int(&self, cells: [CellState; 4]) -> (r: BlockInt)
        requires
            self.wf(),
            forall|i: int| 0 <= i < 4 ==> (#[trigger] cells[i].0 as nat) < self.n(),
        ensures
            r.0 as nat == block_code(
                self.n(),
                cells[0].0 as nat,
                cells[1].0 as nat,
                cells[2].0 as nat,
                cells[3].0 as nat,
            ),
            (r.0 as nat) < self.size(),
    {
        let n = self.n_states as usize;
        let a = cells[0].0 as usize;
        let b = cells[1].0 as usize;
        let c = cells[2].0 as usize;
        let d = cells[3].0 as usize;
        proof {
            lemma_decode_of_code(
                self.n(),
                cells[0].0 as nat,
                cells[1].0 as nat,
                cells[2].0 as nat,
                cells[3].0 as nat,
            );
            assert(a * n <= 6 && a * n * n <= 18 && a * n * n * n <= 54 && b * n <= 6 && b * n
                * n <= 18 && c * n <= 6) by (nonlinear_arith)
                requires
                    n <= 3,
                    a < n,
                    b < n,
                    c < n,
                    0 <= a,
                    0 <= b,
                    0 <= c,
            ;
        }
        let code = a * n * n * n + b * n * n + c * n + d;
        BlockInt(code as u8)
    }

    /// Decodes a block index back into its four cell states, in the order
    /// (top-left, top-right, bottom-left, bottom-right).
    pub fn from_block_int(&self, code: BlockInt) -> (r: [CellState; 4])
        requires
            self.wf(),
            (code.0 as nat) < self.size(),
        ensures
            r[0].0 as nat == cell_tl(self.n(), code.0 as nat),
            r[1].0 as nat == cell_tr(self.n(), code.0 as nat),
            r[2].0 as nat == cell_bl(self.n(), code.0 as nat),
            r[3].0 as nat == cell_br(self.n(), code.0 as nat),
            forall|i: int| 0 <= i < 4 ==> (#[trigger] r[i].0 as nat) < self.n(),
    {
        let n = self.n_states;
        let v = code.0;
        proof {
            crate::codec::lemma_code_of_decode(self.n(), code.0 as nat);
            assert((n as int) * (n as int) <= 9 && (n as int) * (n as int) * (n as int) <= 27)
                by (nonlinear_arith)
                requires
                    n == 2 || n == 3,
            ;
        }
        let a = v / (n * n * n);
        let b = (v / (n * n)) % n;
        let c = (v / n) % n;
        let d = v % n;
        [CellState(a), CellState(b), CellState(c), CellState(d)]
    }
}

/// Copies a rule table entry by entry.
fn copy_table(t: &Vec<BlockInt>) -> (r: Vec<BlockInt>)
    ensures
        r@ == t@,
{
    let mut r: Vec<BlockInt> = Vec::new();
    for i in 0..t.len()
        invariant
            r@ =~= t@.subrange(0, i as int),
    {
        r.push(t[i]);
    }
    assert(r@ =~= t@);
    r
}

/// Rule construction errors, reported synchronously by [`construct_rules`].
#[derive(Clone, Copy, Debug, PartialEq, Eq, Structural)]
pub enum ConstructError {
    /// A number of permutation arrays other than 1 or 2 was supplied.
    WrongSteps { steps_count: usize },
    /// A supplied array's length matches no supported alphabet.
    WrongElementsCount,
    /// A supplied array is not a bijection on its index range.
    NotPermutationArrays,
}

/// Builds a rule set from the supplied permutation arrays: one array is used
/// for both phases, two arrays drive the even and odd phases independently.
/// Fails with `WrongSteps` for any other count, `WrongElementsCount` for an
/// unsupported length, and `NotPermutationArrays` for a non-bijective array.
pub fn construct_rules(permutation_vecs: Vec<PermutationArray>) -> (r: Result<
    Rules,
    ConstructError,
>)
    ensures
        permutation_vecs@.len() == 0 || permutation_vecs@.len() > 2 ==> r == Err::<
            Rules,
            ConstructError,
        >(ConstructError::WrongSteps { steps_count: permutation_vecs@.len() as usize }),
        permutation_vecs@.len() == 1 ==> {
            let s = block_vals(permutation_vecs@[0].0@);
            if !(s.len() == 16 || s.len() == 81) {
                r == Err::<Rules, ConstructError>(ConstructError::WrongElementsCount)
            } else if !is_permutation(s) {
                r == Err::<Rules, ConstructError>(ConstructError::NotPermutationArrays)
            } else {
                r matches Ok(rs) && rs.wf() && rs.spec_step1() == s && rs.spec_step2() == s
            }
        },
        permutation_vecs@.len() == 2 ==> {
            let s1 = block_vals(permutation_vecs@[0].0@);
            let s2 = block_vals(permutation_vecs@[1].0@);
            if !((s1.len() == 16 && s2.len() == 16) || (s1.len() == 81 && s2.len() == 81)) {
                r == Err::<Rules, ConstructError>(ConstructError::WrongElementsCount)
            } else if !(is_permutation(s1) && is_permutation(s2)) {
                r == Err::<Rules, ConstructError>(ConstructError::NotPermutationArrays)
            } else {
                r matches Ok(rs) && rs.wf() && rs.spec_step1() == s1 && rs.spec_step2() == s2
            }
        },
{
    let mut vecs = permutation_vecs;
    if vecs.len() == 1 {
        let a = vecs.remove(0);
        if !(a.0.len() == 16 || a.0.len() == 81) {
            return Err(ConstructError::WrongElementsCount);
        }
        match Rules::from_one_step(a.0) {
            Some(rs) => Ok(rs),
            None => Err(ConstructError::NotPermutationArrays),
        }
    } else if vecs.len() == 2 {
        let a = vecs.remove(0);
        let b = vecs.remove(0);
        let la = a.0.len();
        let lb = b.0.len();
        if !((la == 16 && lb == 16) || (la == 81 && lb == 81)) {
            return Err(ConstructError::WrongElementsCount);
        }
        match Rules::from_two_steps(a.0, b.0) {
            Some(rs) => Ok(rs),
            None => Err(ConstructError::NotPermutationArrays),
        }
    } else {
        Err(ConstructError::WrongSteps { steps_count: vecs.len() })
    }
}

} // verus!
