//! Compact namings of permutations: Lehmer codes, ranks, and letter strings.
//!
//! A permutation array can be written as its Lehmer code (the "index"): the
//! `i`-th digit counts how many places from the front of the still-unused
//! values the `i`-th element sits, so digit `i` is below `m - i`. The code
//! in turn names the permutation by a single number (the "int"), its value
//! in the factorial number system: digit `i` carries weight `(m - 1 - i)!`.
//! That number, finally, is written as a string of letters, base 26, `'a'`
//! for 0 through `'z'` for 25, most significant letter first and without
//! leading `'a'` except for the number 0 itself, which is written `"a"`.

use vstd::prelude::*;
use crate::bignum::{
    big_add_u32, big_as_u64, big_div_u32, big_from_u64, big_is_zero, big_mul_u32, big_rem_u32,
    big_value,
};
use crate::codec::{BlockInt, block_vals};
use crate::permutation::{PermutationArray, appears};
use vstd::arithmetic::div_mod::lemma_fundamental_div_mod;

verus! {

/// A permutation named as a base-26 letter string.
#[derive(Clone, Debug, PartialEq, Eq, Hash, PartialOrd, Ord)]
pub struct PermutationString {
    pub string: String,
    pub permutation_size: u8,
}

/// A permutation named by its number in the factorial number system.
#[derive(Debug)]
pub struct PermutationInt {
    pub int: num_bigint::BigUint,
    pub permutation_size: u8,
}

/// A permutation's Lehmer code: digit `i` is the position of element `i`
/// among the values not used by earlier elements.
#[derive(Clone, Debug, PartialEq, Eq, Hash, PartialOrd, Ord)]
pub struct PermutationIndex(pub Vec<u8>);

/// Conversion failures between the permutation namings.
#[derive(Clone, Copy, Debug, PartialEq, Eq, Structural)]
pub enum ConversionError {
    /// The input has more elements than a permutation naming can carry.
    TooLong,
    /// The input array is not a permutation array.
    NotPermutationArray,
    /// The input index has a digit too large for its position.
    NotPermutationIndex,
    /// The input number is at least `m!` and so names no permutation.
    IntTooLarge,
    /// The input string is empty or holds a character outside `'a'..='z'`.
    NotLetters,
}

/// The factorial of `m`.
pub open spec fn factorial(m: nat) -> nat
    decreases m,
{
    if m == 0 {
        1
    } else {
        m * factorial((m - 1) as nat)
    }
}

/// `idx` is a valid Lehmer code for a permutation of `m` elements: it has
/// one digit per element and digit `i` is below `m - i`.
pub open spec fn lehmer_valid(m: nat, idx: Seq<u8>) -> bool {
    &&& idx.len() == m
    &&& forall|i: int| 0 <= i < idx.len() ==> (#[trigger] idx[i] as int) < m - i
}

/// The number a Lehmer code stands for: digit `i` carries the weight
/// `(len - 1 - i)!`.
pub open spec fn lehmer_value(idx: Seq<u8>) -> nat
    decreases idx.len(),
{
    if idx.len() == 0 {
        0
    } else {
        (idx[0] as nat) * factorial((idx.len() - 1) as nat) + lehmer_value(idx.skip(1))
    }
}

/// Every valid Lehmer code of `m` digits stands for a number below `m!`.
pub proof fn lemma_lehmer_value_bound(m: nat, idx: Seq<u8>)
    requires
        lehmer_valid(m, idx),
    ensures
        lehmer_value(idx) < factorial(m),
    decreases m,
{
    if m > 0 {
        let tail = idx.skip(1);
        assert(lehmer_valid((m - 1) as nat, tail));
        lemma_lehmer_value_bound((m - 1) as nat, tail);
        assert((idx[0] as nat) * factorial((m - 1) as nat) + lehmer_value(tail) < m * factorial(
            (m - 1) as nat,
        )) by (nonlinear_arith)
            requires
                (idx[0] as int) < m,
                lehmer_value(tail) < factorial((m - 1) as nat),
        ;
    }
}

/// The values `1, 2, ..., m` in order: the pool of not-yet-used values
/// before any element of a permutation of `m` values has been decoded.
/// This naming numbers the permuted values from 1.
pub open spec fn ids(m: nat) -> Seq<u8>
    recommends
        m <= 255,
{
    Seq::new(m, |i: int| (i + 1) as u8)
}

/// The permutation array a Lehmer code stands for, element by element: each
/// digit picks, and removes, one value from the pool of unused values.
pub open spec fn lehmer_decode(pool: Seq<u8>, idx: Seq<u8>) -> Seq<u8>
    recommends
        forall|k: int| 0 <= k < idx.len() ==> (#[trigger] idx[k] as int) < pool.len() - k,
    decreases idx.len(),
{
    if idx.len() == 0 {
        Seq::empty()
    } else {
        seq![pool[idx[0] as int]] + lehmer_decode(pool.remove(idx[0] as int), idx.skip(1))
    }
}

/// The pool of values still unused after decoding the digits of `idx`.
pub open spec fn lehmer_pool(pool: Seq<u8>, idx: Seq<u8>) -> Seq<u8>
    recommends
        forall|k: int| 0 <= k < idx.len() ==> (#[trigger] idx[k] as int) < pool.len() - k,
    decreases idx.len(),
{
    if idx.len() == 0 {
        pool
    } else {
        lehmer_pool(pool.remove(idx[0] as int), idx.skip(1))
    }
}

/// Decoding one more digit picks that position from the current pool.
proof fn lemma_lehmer_snoc(pool: Seq<u8>, idx: Seq<u8>, d: u8)
    requires
        forall|k: int| 0 <= k < idx.len() ==> (#[trigger] idx[k] as int) < pool.len() - k,
        (d as int) < pool.len() - idx.len(),
    ensures
        lehmer_pool(pool, idx).len() == pool.len() - idx.len(),
        lehmer_pool(pool, idx.push(d)) == lehmer_pool(pool, idx).remove(d as int),
        lehmer_decode(pool, idx.push(d)) == lehmer_decode(pool, idx).push(
            lehmer_pool(pool, idx)[d as int],
        ),
    decreases idx.len(),
{
    if idx.len() == 0 {
        assert(idx.push(d)[0] == d);
        assert(idx.push(d).skip(1) =~= Seq::<u8>::empty());
        assert(lehmer_pool(pool, idx.push(d)) == lehmer_pool(pool.remove(d as int), idx.push(
            d,
        ).skip(1)));
        assert(lehmer_decode(pool.remove(d as int), idx.push(d).skip(1)) =~= Seq::<u8>::empty());
        assert(lehmer_decode(pool, idx.push(d)) =~= Seq::<u8>::empty().push(pool[d as int]));
        assert(lehmer_decode(pool, idx) =~= Seq::<u8>::empty());
    } else {
        let d0 = idx[0];
        let rest = idx.skip(1);
        let pool1 = pool.remove(d0 as int);
        assert(idx.push(d)[0] == d0);
        assert(idx.push(d).skip(1) =~= rest.push(d));
        assert(forall|k: int| 0 <= k < rest.len() ==> (#[trigger] rest[k] as int) < pool1.len()
            - k);
        lemma_lehmer_snoc(pool1, rest, d);
        assert(lehmer_pool(pool, idx.push(d)) == lehmer_pool(pool1, rest.push(d)));
        assert(lehmer_decode(pool, idx.push(d)) == seq![pool[d0 as int]] + lehmer_decode(
            pool1,
            rest.push(d),
        ));
        assert(seq![pool[d0 as int]] + lehmer_decode(pool1, rest).push(
            lehmer_pool(pool1, rest)[d as int],
        ) =~= (seq![pool[d0 as int]] + lehmer_decode(pool1, rest)).push(
            lehmer_pool(pool1, rest)[d as int],
        ));
    }
}

/// Removing one position of a duplicate-free sequence removes exactly that
/// value from the values that occur.
proof fn lemma_appears_remove(pool: Seq<u8>, pos: int, u: int)
    requires
        0 <= pos < pool.len(),
        forall|j: int, k: int|
            0 <= j < pool.len() && 0 <= k < pool.len() && j != k ==> pool[j] != pool[k],
    ensures
        appears(pool.remove(pos), u) <==> (appears(pool, u) && u != pool[pos] as int),
{
    pool.remove_ensures(pos);
    if appears(pool.remove(pos), u) {
        let j = choose|j: int| 0 <= j < pool.remove(pos).len() && (pool.remove(pos)[j] as int)
            == u;
        if j < pos {
            assert((pool[j] as int) == u);
        } else {
            assert((pool[j + 1] as int) == u);
        }
    }
    if appears(pool, u) && u != pool[pos] as int {
        let j = choose|j: int| 0 <= j < pool.len() && (pool[j] as int) == u;
        if j < pos {
            assert((pool.remove(pos)[j] as int) == u);
        } else {
            assert((pool.remove(pos)[j - 1] as int) == u);
        }
    }
}

/// All characters of `s` are lower-case letters.
pub open spec fn letters_valid(s: Seq<char>) -> bool {
    forall|i: int| 0 <= i < s.len() ==> 97 <= (#[trigger] s[i] as u32) <= 122
}

/// The number a letter string stands for, base 26, most significant first,
/// `'a'` for 0 through `'z'` for 25.
pub open spec fn letters_value(s: Seq<char>) -> nat
    decreases s.len(),
{
    if s.len() == 0 {
        0
    } else {
        letters_value(s.drop_last()) * 26 + (((s.last() as u32) - 97) as nat)
    }
}

/// `s` is the canonical spelling of its number: nonempty, and without a
/// leading `'a'` unless it is the single letter `"a"`.
pub open spec fn canonical_letters(s: Seq<char>) -> bool {
    s.len() >= 1 && (s.len() > 1 ==> s[0] != 'a')
}

/// The number a letter sequence stands for when read least significant
/// first; the helper shape for building strings digit by digit.
spec fn letters_value_le(s: Seq<char>) -> nat
    decreases s.len(),
{
    if s.len() == 0 {
        0
    } else {
        (((s[0] as u32) - 97) as nat) + letters_value_le(s.skip(1)) * 26
    }
}

/// 26 to the power `t`.
spec fn pow26(t: nat) -> nat
    decreases t,
{
    if t == 0 {
        1
    } else {
        26 * pow26((t - 1) as nat)
    }
}

/// Appending a digit on the least-significant side adds it with the weight
/// of its new position.
proof fn lemma_letters_le_push(s: Seq<char>, c: char)
    ensures
        letters_value_le(s.push(c)) == letters_value_le(s) + (((c as u32) - 97) as nat) * pow26(
            s.len(),
        ),
    decreases s.len(),
{
    assert(letters_value_le(Seq::<char>::empty()) == 0);
    assert(pow26(0) == 1);
    if s.len() == 0 {
        assert(s.push(c).skip(1) =~= Seq::<char>::empty());
        assert(letters_value_le(s.push(c)) == ((c as u32) - 97) as nat);
        assert(letters_value_le(s) == 0);
        assert(letters_value_le(s.push(c)) == letters_value_le(s) + (((c as u32) - 97) as nat)
            * pow26(s.len()));
    } else {
        assert(s.push(c).skip(1) =~= s.skip(1).push(c));
        lemma_letters_le_push(s.skip(1), c);
        assert(pow26(s.len()) == 26 * pow26((s.len() - 1) as nat));
        let d = ((c as u32) - 97) as nat;
        let rest = letters_value_le(s.skip(1));
        let p1 = pow26((s.len() - 1) as nat);
        assert((rest + d * p1) * 26 == rest * 26 + d * (26 * p1)) by (nonlinear_arith);
        assert(letters_value_le(s.push(c)) == (((s[0] as u32) - 97) as nat) + letters_value_le(
            s.skip(1).push(c),
        ) * 26);
        assert(letters_value_le(s.skip(1).push(c)) == rest + d * p1);
        assert(letters_value_le(s) == (((s[0] as u32) - 97) as nat) + rest * 26);
        assert(letters_value_le(s.push(c)) == letters_value_le(s) + (((c as u32) - 97) as nat)
            * pow26(s.len()));
    }
}

/// Relies on String::push: appends exactly one character.
#[verifier::external_body]
fn push_char(s: &mut String, c: char)
    ensures
        final(s)@ == old(s)@.push(c),
{
    s.push(c)
}

impl PermutationInt {
    /// The permutation number of the given machine-word value.
    pub fn from_u64(value: u64, permutation_size: u8) -> (r: PermutationInt)
        ensures
            big_value(r.int) == value as nat,
            r.permutation_size == permutation_size,
    {
        PermutationInt { int: big_from_u64(value), permutation_size }
    }

    /// The number's value as a machine word, where it fits.
    pub fn to_u64(&self) -> (r: Option<u64>)
        ensures
            r is Some <==> big_value(self.int) <= u64::MAX,
            r matches Some(v) ==> (v as nat) == big_value(self.int),
    {
        big_as_u64(&self.int)
    }

    /// Writes the number as its canonical base-26 letter string.
    #[verifier::rlimit(30)]
    pub fn to_permutation_string(&self) -> (r: PermutationString)
        ensures
            letters_valid(r.string@),
            canonical_letters(r.string@),
            letters_value(r.string@) == big_value(self.int),
            r.permutation_size == self.permutation_size,
    {
        let ghost v = big_value(self.int);
        let mut acc = crate::bignum::big_clone(&self.int);
        let mut letters: Vec<char> = Vec::new();
        proof {
            assert(pow26(0) == 1);
            assert(letters_value_le(Seq::<char>::empty()) == 0);
        }
        loop
            invariant_except_break
                big_value(acc) * pow26(letters@.len()) + letters_value_le(letters@) == v,
                letters_valid(letters@),
                letters@.len() >= 1 ==> big_value(acc) >= 1,
            ensures
                letters_value_le(letters@) == v,
                letters_valid(letters@),
                canonical_le(letters@),
            decreases big_value(acc),
        {
            let ghost acc0 = big_value(acc);
            let ghost t = letters@.len();
            proof {
                vstd::arithmetic::div_mod::lemma_mod_bound(acc0 as int, 26);
            }
            let rem = big_rem_u32(&acc, 26);
            let d64 = match big_as_u64(&rem) {
                Some(d) => d,
                None => {
                    proof {
                        assert(false);
                    }
                    0
                },
            };
            let c = (97 + d64 as u8) as char;
            let next = big_div_u32(&acc, 26);
            proof {
                lemma_letters_le_push(letters@, c);
                lemma_fundamental_div_mod(acc0 as int, 26);
                assert((acc0 / 26) * (26 * pow26(t)) + (acc0 % 26) * pow26(t) == acc0 * pow26(t))
                    by (nonlinear_arith)
                    requires
                        acc0 == 26 * (acc0 / 26) + acc0 % 26,
                ;
            }
            letters.push(c);
            let stop = big_is_zero(&next);
            acc = next;
            if stop {
                proof {
                    assert(big_value(acc) * pow26(letters@.len()) + letters_value_le(letters@)
                        == v);
                    if t >= 1 {
                        // A later round: its head value was at least 1, and
                        // since the quotient is zero the head value was the
                        // digit itself, so the top letter is not 'a'.
                        assert(acc0 / 26 == 0 && acc0 >= 1);
                        assert(acc0 % 26 == acc0) by {
                            lemma_fundamental_div_mod(acc0 as int, 26);
                        }
                        assert(letters@.last() == c && (c as u32) != 97);
                    }
                }
                break;
            }
            proof {
                vstd::arithmetic::div_mod::lemma_div_is_strictly_smaller(acc0 as int, 26);
            }
        }
        let count = letters.len();
        let mut s = String::new();
        let mut j = count;
        while j > 0
            invariant
                j <= count,
                count == letters@.len(),
                letters_valid(letters@),
                canonical_le(letters@),
                s@.len() == count - j,
                letters_value(s@) == letters_value_le(letters@.subrange(j as int, count as int)),
                forall|t: int| 0 <= t < s@.len() ==> s@[t] == letters@[count - 1 - t],
            decreases j,
        {
            j = j - 1;
            let c = letters[j];
            let ghost s0 = s@;
            push_char(&mut s, c);
            proof {
                let sub1 = letters@.subrange(j as int, count as int);
                let sub0 = letters@.subrange(j + 1, count as int);
                assert(sub1[0] == letters@[j as int]);
                assert(sub1.skip(1) =~= sub0);
                assert(letters_value_le(sub1) == (((letters@[j as int] as u32) - 97) as nat)
                    + letters_value_le(sub0) * 26);
                lemma_letters_value_snoc(s0, letters@[j as int], sub0, sub1);
            }
        }
        proof {
            assert(letters@.subrange(0, count as int) =~= letters@);
        }
        PermutationString { string: s, permutation_size: self.permutation_size }
    }
}

/// Every factorial is positive.
proof fn lemma_factorial_pos(m: nat)
    ensures
        factorial(m) >= 1,
    decreases m,
{
    if m > 0 {
        lemma_factorial_pos((m - 1) as nat);
        assert(m * factorial((m - 1) as nat) >= 1) by (nonlinear_arith)
            requires
                m >= 1,
                factorial((m - 1) as nat) >= 1,
        ;
    }
}

impl PermutationIndex {
    /// Reads the Lehmer code as its number in the factorial number system.
    /// Fails on a code longer than a permutation naming can carry, or with a
    /// digit too large for its position.
    #[verifier::rlimit(30)]
    pub fn to_int(&self) -> (r: Result<PermutationInt, ConversionError>)
        ensures
            r is Ok <==> self.0@.len() <= 255 && lehmer_valid(self.0@.len(), self.0@),
            r matches Ok(pi) ==> big_value(pi.int) == lehmer_value(self.0@)
                && pi.permutation_size as nat == self.0@.len(),
            self.0@.len() > 255 ==> r == Err::<PermutationInt, ConversionError>(
                ConversionError::TooLong,
            ),
            self.0@.len() <= 255 && !lehmer_valid(self.0@.len(), self.0@) ==> r == Err::<
                PermutationInt,
                ConversionError,
            >(ConversionError::NotPermutationIndex),
    {
        let m = self.0.len();
        if m > 255 {
            return Err(ConversionError::TooLong);
        }
        let ghost idx = self.0@;
        let mut acc = big_from_u64(0);
        proof {
            assert(idx.skip(0) =~= idx);
        }
        #[verifier::loop_isolation(false)]
        for i in 0..m
            invariant
                big_value(acc) * factorial((m - i) as nat) + lehmer_value(idx.skip(i as int))
                    == lehmer_value(idx),
                forall|k: int| 0 <= k < i ==> (#[trigger] idx[k] as int) < m - k,
        {
            let d = self.0[i];
            if d as usize >= m - i {
                return Err(ConversionError::NotPermutationIndex);
            }
            let ghost acc0 = big_value(acc);
            let stepped = big_mul_u32(&acc, (m - i) as u32);
            acc = big_add_u32(&stepped, d as u32);
            proof {
                let tail = idx.skip(i as int);
                assert(tail[0] == d && tail.len() == m - i);
                assert(tail.skip(1) =~= idx.skip(i + 1));
                let f1 = factorial((m - i - 1) as nat);
                assert(factorial((m - i) as nat) == (m - i) * f1);
                assert(lehmer_value(tail) == (d as nat) * f1 + lehmer_value(idx.skip(i + 1)));
                assert((acc0 * ((m - i) as nat) + d as nat) * f1 == acc0 * (((m - i) as nat) * f1)
                    + (d as nat) * f1) by (nonlinear_arith);
            }
        }
        proof {
            assert(idx.skip(m as int) =~= Seq::<u8>::empty());
            assert(lehmer_value(Seq::<u8>::empty()) == 0);
            assert(factorial(0) == 1);
            assert(big_value(acc) * factorial((m - m) as nat) == big_value(acc))
                by (nonlinear_arith)
                requires
                    factorial((m - m) as nat) == 1,
            ;
            assert(big_value(acc) == lehmer_value(idx));
        }
        Ok(PermutationInt { int: acc, permutation_size: m as u8 })
    }
}

impl PermutationInt {
    /// Writes the number as the Lehmer code of a permutation of
    /// `permutation_size` elements, by repeated division in the factorial
    /// number system. Fails exactly when the number is too large to name a
    /// permutation of that many elements.
    #[verifier::rlimit(30)]
    #[verifier::rlimit(30)]
    pub fn to_index(&self) -> (r: Result<PermutationIndex, ConversionError>)
        ensures
            r is Ok <==> big_value(self.int) < factorial(self.permutation_size as nat),
            r matches Ok(idx) ==> lehmer_valid(self.permutation_size as nat, idx.0@)
                && lehmer_value(idx.0@) == big_value(self.int),
            big_value(self.int) >= factorial(self.permutation_size as nat) ==> r == Err::<
                PermutationIndex,
                ConversionError,
            >(ConversionError::IntTooLarge),
    {
        let m = self.permutation_size as usize;
        let ghost v = big_value(self.int);
        let mut out: Vec<u8> = Vec::new();
        for i in 0..m
            invariant
                out@.len() == i,
                forall|t: int| 0 <= t < i ==> out@[t] == 0,
        {
            out.push(0);
        }
        let mut acc = crate::bignum::big_clone(&self.int);
        proof {
            assert(out@.skip(m as int) =~= Seq::<u8>::empty());
            assert(lehmer_value(Seq::<u8>::empty()) == 0);
            assert(factorial(0) == 1);
            assert(big_value(acc) == v);
            assert(big_value(acc) * factorial(0) == v) by (nonlinear_arith)
                requires
                    big_value(acc) == v,
                    factorial(0) == 1,
            ;
            assert(big_value(acc) * factorial(0) + lehmer_value(out@.skip((m - 0) as int)) == v);
        }
        #[verifier::loop_isolation(false)]
        for k in 0..m
            invariant
                out@.len() == m,
                big_value(acc) * factorial(k as nat) + lehmer_value(out@.skip((m - k) as int))
                    == v,
                forall|t: int| m - k <= t < m ==> (#[trigger] out@[t] as int) < m - t,
        {
            let ghost acc0 = big_value(acc);
            let ghost out0 = out@;
            let divisor = (k + 1) as u32;
            proof {
                vstd::arithmetic::div_mod::lemma_mod_bound(acc0 as int, k + 1);
            }
            let rem = big_rem_u32(&acc, divisor);
            let d64 = match big_as_u64(&rem) {
                Some(d) => d,
                None => {
                    proof {
                        assert(false);
                    }
                    0
                },
            };
            let d = d64 as u8;
            out[m - 1 - k] = d;
            acc = big_div_u32(&acc, divisor);
            proof {
                let pos = (m - 1 - k) as int;
                assert(out@.skip((m - k) as int) =~= out0.skip((m - k) as int));
                let tail = out@.skip(pos);
                assert(tail[0] == d && tail.len() == k + 1);
                assert(tail.skip(1) =~= out@.skip((m - k) as int));
                let fk = factorial(k as nat);
                assert(factorial((k + 1) as nat) == (k + 1) * fk);
                assert(lehmer_value(tail) == (d as nat) * fk + lehmer_value(
                    out@.skip((m - k) as int),
                ));
                lemma_fundamental_div_mod(acc0 as int, k + 1);
                assert((acc0 / ((k + 1) as nat)) * (((k + 1) as nat) * fk) + (acc0 % (
                (k + 1) as nat)) * fk == acc0 * fk) by (nonlinear_arith)
                    requires
                        acc0 == ((k + 1) as nat) * (acc0 / ((k + 1) as nat)) + acc0 % (
                        (k + 1) as nat),
                ;
            }
        }
        proof {
            assert(out@.skip(0) =~= out@);
        }
        if big_is_zero(&acc) {
            proof {
                assert(big_value(acc) == 0);
                assert(big_value(acc) * factorial(m as nat) == 0) by (nonlinear_arith)
                    requires
                        big_value(acc) == 0,
                ;
                assert(lehmer_value(out@.skip(0)) == v);
                assert(lehmer_value(out@) == v);
                assert(out@.len() == m);
                assert(forall|t: int| 0 <= t < m ==> (#[trigger] out@[t] as int) < m - t);
                assert(lehmer_valid(self.permutation_size as nat, out@));
                lemma_lehmer_value_bound(m as nat, out@);
                assert(v < factorial(self.permutation_size as nat));
            }
            Ok(PermutationIndex(out))
        } else {
            proof {
                lemma_factorial_pos(m as nat);
                assert(big_value(acc) * factorial(m as nat) >= factorial(m as nat))
                    by (nonlinear_arith)
                    requires
                        big_value(acc) >= 1,
                        factorial(m as nat) >= 0,
                ;
                assert(v >= factorial(self.permutation_size as nat));
            }
            Err(ConversionError::IntTooLarge)
        }
    }
}

impl PermutationIndex {
    /// Decodes the Lehmer code into the permutation array it stands for:
    /// each digit picks the next element among the not-yet-used values.
    /// Fails on a code longer than a permutation naming can carry, or with
    /// a digit too large for its position.
    #[verifier::rlimit(30)]
    pub fn to_array(&self) -> (r: Result<PermutationArray, ConversionError>)
        ensures
            r is Ok <==> self.0@.len() <= 255 && lehmer_valid(self.0@.len(), self.0@),
            r matches Ok(arr) ==> block_vals(arr.0@) == lehmer_decode(
                ids(self.0@.len()),
                self.0@,
            ),
            self.0@.len() > 255 ==> r == Err::<PermutationArray, ConversionError>(
                ConversionError::TooLong,
            ),
            self.0@.len() <= 255 && !lehmer_valid(self.0@.len(), self.0@) ==> r == Err::<
                PermutationArray,
                ConversionError,
            >(ConversionError::NotPermutationIndex),
    {
        let m = self.0.len();
        if m > 255 {
            return Err(ConversionError::TooLong);
        }
        let ghost idx = self.0@;
        let mut pool: Vec<u8> = Vec::new();
        for i in 0..m
            invariant
                m <= 255,
                pool@.len() == i,
                forall|t: int| 0 <= t < i ==> (#[trigger] pool@[t] as int) == t + 1,
        {
            pool.push((i + 1) as u8);
        }
        proof {
            assert(pool@ =~= ids(m as nat));
            assert(idx.subrange(0, 0) =~= Seq::<u8>::empty());
            assert(block_vals(Seq::<BlockInt>::empty()) =~= Seq::<u8>::empty());
            assert(lehmer_decode(ids(m as nat), Seq::<u8>::empty()) =~= Seq::<u8>::empty());
        }
        let mut out: Vec<BlockInt> = Vec::new();
        #[verifier::loop_isolation(false)]
        for i in 0..m
            invariant
                out@.len() == i,
                pool@.len() == m - i,
                pool@ == lehmer_pool(ids(m as nat), idx.subrange(0, i as int)),
                block_vals(out@) == lehmer_decode(ids(m as nat), idx.subrange(0, i as int)),
                forall|k: int| 0 <= k < i ==> (#[trigger] idx[k] as int) < m - k,
        {
            let d = self.0[i];
            if d as usize >= pool.len() {
                return Err(ConversionError::NotPermutationIndex);
            }
            let ghost pre = idx.subrange(0, i as int);
            let val = pool.remove(d as usize);
            out.push(BlockInt(val));
            proof {
                lemma_lehmer_snoc(ids(m as nat), pre, d);
                assert(idx.subrange(0, i + 1) =~= pre.push(d));
                assert(block_vals(out@) =~= block_vals(out@.drop_last()).push(val));
            }
        }
        proof {
            assert(idx.subrange(0, m as int) =~= idx);
        }
        Ok(PermutationArray(out))
    }
}

impl PermutationArray {
    /// Encodes the permutation array as its Lehmer code: digit `i` is the
    /// position of element `i` among the values that earlier elements have
    /// not used. Fails on an array longer than a permutation naming can
    /// carry, and on any array that is not a permutation array, that is,
    /// one with an entry out of range or a repeated entry.
    #[verifier::rlimit(30)]
    pub fn to_index(&self) -> (r: Result<PermutationIndex, ConversionError>)
        ensures
            r is Ok <==> self.0@.len() <= 255 && (forall|i: int|
                0 <= i < self.0@.len() ==> 1 <= (#[trigger] block_vals(self.0@)[i] as int)
                    <= self.0@.len()) && (forall|i: int, j: int|
                0 <= i < self.0@.len() && 0 <= j < self.0@.len() && i != j ==> block_vals(
                    self.0@,
                )[i] != block_vals(self.0@)[j]),
            r matches Ok(idx) ==> lehmer_valid(self.0@.len(), idx.0@) && lehmer_decode(
                ids(self.0@.len()),
                idx.0@,
            ) == block_vals(self.0@),
            self.0@.len() > 255 ==> r == Err::<PermutationIndex, ConversionError>(
                ConversionError::TooLong,
            ),
    {
        let m = self.0.len();
        if m > 255 {
            return Err(ConversionError::TooLong);
        }
        let ghost s = block_vals(self.0@);
        let mut pool: Vec<u8> = Vec::new();
        for i in 0..m
            invariant
                m <= 255,
                pool@.len() == i,
                forall|t: int| 0 <= t < i ==> (#[trigger] pool@[t] as int) == t + 1,
        {
            pool.push((i + 1) as u8);
        }
        proof {
            assert(pool@ =~= ids(m as nat));
            assert(s.subrange(0, 0) =~= Seq::<u8>::empty());
            assert(lehmer_decode(ids(m as nat), Seq::<u8>::empty()) =~= Seq::<u8>::empty());
            assert forall|u: int| appears(pool@, u) implies 1 <= u <= m by {
                let j = choose|j: int| 0 <= j < pool@.len() && (pool@[j] as int) == u;
            }
            assert forall|u: int| 1 <= u <= m implies appears(pool@, u) by {
                assert((pool@[u - 1] as int) == u);
            }
        }
        let mut res: Vec<u8> = Vec::new();
        #[verifier::loop_isolation(false)]
        for i in 0..m
            invariant
                res@.len() == i,
                pool@.len() == m - i,
                pool@ == lehmer_pool(ids(m as nat), res@),
                lehmer_decode(ids(m as nat), res@) == s.subrange(0, i as int),
                forall|k: int| 0 <= k < i ==> (#[trigger] res@[k] as int) < m - k,
                forall|j: int, k: int|
                    0 <= j < pool@.len() && 0 <= k < pool@.len() && j != k ==> pool@[j]
                        != pool@[k],
                forall|u: int|
                    #[trigger] appears(pool@, u) <==> (1 <= u <= m && !appears(
                        s.subrange(0, i as int),
                        u,
                    )),
                forall|k: int| 0 <= k < i ==> 1 <= (#[trigger] s[k] as int) <= m,
                forall|j: int, k: int| 0 <= j < i && 0 <= k < i && j != k ==> s[j] != s[k],
        {
            let v = self.0[i].0;
            let mut pos: usize = 0;
            let mut found = false;
            while pos < pool.len() && !found
                invariant
                    pos <= pool@.len(),
                    !found ==> forall|t: int| 0 <= t < pos ==> pool@[t] != v,
                    found ==> pos < pool@.len() && pool@[pos as int] == v,
                decreases pool@.len() - pos, (if found { 0int } else { 1int }),
            {
                if pool[pos] == v {
                    found = true;
                } else {
                    pos = pos + 1;
                }
            }
            if !found {
                proof {
                    assert(!appears(pool@, v as int)) by {
                        if appears(pool@, v as int) {
                            let j = choose|j: int|
                                0 <= j < pool@.len() && (pool@[j] as int) == v as int;
                        }
                    }
                    // The element is either out of range or a repeat.
                    if 1 <= (v as int) && (v as int) <= m {
                        assert(appears(s.subrange(0, i as int), v as int));
                        let j = choose|j: int|
                            0 <= j < i && ((#[trigger] s.subrange(0, i as int)[j]) as int)
                                == v as int;
                        assert(s[j] == s[i as int] && j != i);
                    } else {
                        assert(!(1 <= (s[i as int] as int) <= m));
                    }
                }
                return Err(ConversionError::NotPermutationArray);
            }
            let ghost pre = res@;
            let ghost pool0 = pool@;
            let _ = pool.remove(pos);
            res.push(pos as u8);
            proof {
                lemma_lehmer_snoc(ids(m as nat), pre, pos as u8);
                assert(s.subrange(0, i + 1) =~= s.subrange(0, i as int).push(s[i as int]));
                assert(pool0[pos as int] == s[i as int]);
                assert(lehmer_decode(ids(m as nat), res@) =~= s.subrange(0, i + 1));
                // The value occurred, so it is in range and fresh.
                assert(appears(pool0, v as int)) by {
                    assert((pool0[pos as int] as int) == v as int);
                }
                assert(1 <= (s[i as int] as int) <= m && !appears(
                    s.subrange(0, i as int),
                    v as int,
                ));
                assert forall|j: int| 0 <= j < i implies s[j] != s[i as int] by {
                    if s[j] == s[i as int] {
                        assert((s.subrange(0, i as int)[j] as int) == v as int);
                        assert(appears(s.subrange(0, i as int), v as int));
                    }
                }
                // Occurrence in the pool after the removal.
                assert forall|u: int| #[trigger] appears(pool@, u) implies (1 <= u <= m
                    && !appears(s.subrange(0, i + 1), u)) by {
                    lemma_appears_remove(pool0, pos as int, u);
                    assert(!appears(s.subrange(0, i as int), u));
                    if appears(s.subrange(0, i + 1), u) {
                        let j = choose|j: int|
                            0 <= j < i + 1 && ((#[trigger] s.subrange(0, i + 1)[j]) as int) == u;
                        assert(j == i);
                    }
                }
                assert forall|u: int| (1 <= u <= m && !appears(s.subrange(0, i + 1), u)) implies
                    #[trigger] appears(pool@, u) by {
                    assert(!appears(s.subrange(0, i as int), u)) by {
                        if appears(s.subrange(0, i as int), u) {
                            let j = choose|j: int|
                                0 <= j < i && ((#[trigger] s.subrange(0, i as int)[j]) as int)
                                    == u;
                            assert((s.subrange(0, i + 1)[j] as int) == u);
                        }
                    }
                    assert(u != v as int) by {
                        assert((s.subrange(0, i + 1)[i as int] as int) == v as int);
                    }
                    lemma_appears_remove(pool0, pos as int, u);
                }
                // The shrunken pool stays duplicate free.
                pool0.remove_ensures(pos as int);
                assert forall|j: int, k: int|
                    0 <= j < pool@.len() && 0 <= k < pool@.len() && j != k implies pool@[j]
                    != pool@[k] by {
                    let j0 = if j < pos as int { j } else { j + 1 };
                    let k0 = if k < pos as int { k } else { k + 1 };
                    assert(pool@[j] == pool0[j0] && pool@[k] == pool0[k0]);
                }
            }
        }
        proof {
            assert(s.subrange(0, m as int) =~= s);
        }
        Ok(PermutationIndex(res))
    }
}

impl PermutationString {
    /// Reads the base-26 letter string back as a number. Fails exactly when
    /// the string is empty or holds a character outside `'a'..='z'`.
    #[verifier::rlimit(30)]
    pub fn to_int(&self) -> (r: Result<PermutationInt, ConversionError>)
        ensures
            r is Ok <==> self.string@.len() >= 1 && letters_valid(self.string@),
            r matches Ok(pi) ==> big_value(pi.int) == letters_value(self.string@)
                && pi.permutation_size == self.permutation_size,
            !(self.string@.len() >= 1 && letters_valid(self.string@)) ==> r == Err::<
                PermutationInt,
                ConversionError,
            >(ConversionError::NotLetters),
    {
        let s = self.string.as_str();
        let len = s.unicode_len();
        if len == 0 {
            return Err(ConversionError::NotLetters);
        }
        let mut acc = big_from_u64(0);
        proof {
            assert(self.string@.subrange(0, 0) =~= Seq::<char>::empty());
            assert(letters_value(Seq::<char>::empty()) == 0);
        }
        #[verifier::loop_isolation(false)]
        for i in 0..len
            invariant
                big_value(acc) == letters_value(self.string@.subrange(0, i as int)),
                forall|k: int|
                    0 <= k < i ==> 97 <= (#[trigger] self.string@[k] as u32) <= 122,
        {
            let c = s.get_char(i);
            let cu = c as u32;
            if cu < 97 || cu > 122 {
                return Err(ConversionError::NotLetters);
            }
            let stepped = big_mul_u32(&acc, 26);
            acc = big_add_u32(&stepped, cu - 97);
            proof {
                let sub1 = self.string@.subrange(0, i + 1);
                assert(sub1.drop_last() =~= self.string@.subrange(0, i as int));
                assert(sub1.last() == self.string@[i as int]);
            }
        }
        proof {
            assert(self.string@.subrange(0, len as int) =~= self.string@);
        }
        Ok(PermutationInt { int: acc, permutation_size: self.permutation_size })
    }
}

/// The collected digits spell a canonical string once reversed: the most
/// significant digit, collected last, is not `'a'` unless it is alone.
spec fn canonical_le(s: Seq<char>) -> bool {
    s.len() >= 1 && (s.len() > 1 ==> s.last() != 'a')
}

/// Prepending the next less significant letter to a most-significant-first
/// string multiplies its value by the base and adds the letter.
proof fn lemma_letters_value_snoc(s: Seq<char>, c: char, sub0: Seq<char>, sub1: Seq<char>)
    requires
        letters_value(s) == letters_value_le(sub0),
        letters_value_le(sub1) == (((c as u32) - 97) as nat) + letters_value_le(sub0) * 26,
    ensures
        letters_value(s.push(c)) == letters_value_le(sub1),
{
    assert(s.push(c).drop_last() =~= s);
    assert(s.push(c).last() == c);
}

} // verus!
