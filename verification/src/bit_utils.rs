//! Bit decomposition and recomposition of circuit variables, and casts
//! between field-element variables and booleans or machine integers.

use vstd::prelude::*;
use vstd::arithmetic::div_mod::*;
use vstd::arithmetic::power2::*;
use crate::cs::{ConstraintSystem, FieldVar, BoolVar, Term, SynthesisError, terms_sum,
    lemma_extends_trans, lemma_eval_prefix};
use crate::modular::{is_prime, lemma_prime_zero_product, lemma_sub_mod_eq_zero};

verus! {

/// `sum of s[k] * 2^k` over plain bit values, unreduced.
pub open spec fn bit_weighted_sum(s: Seq<int>) -> int
    decreases s.len(),
{
    if s.len() == 0 {
        0
    } else {
        bit_weighted_sum(s.drop_last()) + pow2((s.len() - 1) as nat) * s.last()
    }
}

/// A weighted sum of bits lies below `2^n`.
proof fn lemma_bit_weighted_sum_bound(s: Seq<int>)
    requires
        forall|i: int| 0 <= i < s.len() ==> 0 <= #[trigger] s[i] <= 1,
    ensures
        0 <= bit_weighted_sum(s) < pow2(s.len()),
    decreases s.len(),
{
    let n = s.len();
    if n == 0 {
        lemma2_to64();
    } else {
        lemma_bit_weighted_sum_bound(s.drop_last());
        lemma_pow2_pos((n - 1) as nat);
        vstd::arithmetic::mul::lemma_mul_basics(pow2((n - 1) as nat) as int);
        assert(pow2((n - 1) as nat) as int * s.last() <= pow2((n - 1) as nat)) by {
            if s.last() == 0 {
                vstd::arithmetic::mul::lemma_mul_basics(pow2((n - 1) as nat) as int);
            }
        }
        assert(0 <= pow2((n - 1) as nat) as int * s.last()) by {
            vstd::arithmetic::mul::lemma_mul_basics(pow2((n - 1) as nat) as int);
        }
        lemma_pow2_unfold(n);
    }
}

/// Range-check soundness: booleanity of every bit variable together with
/// the recomposition equality forces the recomposed value below `2^n`,
/// whichever witnesses a prover chose for the bits.
pub proof fn lemma_bit_constraints_force_range(p: int, v: int, bvals: Seq<int>)
    requires
        is_prime(p),
        pow2(bvals.len()) <= p,
        0 <= v < p,
        forall|i: int| 0 <= i < bvals.len() ==> 0 <= #[trigger] bvals[i] < p,
        forall|i: int|
            0 <= i < bvals.len() ==> (#[trigger] bvals[i] * ((bvals[i] - 1) % p)) % p == 0,
        bit_weighted_sum(bvals) % p == v,
    ensures
        v < pow2(bvals.len()),
        v == bit_weighted_sum(bvals),
        forall|i: int| 0 <= i < bvals.len() ==> 0 <= #[trigger] bvals[i] <= 1,
{
    assert forall|i: int| 0 <= i < bvals.len() implies 0 <= #[trigger] bvals[i] <= 1 by {
        lemma_mod_division_less_than_divisor(bvals[i] - 1, p);
        lemma_prime_zero_product(p, bvals[i], (bvals[i] - 1) % p);
        if (bvals[i] - 1) % p == 0 {
            lemma_sub_mod_eq_zero(bvals[i], 1, p);
        }
    }
    lemma_bit_weighted_sum_bound(bvals);
    lemma_small_mod(bit_weighted_sum(bvals) as nat, p as nat);
}

/// Bit `i` of the non-negative integer `v`, little-endian.
pub open spec fn bit_of(v: int, i: nat) -> int {
    (v / pow2(i) as int) % 2
}

/// `sum of w[bs[k].var] * 2^k` over the bit variables `bs`, unreduced.
pub open spec fn weighted_sum(bs: Seq<BoolVar>, w: Seq<u128>) -> int
    decreases bs.len(),
{
    if bs.len() == 0 {
        0
    } else {
        weighted_sum(bs.drop_last(), w) + pow2((bs.len() - 1) as nat) * w[bs.last().var as int]
    }
}

/// Recomposing the little-endian bits of `v` yields `v` modulo `2^n`.
pub proof fn lemma_bits_recompose(bs: Seq<BoolVar>, w: Seq<u128>, v: int)
    requires
        v >= 0,
        forall|k: int| 0 <= k < bs.len() ==> (#[trigger] bs[k]).bval(w) == bit_of(v, k as nat),
    ensures
        weighted_sum(bs, w) == v % (pow2(bs.len()) as int),
    decreases bs.len(),
{
    let n = bs.len();
    if n == 0 {
        lemma2_to64();
        lemma_mod_division_less_than_divisor(v, 1);
    } else {
        assert forall|k: int|
            0 <= k < n - 1 implies (#[trigger] bs.drop_last()[k]).bval(w) == bit_of(
            v,
            k as nat,
        ) by {
            assert(bs.drop_last()[k] == bs[k]);
        }
        lemma_bits_recompose(bs.drop_last(), w, v);
        lemma_pow2_pos((n - 1) as nat);
        let y = pow2((n - 1) as nat) as int;
        assert(bs[n - 1 as int].bval(w) == bit_of(v, (n - 1) as nat));
        assert(weighted_sum(bs, w) == v % y + y * ((v / y) % 2));
        lemma_breakdown(v, y, 2);
        assert(v % (y * 2) == y * ((v / y) % 2) + v % y);
        lemma_pow2_unfold(n);
        assert(y * 2 == pow2(n) as int);
    }
}

/// A term sequence whose `k`-th coefficient is `2^k mod p` sums, modulo
/// `p`, to the weighted sum of the matching bit variables.
proof fn lemma_weighted_terms(ts: Seq<Term>, bs: Seq<BoolVar>, w: Seq<u128>, p: u128)
    requires
        p > 0,
        ts.len() == bs.len(),
        forall|k: int|
            0 <= k < ts.len() ==> (#[trigger] ts[k]).var == bs[k].var && ts[k].coeff == pow2(
                k as nat,
            ) as int % (p as int),
    ensures
        terms_sum(ts, w) % (p as int) == weighted_sum(bs, w) % (p as int),
    decreases ts.len(),
{
    let n = ts.len();
    if n == 0 {
    } else {
        lemma_weighted_terms(ts.drop_last(), bs.drop_last(), w, p);
        let s0 = terms_sum(ts.drop_last(), w);
        let w0 = weighted_sum(bs.drop_last(), w);
        let c = ts.last().coeff as int;
        let v = w[ts.last().var as int] as int;
        assert(ts.last().var == bs.last().var);
        assert(terms_sum(ts, w) == s0 + c * v);
        assert(weighted_sum(bs, w) == w0 + pow2((n - 1) as nat) as int * v);
        lemma_add_mod_noop(s0, c * v, p as int);
        lemma_mul_mod_noop_left(pow2((n - 1) as nat) as int, v, p as int);
        assert((c * v) % (p as int) == (pow2((n - 1) as nat) as int * v) % (p as int));
        lemma_add_mod_noop(w0, pow2((n - 1) as nat) as int * v, p as int);
    }
}

/// Allocate `bits` boolean witnesses holding the little-endian bits of
/// `value`. No constraint ties the bits back to `value`; compose with
/// `from_bits` and an equality for that guarantee.
pub fn to_bits(cs: &mut ConstraintSystem, value: &FieldVar, bits: usize) -> (r: Result<
    Vec<BoolVar>,
    SynthesisError,
>)
    requires
        old(cs).wf(),
        value.wf(old(cs).modulus, old(cs).assignment@.len() as nat),
    ensures
        final(cs).wf(),
        final(cs).extends(*old(cs)),
        final(cs).num_instance == old(cs).num_instance,
        final(cs).satisfied() <==> old(cs).satisfied(),
        !old(cs).witness_mode ==> r == Result::<Vec<BoolVar>, SynthesisError>::Err(
            SynthesisError::AssignmentMissing,
        ) && *final(cs) == *old(cs),
        old(cs).witness_mode ==> (r matches Ok(bs) && bs@.len() == bits && forall|k: int|
            0 <= k < bits ==> (#[trigger] bs@[k]).wf(final(cs).assignment@.len() as nat)
                && bs@[k].bval(final(cs).assignment@) == bit_of(
                value.eval(old(cs).assignment@, old(cs).modulus),
                k as nat,
            )),
{
    if !cs.witness_mode {
        return Err(SynthesisError::AssignmentMissing);
    }
    let ghost orig = *cs;
    let ghost p = cs.modulus;
    let v = cs.eval_lc(value);
    let mut bs: Vec<BoolVar> = Vec::new();
    let mut cur: u128 = v;
    let mut i: usize = 0;
    proof {
        lemma2_to64();
        assert(pow2(0) == 1);
        lemma_div_basics(v as int);
    }
    while i < bits
        invariant
            cs.wf(),
            cs.extends(orig),
            cs.witness_mode,
            p == cs.modulus,
            cs.num_instance == orig.num_instance,
            cs.satisfied() <==> orig.satisfied(),
            i <= bits,
            bs@.len() == i,
            cur == v as int / pow2(i as nat) as int,
            v == value.eval(orig.assignment@, p),
            forall|k: int|
                0 <= k < i ==> (#[trigger] bs@[k]).wf(cs.assignment@.len() as nat)
                    && bs@[k].bval(cs.assignment@) == bit_of(v as int, k as nat),
        decreases bits - i,
    {
        let ghost prev = *cs;
        let bit: bool = cur % 2 == 1;
        let b = match cs.new_bool_witness(bit) {
            Ok(b) => b,
            Err(e) => {
                proof {
                    assert(false);
                }
                return Err(e);
            },
        };
        proof {
            lemma_extends_trans(orig, prev, *cs);
            assert(prev.assignment@ =~= cs.assignment@.subrange(
                0,
                prev.assignment@.len() as int,
            ));
            assert forall|k: int|
                0 <= k < i implies (#[trigger] bs@[k]).wf(cs.assignment@.len() as nat)
                && bs@[k].bval(cs.assignment@) == bit_of(v as int, k as nat) by {
                assert(bs@[k].var < prev.assignment@.len());
                assert(cs.assignment@[bs@[k].var as int] == prev.assignment@[bs@[k].var as int]);
            }
            assert(b.bval(cs.assignment@) == (if bit {
                1int
            } else {
                0int
            }));
            assert((cur as int) % 2 == (if bit {
                1int
            } else {
                0int
            }));
            assert(b.bval(cs.assignment@) == bit_of(v as int, i as nat));
        }
        bs.push(b);
        let ghost old_cur = cur as int;
        cur = cur / 2;
        proof {
            lemma_pow2_pos(i as nat);
            lemma_div_denominator(v as int, pow2(i as nat) as int, 2);
            lemma_pow2_unfold((i + 1) as nat);
            assert(pow2(i as nat) as int * 2 == pow2((i + 1) as nat) as int);
            assert(cur == v as int / pow2((i + 1) as nat) as int);
        }
        i = i + 1;
    }
    Ok(bs)
}

/// The linear combination `sum of bits[k] * 2^k`: a value rebuilt from
/// little-endian bits by unconstrained arithmetic alone.
pub fn from_bits(cs: &ConstraintSystem, bits: &Vec<BoolVar>) -> (r: Result<
    FieldVar,
    SynthesisError,
>)
    requires
        cs.wf(),
        forall|k: int| 0 <= k < bits@.len() ==> (#[trigger] bits@[k]).wf(
            cs.assignment@.len() as nat,
        ),
    ensures
        r matches Ok(f) && f.wf(cs.modulus, cs.assignment@.len() as nat) && forall|w: Seq<u128>|
            (#[trigger] f.eval(w, cs.modulus)) == weighted_sum(bits@, w) % (cs.modulus as int),
{
    let ghost p = cs.modulus;
    let mut ts: Vec<Term> = Vec::new();
    let mut pw: u128 = 1;
    let mut i: usize = 0;
    proof {
        lemma2_to64();
        assert(pow2(0) == 1);
        lemma_small_mod(1, p as nat);
    }
    while i < bits.len()
        invariant
            cs.wf(),
            p == cs.modulus,
            forall|k: int| 0 <= k < bits@.len() ==> (#[trigger] bits@[k]).wf(
                cs.assignment@.len() as nat,
            ),
            i <= bits@.len(),
            ts@.len() == i,
            pw < p,
            pw == pow2(i as nat) as int % (p as int),
            forall|k: int|
                0 <= k < i ==> (#[trigger] ts@[k]).var == bits@[k].var && ts@[k].coeff == pow2(
                    k as nat,
                ) as int % (p as int),
        decreases bits@.len() - i,
    {
        ts.push(Term { coeff: pw, var: bits[i].var });
        let ghost old_pw = pw as int;
        pw = crate::modular::add_mod(pw, pw, cs.modulus);
        proof {
            lemma_add_mod_noop(pow2(i as nat) as int, pow2(i as nat) as int, p as int);
            lemma_pow2_unfold((i + 1) as nat);
            assert(pow2(i as nat) as int + pow2(i as nat) as int == pow2((i + 1) as nat) as int);
            assert(pw == pow2((i + 1) as nat) as int % (p as int));
        }
        i = i + 1;
    }
    let f = FieldVar { terms: ts, constant: 0 };
    proof {
        assert forall|w: Seq<u128>|
            (#[trigger] f.eval(w, p)) == weighted_sum(bits@, w) % (p as int) by {
            lemma_weighted_terms(f.terms@, bits@, w, p);
        }
    }
    Ok(f)
}

/// Cast a field-element variable to a boolean variable, enforcing that the
/// value is 0 or 1.
pub fn cast_to_boolean(cs: &mut ConstraintSystem, value: &FieldVar) -> (r: Result<
    BoolVar,
    SynthesisError,
>)
    requires
        old(cs).wf(),
        value.wf(old(cs).modulus, old(cs).assignment@.len() as nat),
    ensures
        final(cs).wf(),
        final(cs).extends(*old(cs)),
        final(cs).num_instance == old(cs).num_instance,
        !old(cs).witness_mode ==> r == Result::<BoolVar, SynthesisError>::Err(
            SynthesisError::AssignmentMissing,
        ) && *final(cs) == *old(cs),
        old(cs).witness_mode ==> (r matches Ok(b) && b.wf(final(cs).assignment@.len() as nat)
            && b.bval(final(cs).assignment@) == (if value.eval(
            old(cs).assignment@,
            old(cs).modulus,
        ) == 1 {
            1int
        } else {
            0int
        }) && (final(cs).satisfied() <==> old(cs).satisfied() && (value.eval(
            old(cs).assignment@,
            old(cs).modulus,
        ) == 0 || value.eval(old(cs).assignment@, old(cs).modulus) == 1))),
{
    if !cs.witness_mode {
        return Err(SynthesisError::AssignmentMissing);
    }
    let ghost orig = *cs;
    let ghost p = cs.modulus;
    let v = cs.eval_lc(value);
    let b = match cs.new_bool_witness(v == 1) {
        Ok(b) => b,
        Err(e) => {
            proof {
                assert(false);
            }
            return Err(e);
        },
    };
    let ghost mid = *cs;
    let bf = cs.from_bool(&b);
    let res = cs.enforce_equal(&bf, value);
    proof {
        let w1 = mid.assignment@;
        lemma_extends_trans(orig, mid, *cs);
        assert(bf.eval(w1, p) == b.bval(w1));
        lemma_eval_prefix(*value, p, orig.assignment@, w1);
        assert(value.eval(w1, p) == v);
        assert(cs.assignment@ == w1);
        assert(b.bval(cs.assignment@) == b.bval(w1));
    }
    match res {
        Ok(()) => Ok(b),
        Err(e) => {
            proof {
                assert(false);
            }
            Err(e)
        },
    }
}

/// Read a field-element variable back as a `u64`.
///
/// Fails with `AssignmentMissing` when no witness is available, and with
/// `ValueOutOfRange` when the value does not fit in 64 bits.
pub fn cast_to_u64(cs: &ConstraintSystem, value: &FieldVar) -> (r: Result<u64, SynthesisError>)
    requires
        cs.wf(),
        value.wf(cs.modulus, cs.assignment@.len() as nat),
    ensures
        !cs.witness_mode ==> r == Result::<u64, SynthesisError>::Err(
            SynthesisError::AssignmentMissing,
        ),
        cs.witness_mode && value.eval(cs.assignment@, cs.modulus) < 0x1_0000_0000_0000_0000
            ==> (r matches Ok(v) && v == value.eval(cs.assignment@, cs.modulus)),
        cs.witness_mode && value.eval(cs.assignment@, cs.modulus) >= 0x1_0000_0000_0000_0000
            ==> r == Result::<u64, SynthesisError>::Err(SynthesisError::ValueOutOfRange),
{
    if !cs.witness_mode {
        return Err(SynthesisError::AssignmentMissing);
    }
    let v = cs.eval_lc(value);
    if v < 0x1_0000_0000_0000_0000 {
        Ok(v as u64)
    } else {
        Err(SynthesisError::ValueOutOfRange)
    }
}

} // verus!
