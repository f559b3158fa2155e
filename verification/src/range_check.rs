//! Range and set-membership enforcement: a vanishing polynomial for small
//! explicit sets, and a bit-decomposition range check for binary bounds.

use vstd::prelude::*;
use vstd::arithmetic::div_mod::*;
use vstd::arithmetic::mul::*;
use vstd::arithmetic::power2::*;
use crate::cs::{ConstraintSystem, FieldVar, SynthesisError, terms_sum, lemma_extends_trans,
    lemma_eval_prefix, lemma_eval_bound};
use crate::common::enforce_zero;
use crate::bit_utils::{to_bits, from_bits, weighted_sum, lemma_bits_recompose};
use crate::modular::{is_prime, lemma_prime_zero_product, lemma_sub_mod_eq_zero};

verus! {

/// The vanishing product `prod of (v - e) over e in elems`, in the field.
pub open spec fn vanishing(v: int, elems: Seq<int>, p: u128) -> int
    decreases elems.len(),
{
    if elems.len() == 0 {
        1int % (p as int)
    } else {
        (vanishing(v, elems.drop_last(), p) * ((v - elems.last()) % (p as int))) % (p as int)
    }
}

/// The values of a sequence of circuit variables under an assignment.
pub open spec fn evals_of(s: Seq<FieldVar>, w: Seq<u128>, p: u128) -> Seq<int> {
    s.map_values(|e: FieldVar| e.eval(w, p))
}

/// The vanishing product is zero whenever `v` occurs among the elements.
pub proof fn lemma_vanishing_member(v: int, elems: Seq<int>, p: u128, i: int)
    requires
        p >= 2,
        0 <= i < elems.len(),
        elems[i] == v,
    ensures
        vanishing(v, elems, p) == 0,
    decreases elems.len(),
{
    let n = elems.len() as int;
    if i == n - 1 {
        lemma_small_mod(0, p as nat);
        lemma_mul_basics(vanishing(v, elems.drop_last(), p));
    } else {
        lemma_vanishing_member(v, elems.drop_last(), p, i);
        lemma_mul_basics((v - elems.last()) % (p as int));
        lemma_small_mod(0, p as nat);
    }
}

/// A vanishing product of reduced values lies in `[0, p)`.
pub proof fn lemma_vanishing_bound(v: int, elems: Seq<int>, p: u128)
    requires
        p >= 1,
    ensures
        0 <= vanishing(v, elems, p) < p,
{
    if elems.len() == 0 {
        lemma_mod_division_less_than_divisor(1, p as int);
    } else {
        lemma_mod_division_less_than_divisor(
            vanishing(v, elems.drop_last(), p) * ((v - elems.last()) % (p as int)),
            p as int,
        );
    }
}

/// Over a prime modulus, the vanishing product is zero only when `v`
/// occurs among the elements: the converse of `lemma_vanishing_member`.
pub proof fn lemma_vanishing_zero_member(v: int, elems: Seq<int>, p: u128)
    requires
        is_prime(p as int),
        0 <= v < p,
        forall|k: int| 0 <= k < elems.len() ==> 0 <= #[trigger] elems[k] < p,
        vanishing(v, elems, p) == 0,
    ensures
        exists|k: int| 0 <= k < elems.len() && #[trigger] elems[k] == v,
    decreases elems.len(),
{
    let n = elems.len() as int;
    if n == 0 {
        lemma_small_mod(1, p as nat);
        assert(false);
    } else {
        let pre = vanishing(v, elems.drop_last(), p);
        let d = (v - elems.last()) % (p as int);
        lemma_vanishing_bound(v, elems.drop_last(), p);
        lemma_mod_division_less_than_divisor(v - elems.last(), p as int);
        assert((pre * d) % (p as int) == 0);
        lemma_prime_zero_product(p as int, pre, d);
        if d == 0 {
            lemma_sub_mod_eq_zero(v, elems.last(), p as int);
            assert(elems[n - 1] == v);
        } else {
            lemma_vanishing_zero_member(v, elems.drop_last(), p);
            let k = choose|k: int|
                0 <= k < elems.drop_last().len() && #[trigger] elems.drop_last()[k] == v;
            assert(elems[k] == v);
        }
    }
}

/// Enforce that `value` lies in the explicit set `set`, by constraining
/// the vanishing product `prod of (value - e)` to zero. The polynomial
/// degree is linear in the set size: suitable only for small sets. An
/// empty set leaves the product at 1, so the system can never be
/// satisfied afterwards.
pub fn enforce_in_set(cs: &mut ConstraintSystem, value: &FieldVar, set: &Vec<FieldVar>) -> (r:
    Result<(), SynthesisError>)
    requires
        old(cs).wf(),
        value.wf(old(cs).modulus, old(cs).assignment@.len() as nat),
        forall|k: int|
            0 <= k < set@.len() ==> (#[trigger] set@[k]).wf(
                old(cs).modulus,
                old(cs).assignment@.len() as nat,
            ),
    ensures
        final(cs).wf(),
        final(cs).extends(*old(cs)),
        final(cs).num_instance == old(cs).num_instance,
        !old(cs).witness_mode ==> r == Result::<(), SynthesisError>::Err(
            SynthesisError::AssignmentMissing,
        ) && *final(cs) == *old(cs),
        old(cs).witness_mode ==> r is Ok && (final(cs).satisfied() <==> old(cs).satisfied()
            && vanishing(
            value.eval(old(cs).assignment@, old(cs).modulus),
            evals_of(set@, old(cs).assignment@, old(cs).modulus),
            old(cs).modulus,
        ) == 0),
        old(cs).witness_mode ==> (final(cs).satisfied() <==> old(cs).satisfied() && (exists|
            k: int,
        |
            0 <= k < set@.len() && (#[trigger] set@[k]).eval(
                old(cs).assignment@,
                old(cs).modulus,
            ) == value.eval(old(cs).assignment@, old(cs).modulus))),
{
    if !cs.witness_mode {
        return Err(SynthesisError::AssignmentMissing);
    }
    let ghost orig = *cs;
    let ghost p = cs.modulus;
    let ghost v = value.eval(orig.assignment@, p);
    let ghost es = evals_of(set@, orig.assignment@, p);
    let mut van = cs.lc_constant(1);
    proof {
        lemma_small_mod(1, p as nat);
        assert(es.take(0) =~= Seq::<int>::empty());
        assert(van.eval(cs.assignment@, p) == vanishing(v, es.take(0), p));
    }
    let mut i: usize = 0;
    while i < set.len()
        invariant
            cs.wf(),
            cs.extends(orig),
            cs.witness_mode,
            orig.wf(),
            p == cs.modulus,
            cs.num_instance == orig.num_instance,
            cs.satisfied() <==> orig.satisfied(),
            i <= set@.len(),
            value.wf(p, orig.assignment@.len() as nat),
            forall|k: int|
                0 <= k < set@.len() ==> (#[trigger] set@[k]).wf(
                    p,
                    orig.assignment@.len() as nat,
                ),
            v == value.eval(orig.assignment@, p),
            es == evals_of(set@, orig.assignment@, p),
            van.wf(p, cs.assignment@.len() as nat),
            van.eval(cs.assignment@, p) == vanishing(v, es.take(i as int), p),
        decreases set@.len() - i,
    {
        let ghost prev = *cs;
        let e = &set[i];
        let diff = cs.lc_sub(value, e);
        proof {
            assert(diff.wf(p, orig.assignment@.len() as nat)) by {
                assert forall|k: int|
                    0 <= k < diff.terms@.len() implies (#[trigger] diff.terms@[k]).coeff < p
                    && diff.terms@[k].var < orig.assignment@.len() by {
                    if k < value.terms@.len() {
                        assert(diff.terms@[k] == value.terms@[k]);
                    } else {
                        assert(diff.terms@[k].var == e.terms@[k - value.terms@.len()].var);
                    }
                }
            }
            assert(orig.assignment@.is_prefix_of(prev.assignment@));
        }
        let van2 = match cs.mul_vars(&van, &diff) {
            Ok(f) => f,
            Err(err) => {
                proof {
                    assert(false);
                }
                return Err(err);
            },
        };
        proof {
            lemma_extends_trans(orig, prev, *cs);
            let w1 = prev.assignment@;
            let w2 = cs.assignment@;
            lemma_eval_prefix(*value, p, orig.assignment@, w1);
            lemma_eval_prefix(*e, p, orig.assignment@, w1);
            assert(diff.eval(w1, p) == (v - es[i as int]) % (p as int));
            assert(van2.eval(w2, p) == (vanishing(v, es.take(i as int), p) * ((v
                - es[i as int]) % (p as int))) % (p as int));
            assert(es.take(i + 1).drop_last() =~= es.take(i as int));
            assert(es.take(i + 1).last() == es[i as int]);
            assert(van2.eval(w2, p) == vanishing(v, es.take(i + 1), p));
        }
        van = van2;
        i = i + 1;
    }
    proof {
        assert(es.take(set@.len() as int) =~= es);
    }
    let ghost before = *cs;
    let r = enforce_zero(cs, &van);
    proof {
        lemma_extends_trans(orig, before, *cs);
        assert(van.eval(before.assignment@, p) == vanishing(v, es, p));
        // membership and a vanishing product are the same thing over a
        // prime modulus
        assert forall|k: int| 0 <= k < es.len() implies 0 <= #[trigger] es[k] < p by {
            assert(es[k] == set@[k].eval(orig.assignment@, p));
            lemma_eval_bound(set@[k], orig.assignment@, p);
        }
        lemma_eval_bound(*value, orig.assignment@, p);
        if vanishing(v, es, p) == 0 {
            lemma_vanishing_zero_member(v, es, p);
            let k = choose|k: int| 0 <= k < es.len() && #[trigger] es[k] == v;
            assert(set@[k].eval(orig.assignment@, p) == v);
        }
        if exists|k: int|
            0 <= k < set@.len() && (#[trigger] set@[k]).eval(orig.assignment@, p) == v {
            let k = choose|k: int|
                0 <= k < set@.len() && (#[trigger] set@[k]).eval(orig.assignment@, p) == v;
            assert(es[k] == v);
            lemma_vanishing_member(v, es, p, k);
        }
    }
    r
}

/// Enforce that `value` lies in `[0, bound]` (inclusive), by membership in
/// the explicit set `{0, ..., bound}`. Suitable only for small bounds.
pub fn enforce_in_bound(cs: &mut ConstraintSystem, value: &FieldVar, bound: u8) -> (r: Result<
    (),
    SynthesisError,
>)
    requires
        old(cs).wf(),
        value.wf(old(cs).modulus, old(cs).assignment@.len() as nat),
        (bound as int) < old(cs).modulus,
    ensures
        final(cs).wf(),
        final(cs).extends(*old(cs)),
        final(cs).num_instance == old(cs).num_instance,
        !old(cs).witness_mode ==> r == Result::<(), SynthesisError>::Err(
            SynthesisError::AssignmentMissing,
        ) && *final(cs) == *old(cs),
        old(cs).witness_mode ==> r is Ok && (final(cs).satisfied() <==> old(cs).satisfied()
            && value.eval(old(cs).assignment@, old(cs).modulus) <= bound as int),
{
    let ghost p = cs.modulus;
    let ghost orig = *cs;
    let mut set: Vec<FieldVar> = Vec::new();
    let mut i: usize = 0;
    let n: usize = bound as usize + 1;
    while i < n
        invariant
            cs.wf(),
            p == cs.modulus,
            n == bound as int + 1,
            n as int - 1 < p,
            i <= n,
            set@.len() == i,
            forall|k: int|
                0 <= k < i ==> (#[trigger] set@[k]).terms@.len() == 0 && set@[k].constant == k,
        decreases n - i,
    {
        let c = cs.lc_constant(i as u128);
        proof {
            assert(c.eval(cs.assignment@, p) == i as int);
        }
        set.push(c);
        i = i + 1;
    }
    proof {
        assert forall|k: int|
            0 <= k < set@.len() implies (#[trigger] set@[k]).wf(
            p,
            orig.assignment@.len() as nat,
        ) by {}
        assert forall|k: int|
            0 <= k < set@.len() implies (#[trigger] set@[k]).eval(orig.assignment@, p)
            == k by {
            let e = set@[k];
            assert(terms_sum(e.terms@, orig.assignment@) == 0);
            lemma_small_mod(k as nat, p as nat);
        }
    }
    let r = enforce_in_set(cs, value, &set);
    proof {
        let v = value.eval(orig.assignment@, p);
        lemma_eval_bound(*value, orig.assignment@, p);
        if v <= bound as int {
            assert(set@[v].eval(orig.assignment@, p) == v);
        }
        if exists|k: int|
            0 <= k < set@.len() && (#[trigger] set@[k]).eval(orig.assignment@, p) == v {
            let k = choose|k: int|
                0 <= k < set@.len() && (#[trigger] set@[k]).eval(orig.assignment@, p) == v;
            assert(k == v);
        }
    }
    r
}

/// Enforce that `value` lies in `[0, 2^bits - 1]` (inclusive): decompose
/// it into `bits` boolean witnesses and constrain their recomposition to
/// equal `value`.
pub fn enforce_in_binary_bound(cs: &mut ConstraintSystem, value: &FieldVar, bits: usize) -> (r:
    Result<(), SynthesisError>)
    requires
        old(cs).wf(),
        value.wf(old(cs).modulus, old(cs).assignment@.len() as nat),
        pow2(bits as nat) <= old(cs).modulus,
    ensures
        final(cs).wf(),
        final(cs).extends(*old(cs)),
        final(cs).num_instance == old(cs).num_instance,
        !old(cs).witness_mode ==> r == Result::<(), SynthesisError>::Err(
            SynthesisError::AssignmentMissing,
        ) && *final(cs) == *old(cs),
        old(cs).witness_mode ==> r is Ok && (final(cs).satisfied() <==> old(cs).satisfied()
            && value.eval(old(cs).assignment@, old(cs).modulus) % (pow2(bits as nat) as int)
            == value.eval(old(cs).assignment@, old(cs).modulus)),
{
    let ghost orig = *cs;
    let ghost p = cs.modulus;
    let ghost v = value.eval(orig.assignment@, p);
    let bs = match to_bits(cs, value, bits) {
        Ok(bs) => bs,
        Err(e) => {
            return Err(e);
        },
    };
    let ghost mid = *cs;
    let recon = match from_bits(cs, &bs) {
        Ok(f) => f,
        Err(e) => {
            proof {
                assert(false);
            }
            return Err(e);
        },
    };
    proof {
        let w1 = mid.assignment@;
        lemma_eval_bound(*value, orig.assignment@, p);
        lemma_bits_recompose(bs@, w1, v);
        assert(recon.eval(w1, p) == (v % (pow2(bits as nat) as int)) % (p as int));
        lemma_pow2_pos(bits as nat);
        lemma_mod_division_less_than_divisor(v, pow2(bits as nat) as int);
        lemma_small_mod((v % (pow2(bits as nat) as int)) as nat, p as nat);
        assert(recon.eval(w1, p) == v % (pow2(bits as nat) as int));
        lemma_eval_prefix(*value, p, orig.assignment@, w1);
    }
    let ghost before = *cs;
    let r = cs.enforce_equal(&recon, value);
    proof {
        lemma_extends_trans(orig, before, *cs);
    }
    r
}

} // verus!
