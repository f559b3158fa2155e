//! Comparison gadgets built on the slack-based `min`: enforcing and
//! boolean-valued forms of `<=` and `>=`.

use vstd::prelude::*;
use vstd::arithmetic::power2::*;
use crate::cs::{ConstraintSystem, FieldVar, BoolVar, SynthesisError, lemma_extends_trans,
    lemma_eval_prefix, lemma_eval_bound, lemma_wf_mono};
use crate::common::enforce_zero;
use crate::modular::lemma_sub_mod_eq_zero;
use crate::ops::{min, slacks_in_range};

verus! {

/// Enforce that `a <= b`, by constraining `a - min(a, b)` to zero.
///
/// `a` and `b` must lie in `[0, 2^bits)` for the system to stay
/// satisfiable; `2^(bits+1)` must be at most the modulus.
pub fn enforce_le(cs: &mut ConstraintSystem, a: &FieldVar, b: &FieldVar, bits: usize) -> (r:
    Result<(), SynthesisError>)
    requires
        old(cs).wf(),
        a.wf(old(cs).modulus, old(cs).assignment@.len() as nat),
        b.wf(old(cs).modulus, old(cs).assignment@.len() as nat),
        pow2((bits + 1) as nat) <= old(cs).modulus,
    ensures
        final(cs).wf(),
        final(cs).extends(*old(cs)),
        final(cs).num_instance == old(cs).num_instance,
        !old(cs).witness_mode ==> r == Result::<(), SynthesisError>::Err(
            SynthesisError::AssignmentMissing,
        ) && *final(cs) == *old(cs),
        old(cs).witness_mode ==> r is Ok && (final(cs).satisfied() <==> old(cs).satisfied()
            && slacks_in_range(
            a.eval(old(cs).assignment@, old(cs).modulus),
            b.eval(old(cs).assignment@, old(cs).modulus),
            bits as nat,
        ) && a.eval(old(cs).assignment@, old(cs).modulus) <= b.eval(
            old(cs).assignment@,
            old(cs).modulus,
        )),
        old(cs).witness_mode && a.eval(old(cs).assignment@, old(cs).modulus) < pow2(
            bits as nat,
        ) && b.eval(old(cs).assignment@, old(cs).modulus) < pow2(bits as nat) ==> (
        final(cs).satisfied() <==> old(cs).satisfied() && a.eval(
            old(cs).assignment@,
            old(cs).modulus,
        ) <= b.eval(old(cs).assignment@, old(cs).modulus)),
{
    let ghost orig = *cs;
    let ghost p = cs.modulus;
    let ghost ae = a.eval(orig.assignment@, p);
    let ghost be = b.eval(orig.assignment@, p);
    let less = match min(cs, a, b, bits) {
        Ok(m) => m,
        Err(e) => {
            return Err(e);
        },
    };
    let ghost s1 = *cs;
    proof {
        lemma_wf_mono(*a, p, orig.assignment@.len() as nat, s1.assignment@.len() as nat);
        lemma_eval_prefix(*a, p, orig.assignment@, s1.assignment@);
        lemma_eval_bound(*a, orig.assignment@, p);
        lemma_eval_bound(*b, orig.assignment@, p);
    }
    let diff = cs.lc_sub(a, &less);
    let ghost before = *cs;
    let r = enforce_zero(cs, &diff);
    proof {
        assert(r is Ok);
        lemma_extends_trans(orig, before, *cs);
        let w1 = s1.assignment@;
        let me = (if ae <= be {
            ae
        } else {
            be
        });
        assert(diff.eval(w1, p) == (ae - me) % (p as int));
        lemma_sub_mod_eq_zero(ae, me, p as int);
        assert(diff.eval(w1, p) == 0 <==> ae <= be);
        assert(diff.wf(p, w1.len() as nat));
        if ae < pow2(bits as nat) && be < pow2(bits as nat) {
            vstd::arithmetic::div_mod::lemma_small_mod(
                crate::common::slack_val(be, ae) as nat,
                pow2(bits as nat),
            );
            vstd::arithmetic::div_mod::lemma_small_mod(
                crate::common::slack_val(ae, be) as nat,
                pow2(bits as nat),
            );
        }
    }
    r
}

/// Enforce that `a >= b`: `enforce_le` with the operands swapped.
pub fn enforce_ge(cs: &mut ConstraintSystem, a: &FieldVar, b: &FieldVar, bits: usize) -> (r:
    Result<(), SynthesisError>)
    requires
        old(cs).wf(),
        a.wf(old(cs).modulus, old(cs).assignment@.len() as nat),
        b.wf(old(cs).modulus, old(cs).assignment@.len() as nat),
        pow2((bits + 1) as nat) <= old(cs).modulus,
    ensures
        final(cs).wf(),
        final(cs).extends(*old(cs)),
        final(cs).num_instance == old(cs).num_instance,
        !old(cs).witness_mode ==> r == Result::<(), SynthesisError>::Err(
            SynthesisError::AssignmentMissing,
        ) && *final(cs) == *old(cs),
        old(cs).witness_mode ==> r is Ok && (final(cs).satisfied() <==> old(cs).satisfied()
            && slacks_in_range(
            b.eval(old(cs).assignment@, old(cs).modulus),
            a.eval(old(cs).assignment@, old(cs).modulus),
            bits as nat,
        ) && a.eval(old(cs).assignment@, old(cs).modulus) >= b.eval(
            old(cs).assignment@,
            old(cs).modulus,
        )),
        old(cs).witness_mode && a.eval(old(cs).assignment@, old(cs).modulus) < pow2(
            bits as nat,
        ) && b.eval(old(cs).assignment@, old(cs).modulus) < pow2(bits as nat) ==> (
        final(cs).satisfied() <==> old(cs).satisfied() && a.eval(
            old(cs).assignment@,
            old(cs).modulus,
        ) >= b.eval(old(cs).assignment@, old(cs).modulus)),
{
    enforce_le(cs, b, a, bits)
}

/// A boolean circuit variable that is 1 exactly when `a <= b`, computed
/// as "does `a` equal `min(a, b)`" without enforcing it.
pub fn le(cs: &mut ConstraintSystem, a: &FieldVar, b: &FieldVar, bits: usize) -> (r: Result<
    BoolVar,
    SynthesisError,
>)
    requires
        old(cs).wf(),
        a.wf(old(cs).modulus, old(cs).assignment@.len() as nat),
        b.wf(old(cs).modulus, old(cs).assignment@.len() as nat),
        pow2((bits + 1) as nat) <= old(cs).modulus,
    ensures
        final(cs).wf(),
        final(cs).extends(*old(cs)),
        final(cs).num_instance == old(cs).num_instance,
        !old(cs).witness_mode ==> r == Result::<BoolVar, SynthesisError>::Err(
            SynthesisError::AssignmentMissing,
        ) && *final(cs) == *old(cs),
        old(cs).witness_mode ==> (r matches Ok(c) && c.wf(final(cs).assignment@.len() as nat)
            && c.bval(final(cs).assignment@) == (if a.eval(
            old(cs).assignment@,
            old(cs).modulus,
        ) <= b.eval(old(cs).assignment@, old(cs).modulus) {
            1int
        } else {
            0int
        }) && (final(cs).satisfied() <==> old(cs).satisfied() && slacks_in_range(
            a.eval(old(cs).assignment@, old(cs).modulus),
            b.eval(old(cs).assignment@, old(cs).modulus),
            bits as nat,
        ))),
        old(cs).witness_mode && a.eval(old(cs).assignment@, old(cs).modulus) < pow2(
            bits as nat,
        ) && b.eval(old(cs).assignment@, old(cs).modulus) < pow2(bits as nat) ==> (
        final(cs).satisfied() <==> old(cs).satisfied()),
{
    let ghost orig = *cs;
    let ghost p = cs.modulus;
    let ghost ae = a.eval(orig.assignment@, p);
    let ghost be = b.eval(orig.assignment@, p);
    let less = match min(cs, a, b, bits) {
        Ok(m) => m,
        Err(e) => {
            return Err(e);
        },
    };
    let ghost s1 = *cs;
    proof {
        lemma_wf_mono(*a, p, orig.assignment@.len() as nat, s1.assignment@.len() as nat);
        lemma_eval_prefix(*a, p, orig.assignment@, s1.assignment@);
        lemma_eval_bound(*a, orig.assignment@, p);
        lemma_eval_bound(*b, orig.assignment@, p);
    }
    let ghost before = *cs;
    let r = cs.is_eq(a, &less);
    proof {
        lemma_extends_trans(orig, before, *cs);
        if ae < pow2(bits as nat) && be < pow2(bits as nat) {
            vstd::arithmetic::div_mod::lemma_small_mod(
                crate::common::slack_val(be, ae) as nat,
                pow2(bits as nat),
            );
            vstd::arithmetic::div_mod::lemma_small_mod(
                crate::common::slack_val(ae, be) as nat,
                pow2(bits as nat),
            );
        }
    }
    r
}

/// A boolean circuit variable that is 1 exactly when `a >= b`: `le` with
/// the operands swapped.
pub fn ge(cs: &mut ConstraintSystem, a: &FieldVar, b: &FieldVar, bits: usize) -> (r: Result<
    BoolVar,
    SynthesisError,
>)
    requires
        old(cs).wf(),
        a.wf(old(cs).modulus, old(cs).assignment@.len() as nat),
        b.wf(old(cs).modulus, old(cs).assignment@.len() as nat),
        pow2((bits + 1) as nat) <= old(cs).modulus,
    ensures
        final(cs).wf(),
        final(cs).extends(*old(cs)),
        final(cs).num_instance == old(cs).num_instance,
        !old(cs).witness_mode ==> r == Result::<BoolVar, SynthesisError>::Err(
            SynthesisError::AssignmentMissing,
        ) && *final(cs) == *old(cs),
        old(cs).witness_mode ==> (r matches Ok(c) && c.wf(final(cs).assignment@.len() as nat)
            && c.bval(final(cs).assignment@) == (if a.eval(
            old(cs).assignment@,
            old(cs).modulus,
        ) >= b.eval(old(cs).assignment@, old(cs).modulus) {
            1int
        } else {
            0int
        }) && (final(cs).satisfied() <==> old(cs).satisfied() && slacks_in_range(
            b.eval(old(cs).assignment@, old(cs).modulus),
            a.eval(old(cs).assignment@, old(cs).modulus),
            bits as nat,
        ))),
        old(cs).witness_mode && a.eval(old(cs).assignment@, old(cs).modulus) < pow2(
            bits as nat,
        ) && b.eval(old(cs).assignment@, old(cs).modulus) < pow2(bits as nat) ==> (
        final(cs).satisfied() <==> old(cs).satisfied()),
{
    le(cs, b, a, bits)
}

} // verus!
