//! Shared helpers: zero enforcement and slack-witness allocation.

use vstd::prelude::*;
use crate::cs::{ConstraintSystem, FieldVar, SynthesisError};

verus! {

/// The non-negative gap `to - from` when `from < to`, else zero.
pub open spec fn slack_val(from: int, to: int) -> int {
    if from < to {
        to - from
    } else {
        0
    }
}

/// Enforce that `value` is zero, by constraining its zero-indicator
/// boolean to be true.
pub fn enforce_zero(cs: &mut ConstraintSystem, value: &FieldVar) -> (r: Result<
    (),
    SynthesisError,
>)
    requires
        old(cs).wf(),
        value.wf(old(cs).modulus, old(cs).assignment@.len() as nat),
    ensures
        final(cs).wf(),
        final(cs).extends(*old(cs)),
        final(cs).num_instance == old(cs).num_instance,
        !old(cs).witness_mode ==> r == Result::<(), SynthesisError>::Err(
            SynthesisError::AssignmentMissing,
        ) && *final(cs) == *old(cs),
        old(cs).witness_mode ==> r is Ok && (final(cs).satisfied() <==> old(cs).satisfied()
            && value.eval(old(cs).assignment@, old(cs).modulus) == 0),
{
    let ghost p = cs.modulus;
    let ghost w0 = cs.assignment@;
    let b = match cs.is_zero(value) {
        Ok(b) => b,
        Err(e) => {
            return Err(e);
        },
    };
    let ghost mid = *cs;
    let bf = cs.from_bool(&b);
    let one = cs.lc_constant(1);
    let r = cs.enforce_equal(&bf, &one);
    proof {
        let w1 = mid.assignment@;
        assert(bf.eval(w1, p) == b.bval(w1));
        assert(one.eval(w1, p) == 1);
    }
    r
}

/// Allocate a fresh witness carrying the slack between `from` and `to`:
/// `to - from` when `from < to`, else zero. No constraint is registered;
/// callers must pin the slack down themselves.
pub fn get_slack(cs: &mut ConstraintSystem, from: &FieldVar, to: &FieldVar) -> (r: Result<
    FieldVar,
    SynthesisError,
>)
    requires
        old(cs).wf(),
        from.wf(old(cs).modulus, old(cs).assignment@.len() as nat),
        to.wf(old(cs).modulus, old(cs).assignment@.len() as nat),
    ensures
        final(cs).wf(),
        final(cs).extends(*old(cs)),
        final(cs).num_instance == old(cs).num_instance,
        final(cs).constraints@ == old(cs).constraints@,
        final(cs).satisfied() <==> old(cs).satisfied(),
        !old(cs).witness_mode ==> r == Result::<FieldVar, SynthesisError>::Err(
            SynthesisError::AssignmentMissing,
        ) && *final(cs) == *old(cs),
        old(cs).witness_mode ==> (r matches Ok(f) && f.wf(
            final(cs).modulus,
            final(cs).assignment@.len() as nat,
        ) && f.eval(final(cs).assignment@, final(cs).modulus) == slack_val(
            from.eval(old(cs).assignment@, old(cs).modulus),
            to.eval(old(cs).assignment@, old(cs).modulus),
        )),
{
    if !cs.witness_mode {
        return Err(SynthesisError::AssignmentMissing);
    }
    let fe = cs.eval_lc(from);
    let te = cs.eval_lc(to);
    let s: u128 = if fe < te {
        te - fe
    } else {
        0
    };
    cs.new_witness(s)
}

} // verus!
