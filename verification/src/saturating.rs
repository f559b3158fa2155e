//! Saturating subtraction, as a pure composition of `min`.

use vstd::prelude::*;
use vstd::arithmetic::power2::*;
use crate::cs::{ConstraintSystem, FieldVar, SynthesisError, lemma_eval_prefix, lemma_eval_bound,
    lemma_wf_mono};
use crate::ops::{min, slacks_in_range};

verus! {

/// `a - b` when `a >= b`, else 0, computed as `a - min(a, b)` with no
/// constraints beyond `min`'s.
///
/// `a` and `b` must lie in `[0, 2^bits)` for the system to stay
/// satisfiable; `2^(bits+1)` must be at most the modulus.
pub fn saturating_sub(cs: &mut ConstraintSystem, a: &FieldVar, b: &FieldVar, bits: usize) -> (r:
    Result<FieldVar, SynthesisError>)
    requires
        old(cs).wf(),
        a.wf(old(cs).modulus, old(cs).assignment@.len() as nat),
        b.wf(old(cs).modulus, old(cs).assignment@.len() as nat),
        pow2((bits + 1) as nat) <= old(cs).modulus,
    ensures
        final(cs).wf(),
        final(cs).extends(*old(cs)),
        final(cs).num_instance == old(cs).num_instance,
        !old(cs).witness_mode ==> r == Result::<FieldVar, SynthesisError>::Err(
            SynthesisError::AssignmentMissing,
        ) && *final(cs) == *old(cs),
        old(cs).witness_mode ==> (r matches Ok(d) && d.wf(
            final(cs).modulus,
            final(cs).assignment@.len() as nat,
        ) && d.eval(final(cs).assignment@, final(cs).modulus) == (if a.eval(
            old(cs).assignment@,
            old(cs).modulus,
        ) >= b.eval(old(cs).assignment@, old(cs).modulus) {
            a.eval(old(cs).assignment@, old(cs).modulus) - b.eval(
                old(cs).assignment@,
                old(cs).modulus,
            )
        } else {
            0int
        }) && (final(cs).satisfied() <==> old(cs).satisfied() && slacks_in_range(
            a.eval(old(cs).assignment@, old(cs).modulus),
            b.eval(old(cs).assignment@, old(cs).modulus),
            bits as nat,
        ))),
        old(cs).witness_mode && a.eval(old(cs).assignment@, old(cs).modulus) < pow2(
            bits as nat,
        ) && b.eval(old(cs).assignment@, old(cs).modulus) < pow2(bits as nat) ==> (
        final(cs).satisfied() <==> old(cs).satisfied()),
{
    let ghost orig = *cs;
    let ghost p = cs.modulus;
    let ghost ae = a.eval(orig.assignment@, p);
    let ghost be = b.eval(orig.assignment@, p);
    let to_subtract = match min(cs, a, b, bits) {
        Ok(m) => m,
        Err(e) => {
            return Err(e);
        },
    };
    let ghost s1 = *cs;
    proof {
        lemma_wf_mono(*a, p, orig.assignment@.len() as nat, s1.assignment@.len() as nat);
        lemma_eval_prefix(*a, p, orig.assignment@, s1.assignment@);
        lemma_eval_bound(*a, orig.assignment@, p);
        lemma_eval_bound(*b, orig.assignment@, p);
    }
    let d = cs.lc_sub(a, &to_subtract);
    proof {
        let w1 = s1.assignment@;
        let me = (if ae <= be {
            ae
        } else {
            be
        });
        assert(d.eval(w1, p) == (ae - me) % (p as int));
        vstd::arithmetic::div_mod::lemma_small_mod((ae - me) as nat, p as nat);
        assert(d.wf(p, w1.len() as nat));
        if ae < pow2(bits as nat) && be < pow2(bits as nat) {
            vstd::arithmetic::div_mod::lemma_small_mod(
                crate::common::slack_val(be, ae) as nat,
                pow2(bits as nat),
            );
            vstd::arithmetic::div_mod::lemma_small_mod(
                crate::common::slack_val(ae, be) as nat,
                pow2(bits as nat),
            );
        }
    }
    Ok(d)
}

} // verus!
