//! Slack-based order gadgets: `min` and `max` of two bounded circuit
//! variables, proven correct without any comparison primitive. Two slack
//! witnesses `over = max(0, a - b)` and `under = max(0, b - a)` are
//! range-checked, forced mutually exclusive by `over * under = 0`, and tied
//! to the inputs by the balance equation `a + under = b + over`.

use vstd::prelude::*;
use vstd::arithmetic::div_mod::*;
use vstd::arithmetic::mul::*;
use vstd::arithmetic::power2::*;
use crate::cs::{ConstraintSystem, FieldVar, SynthesisError, lemma_extends_trans,
    lemma_eval_prefix, lemma_eval_bound, lemma_wf_mono};
use crate::common::{get_slack, enforce_zero, slack_val};
use crate::modular::{is_prime, lemma_prime_zero_product};
use crate::range_check::enforce_in_binary_bound;

verus! {

/// The algebraic heart of the order gadgets: over a prime modulus of at
/// least `2^(bits+1)`, the three registered facts — both slacks below
/// `2^bits`, their product vanishing, and the balance `a + under = b +
/// over` — admit exactly one slack pair for any in-range `a` and `b`,
/// however the witnesses were chosen. `a - over` is therefore forced to
/// be the minimum and `a + under` the maximum.
pub proof fn lemma_slack_constraints_force_min(
    p: int,
    bits: nat,
    a: int,
    b: int,
    over: int,
    under: int,
)
    requires
        is_prime(p),
        pow2((bits + 1) as nat) <= p,
        0 <= a < pow2(bits),
        0 <= b < pow2(bits),
        0 <= over < pow2(bits),
        0 <= under < pow2(bits),
        (over * under) % p == 0,
        (a + under) % p == (b + over) % p,
    ensures
        over == slack_val(b, a),
        under == slack_val(a, b),
        a - over == (if a <= b {
            a
        } else {
            b
        }),
        a + under == (if a <= b {
            b
        } else {
            a
        }),
{
    lemma_pow2_unfold((bits + 1) as nat);
    assert(pow2((bits + 1) as nat) == 2 * pow2(bits));
    // Sums of two in-range values stay below the modulus, so equal
    // residues mean equal integers.
    vstd::arithmetic::div_mod::lemma_small_mod((a + under) as nat, p as nat);
    vstd::arithmetic::div_mod::lemma_small_mod((b + over) as nat, p as nat);
    assert(a + under == b + over);
    // A prime field has no zero divisors, so one slack is zero.
    lemma_prime_zero_product(p, over, under);
}

/// Both slacks fit below `2^bits`; exactly what the two range checks of
/// the order gadgets enforce on an honest witness.
pub open spec fn slacks_in_range(ae: int, be: int, bits: nat) -> bool {
    &&& slack_val(be, ae) % (pow2(bits) as int) == slack_val(be, ae)
    &&& slack_val(ae, be) % (pow2(bits) as int) == slack_val(ae, be)
}

/// Allocate and check the two slack witnesses for inputs `a` and `b`:
/// range-bound both below `2^bits`, force them mutually exclusive, and
/// register the balance equation. Returns `(under, over)`.
fn get_under_and_over_checked(
    cs: &mut ConstraintSystem,
    a: &FieldVar,
    b: &FieldVar,
    bits: usize,
) -> (r: Result<(FieldVar, FieldVar), SynthesisError>)
    requires
        old(cs).wf(),
        a.wf(old(cs).modulus, old(cs).assignment@.len() as nat),
        b.wf(old(cs).modulus, old(cs).assignment@.len() as nat),
        pow2((bits + 1) as nat) <= old(cs).modulus,
    ensures
        final(cs).wf(),
        final(cs).extends(*old(cs)),
        final(cs).num_instance == old(cs).num_instance,
        !old(cs).witness_mode ==> r == Result::<(FieldVar, FieldVar), SynthesisError>::Err(
            SynthesisError::AssignmentMissing,
        ) && *final(cs) == *old(cs),
        old(cs).witness_mode ==> (r matches Ok(pair) && pair.0.wf(
            final(cs).modulus,
            final(cs).assignment@.len() as nat,
        ) && pair.1.wf(final(cs).modulus, final(cs).assignment@.len() as nat) && pair.0.eval(
            final(cs).assignment@,
            final(cs).modulus,
        ) == slack_val(
            a.eval(old(cs).assignment@, old(cs).modulus),
            b.eval(old(cs).assignment@, old(cs).modulus),
        ) && pair.1.eval(final(cs).assignment@, final(cs).modulus) == slack_val(
            b.eval(old(cs).assignment@, old(cs).modulus),
            a.eval(old(cs).assignment@, old(cs).modulus),
        ) && (final(cs).satisfied() <==> old(cs).satisfied() && slacks_in_range(
            a.eval(old(cs).assignment@, old(cs).modulus),
            b.eval(old(cs).assignment@, old(cs).modulus),
            bits as nat,
        ))),
{
    if !cs.witness_mode {
        return Err(SynthesisError::AssignmentMissing);
    }
    let ghost orig = *cs;
    let ghost p = cs.modulus;
    let ghost ae = a.eval(orig.assignment@, p);
    let ghost be = b.eval(orig.assignment@, p);
    proof {
        lemma_pow2_strictly_increases(bits as nat, (bits + 1) as nat);
        lemma_eval_bound(*a, orig.assignment@, p);
        lemma_eval_bound(*b, orig.assignment@, p);
    }
    let over = match get_slack(cs, b, a) {
        Ok(f) => f,
        Err(e) => {
            proof {
                assert(false);
            }
            return Err(e);
        },
    };
    let ghost s1 = *cs;
    let undr = match get_slack(cs, a, b) {
        Ok(f) => f,
        Err(e) => {
            proof {
                assert(false);
            }
            return Err(e);
        },
    };
    let ghost s2 = *cs;
    proof {
        lemma_extends_trans(orig, s1, s2);
        lemma_eval_prefix(*a, p, orig.assignment@, s1.assignment@);
        lemma_eval_prefix(*b, p, orig.assignment@, s1.assignment@);
        lemma_eval_prefix(over, p, s1.assignment@, s2.assignment@);
        lemma_wf_mono(over, p, s1.assignment@.len() as nat, s2.assignment@.len() as nat);
        lemma_wf_mono(*a, p, orig.assignment@.len() as nat, s2.assignment@.len() as nat);
        lemma_wf_mono(*b, p, orig.assignment@.len() as nat, s2.assignment@.len() as nat);
        assert(over.eval(s2.assignment@, p) == slack_val(be, ae));
        assert(undr.eval(s2.assignment@, p) == slack_val(ae, be));
    }
    let ghost ov = slack_val(be, ae);
    let ghost un = slack_val(ae, be);
    // (1) both slacks lie in [0, 2^bits)
    let r1 = enforce_in_binary_bound(cs, &over, bits);
    let ghost s3 = *cs;
    proof {
        assert(r1 is Ok);
        lemma_extends_trans(orig, s2, s3);
        lemma_eval_prefix(undr, p, s2.assignment@, s3.assignment@);
        lemma_eval_prefix(over, p, s2.assignment@, s3.assignment@);
        lemma_wf_mono(undr, p, s2.assignment@.len() as nat, s3.assignment@.len() as nat);
        lemma_wf_mono(over, p, s2.assignment@.len() as nat, s3.assignment@.len() as nat);
    }
    let r2 = enforce_in_binary_bound(cs, &undr, bits);
    let ghost s4 = *cs;
    proof {
        assert(r2 is Ok);
        lemma_extends_trans(orig, s3, s4);
        lemma_eval_prefix(over, p, s3.assignment@, s4.assignment@);
        lemma_eval_prefix(undr, p, s3.assignment@, s4.assignment@);
        lemma_wf_mono(over, p, s3.assignment@.len() as nat, s4.assignment@.len() as nat);
        lemma_wf_mono(undr, p, s3.assignment@.len() as nat, s4.assignment@.len() as nat);
        lemma_wf_mono(*a, p, orig.assignment@.len() as nat, s4.assignment@.len() as nat);
        lemma_wf_mono(*b, p, orig.assignment@.len() as nat, s4.assignment@.len() as nat);
    }
    // (2) the slacks are mutually exclusive: over * under = 0
    let prod = match cs.mul_vars(&over, &undr) {
        Ok(f) => f,
        Err(e) => {
            proof {
                assert(false);
            }
            return Err(e);
        },
    };
    let ghost s5 = *cs;
    proof {
        lemma_extends_trans(orig, s4, s5);
        lemma_eval_prefix(over, p, s4.assignment@, s5.assignment@);
        lemma_eval_prefix(undr, p, s4.assignment@, s5.assignment@);
        assert(prod.eval(s5.assignment@, p) == (ov * un) % (p as int));
        if ae < be {
            assert(ov == 0);
            lemma_mul_basics(un);
            lemma_small_mod(0, p as nat);
        } else {
            assert(un == 0);
            lemma_mul_basics(ov);
            lemma_small_mod(0, p as nat);
        }
        assert(prod.eval(s5.assignment@, p) == 0);
        lemma_wf_mono(*a, p, orig.assignment@.len() as nat, s5.assignment@.len() as nat);
        lemma_wf_mono(*b, p, orig.assignment@.len() as nat, s5.assignment@.len() as nat);
        lemma_wf_mono(over, p, s4.assignment@.len() as nat, s5.assignment@.len() as nat);
        lemma_wf_mono(undr, p, s4.assignment@.len() as nat, s5.assignment@.len() as nat);
    }
    let r3 = enforce_zero(cs, &prod);
    let ghost s6 = *cs;
    proof {
        assert(r3 is Ok);
        lemma_extends_trans(orig, s5, s6);
        lemma_eval_prefix(over, p, s5.assignment@, s6.assignment@);
        lemma_eval_prefix(undr, p, s5.assignment@, s6.assignment@);
        lemma_eval_prefix(*a, p, orig.assignment@, s6.assignment@);
        lemma_eval_prefix(*b, p, orig.assignment@, s6.assignment@);
        lemma_wf_mono(over, p, s5.assignment@.len() as nat, s6.assignment@.len() as nat);
        lemma_wf_mono(undr, p, s5.assignment@.len() as nat, s6.assignment@.len() as nat);
        lemma_wf_mono(*a, p, orig.assignment@.len() as nat, s6.assignment@.len() as nat);
        lemma_wf_mono(*b, p, orig.assignment@.len() as nat, s6.assignment@.len() as nat);
    }
    // (3) the balance equation: a + under = b + over
    let lhs = cs.lc_add(a, &undr);
    let rhs = cs.lc_add(b, &over);
    proof {
        let w6 = s6.assignment@;
        assert(lhs.eval(w6, p) == (ae + un) % (p as int));
        assert(rhs.eval(w6, p) == (be + ov) % (p as int));
        assert(ae + un == be + ov);
        assert(lhs.wf(p, w6.len() as nat));
        assert(rhs.wf(p, w6.len() as nat));
    }
    let r4 = cs.enforce_equal(&lhs, &rhs);
    let ghost s7 = *cs;
    proof {
        assert(r4 is Ok);
        lemma_extends_trans(orig, s6, s7);
        lemma_eval_prefix(over, p, s6.assignment@, s7.assignment@);
        lemma_eval_prefix(undr, p, s6.assignment@, s7.assignment@);
        lemma_wf_mono(over, p, s6.assignment@.len() as nat, s7.assignment@.len() as nat);
        lemma_wf_mono(undr, p, s6.assignment@.len() as nat, s7.assignment@.len() as nat);
    }
    Ok((undr, over))
}

/// The minimum of two circuit variables in `[0, 2^bits)`, computed as
/// `a - over`. Requires `2^(bits+1)` to be at most the modulus, so that
/// the balance equation cannot wrap around.
pub fn min(cs: &mut ConstraintSystem, a: &FieldVar, b: &FieldVar, bits: usize) -> (r: Result<
    FieldVar,
    SynthesisError,
>)
    requires
        old(cs).wf(),
        a.wf(old(cs).modulus, old(cs).assignment@.len() as nat),
        b.wf(old(cs).modulus, old(cs).assignment@.len() as nat),
        pow2((bits + 1) as nat) <= old(cs).modulus,
    ensures
        final(cs).wf(),
        final(cs).extends(*old(cs)),
        final(cs).num_instance == old(cs).num_instance,
        !old(cs).witness_mode ==> r == Result::<FieldVar, SynthesisError>::Err(
            SynthesisError::AssignmentMissing,
        ) && *final(cs) == *old(cs),
        old(cs).witness_mode ==> (r matches Ok(m) && m.wf(
            final(cs).modulus,
            final(cs).assignment@.len() as nat,
        ) && m.eval(final(cs).assignment@, final(cs).modulus) == (if a.eval(
            old(cs).assignment@,
            old(cs).modulus,
        ) <= b.eval(old(cs).assignment@, old(cs).modulus) {
            a.eval(old(cs).assignment@, old(cs).modulus)
        } else {
            b.eval(old(cs).assignment@, old(cs).modulus)
        }) && (final(cs).satisfied() <==> old(cs).satisfied() && slacks_in_range(
            a.eval(old(cs).assignment@, old(cs).modulus),
            b.eval(old(cs).assignment@, old(cs).modulus),
            bits as nat,
        )) && (a.eval(old(cs).assignment@, old(cs).modulus) < pow2(bits as nat) && b.eval(
            old(cs).assignment@,
            old(cs).modulus,
        ) < pow2(bits as nat) ==> (final(cs).satisfied() <==> old(cs).satisfied()))),
{
    let ghost orig = *cs;
    let ghost p = cs.modulus;
    let ghost ae = a.eval(orig.assignment@, p);
    let ghost be = b.eval(orig.assignment@, p);
    let pair = match get_under_and_over_checked(cs, a, b, bits) {
        Ok(t) => t,
        Err(e) => {
            return Err(e);
        },
    };
    let over = pair.1;
    let ghost s1 = *cs;
    proof {
        lemma_wf_mono(*a, p, orig.assignment@.len() as nat, s1.assignment@.len() as nat);
        lemma_eval_prefix(*a, p, orig.assignment@, s1.assignment@);
        lemma_eval_bound(*a, orig.assignment@, p);
        lemma_eval_bound(*b, orig.assignment@, p);
    }
    let m = cs.lc_sub(a, &over);
    proof {
        let w1 = s1.assignment@;
        let ov = slack_val(be, ae);
        assert(m.eval(w1, p) == (ae - ov) % (p as int));
        assert(ae - ov == (if ae <= be {
            ae
        } else {
            be
        }));
        lemma_small_mod((ae - ov) as nat, p as nat);
        assert(m.wf(p, w1.len() as nat));
        if ae < pow2(bits as nat) && be < pow2(bits as nat) {
            lemma_small_mod(slack_val(be, ae) as nat, pow2(bits as nat));
            lemma_small_mod(slack_val(ae, be) as nat, pow2(bits as nat));
            assert(slacks_in_range(ae, be, bits as nat));
        }
    }
    Ok(m)
}

/// The maximum of two circuit variables in `[0, 2^bits)`, computed as
/// `a + under`, with the same soundness precondition as `min`.
pub fn max(cs: &mut ConstraintSystem, a: &FieldVar, b: &FieldVar, bits: usize) -> (r: Result<
    FieldVar,
    SynthesisError,
>)
    requires
        old(cs).wf(),
        a.wf(old(cs).modulus, old(cs).assignment@.len() as nat),
        b.wf(old(cs).modulus, old(cs).assignment@.len() as nat),
        pow2((bits + 1) as nat) <= old(cs).modulus,
    ensures
        final(cs).wf(),
        final(cs).extends(*old(cs)),
        final(cs).num_instance == old(cs).num_instance,
        !old(cs).witness_mode ==> r == Result::<FieldVar, SynthesisError>::Err(
            SynthesisError::AssignmentMissing,
        ) && *final(cs) == *old(cs),
        old(cs).witness_mode ==> (r matches Ok(m) && m.wf(
            final(cs).modulus,
            final(cs).assignment@.len() as nat,
        ) && m.eval(final(cs).assignment@, final(cs).modulus) == (if a.eval(
            old(cs).assignment@,
            old(cs).modulus,
        ) <= b.eval(old(cs).assignment@, old(cs).modulus) {
            b.eval(old(cs).assignment@, old(cs).modulus)
        } else {
            a.eval(old(cs).assignment@, old(cs).modulus)
        }) && (final(cs).satisfied() <==> old(cs).satisfied() && slacks_in_range(
            a.eval(old(cs).assignment@, old(cs).modulus),
            b.eval(old(cs).assignment@, old(cs).modulus),
            bits as nat,
        )) && (a.eval(old(cs).assignment@, old(cs).modulus) < pow2(bits as nat) && b.eval(
            old(cs).assignment@,
            old(cs).modulus,
        ) < pow2(bits as nat) ==> (final(cs).satisfied() <==> old(cs).satisfied()))),
{
    let ghost orig = *cs;
    let ghost p = cs.modulus;
    let ghost ae = a.eval(orig.assignment@, p);
    let ghost be = b.eval(orig.assignment@, p);
    let pair = match get_under_and_over_checked(cs, a, b, bits) {
        Ok(t) => t,
        Err(e) => {
            return Err(e);
        },
    };
    let undr = pair.0;
    let ghost s1 = *cs;
    proof {
        lemma_wf_mono(*a, p, orig.assignment@.len() as nat, s1.assignment@.len() as nat);
        lemma_eval_prefix(*a, p, orig.assignment@, s1.assignment@);
        lemma_eval_bound(*a, orig.assignment@, p);
        lemma_eval_bound(*b, orig.assignment@, p);
    }
    let m = cs.lc_add(a, &undr);
    proof {
        let w1 = s1.assignment@;
        let un = slack_val(ae, be);
        assert(m.eval(w1, p) == (ae + un) % (p as int));
        assert(ae + un == (if ae <= be {
            be
        } else {
            ae
        }));
        lemma_small_mod((ae + un) as nat, p as nat);
        assert(m.wf(p, w1.len() as nat));
        if ae < pow2(bits as nat) && be < pow2(bits as nat) {
            lemma_small_mod(slack_val(be, ae) as nat, pow2(bits as nat));
            lemma_small_mod(slack_val(ae, be) as nat, pow2(bits as nat));
            assert(slacks_in_range(ae, be, bits as nat));
        }
    }
    Ok(m)
}

} // verus!
