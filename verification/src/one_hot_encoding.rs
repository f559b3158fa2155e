//! One-hot encoding of an index as a vector of field-element indicators.

use vstd::prelude::*;
use vstd::arithmetic::div_mod::{lemma_small_mod, lemma_mod_division_less_than_divisor};
use vstd::arithmetic::mul::lemma_mul_basics;
use crate::cs::{ConstraintSystem, FieldVar, SynthesisError, lemma_extends_trans,
    lemma_eval_prefix, lemma_wf_mono};
use crate::common::enforce_zero;
use crate::bit_utils::cast_to_u64;
use crate::modular::{is_prime, lemma_prime_zero_product, lemma_sub_mod_eq_zero};

verus! {

/// Sum of a sequence of integers.
pub open spec fn int_sum(s: Seq<int>) -> int
    decreases s.len(),
{
    if s.len() == 0 {
        0
    } else {
        int_sum(s.drop_last()) + s.last()
    }
}

/// A sequence that is zero away from index `x` sums to its entry at `x`.
proof fn lemma_int_sum_single_support(s: Seq<int>, x: int)
    requires
        forall|i: int| 0 <= i < s.len() && i != x ==> #[trigger] s[i] == 0,
    ensures
        int_sum(s) == (if 0 <= x < s.len() {
            s[x]
        } else {
            0
        }),
    decreases s.len(),
{
    if s.len() > 0 {
        lemma_int_sum_single_support(s.drop_last(), x);
    }
}

/// One-hot soundness: over a prime modulus, indicator values satisfying
/// the two constraint families — the sum is 1 in the field, and each
/// `indicator_i * (x - i)` vanishes — are forced to be exactly the
/// encoding of `x`, whichever witnesses a prover chose; and `x` is forced
/// below the width.
pub proof fn lemma_one_hot_constraints_force_encoding(p: int, x: int, vals: Seq<int>)
    requires
        is_prime(p),
        0 <= x < p,
        (vals.len() as int) < p,
        forall|i: int| 0 <= i < vals.len() ==> 0 <= #[trigger] vals[i] < p,
        forall|i: int| 0 <= i < vals.len() ==> (#[trigger] vals[i] * ((x - i) % p)) % p == 0,
        int_sum(vals) % p == 1,
    ensures
        x < vals.len(),
        forall|i: int|
            0 <= i < vals.len() ==> #[trigger] vals[i] == (if i == x {
                1int
            } else {
                0int
            }),
{
    assert forall|i: int| 0 <= i < vals.len() && i != x implies #[trigger] vals[i] == 0 by {
        lemma_sub_mod_eq_zero(x, i, p);
        lemma_mod_division_less_than_divisor(x - i, p);
        lemma_prime_zero_product(p, vals[i], (x - i) % p);
    }
    lemma_int_sum_single_support(vals, x);
    if x >= vals.len() {
        lemma_small_mod(0, p as nat);
        assert(false);
    }
    lemma_small_mod(vals[x] as nat, p as nat);
}

/// One-hot encode `x` into `bits` field-element indicator variables:
/// indicator `i` is 1 exactly when `i` equals `x`'s value. The indicators
/// are returned as field elements rather than booleans, since the usual
/// consumer is arithmetic (a dot product selecting a row).
///
/// Two constraint families pin the encoding down: the indicator sum must
/// be 1, and `indicator_i * (x - i)` must vanish for every `i`. `bits`
/// must be smaller than the modulus, so that distinct indices cannot
/// alias in the field.
pub fn one_hot_encode(cs: &mut ConstraintSystem, x: &FieldVar, bits: usize) -> (r: Result<
    Vec<FieldVar>,
    SynthesisError,
>)
    requires
        old(cs).wf(),
        x.wf(old(cs).modulus, old(cs).assignment@.len() as nat),
        (bits as int) < old(cs).modulus,
    ensures
        final(cs).wf(),
        final(cs).extends(*old(cs)),
        final(cs).num_instance == old(cs).num_instance,
        !old(cs).witness_mode ==> r == Result::<Vec<FieldVar>, SynthesisError>::Err(
            SynthesisError::AssignmentMissing,
        ) && *final(cs) == *old(cs),
        old(cs).witness_mode && x.eval(old(cs).assignment@, old(cs).modulus)
            >= 0x1_0000_0000_0000_0000 ==> r == Result::<Vec<FieldVar>, SynthesisError>::Err(
            SynthesisError::ValueOutOfRange,
        ) && *final(cs) == *old(cs),
        old(cs).witness_mode && x.eval(old(cs).assignment@, old(cs).modulus)
            < 0x1_0000_0000_0000_0000 ==> (r matches Ok(v) && v@.len() == bits && (forall|k: int|
            0 <= k < bits ==> (#[trigger] v@[k]).wf(
                final(cs).modulus,
                final(cs).assignment@.len() as nat,
            ) && v@[k].eval(final(cs).assignment@, final(cs).modulus) == (if k == x.eval(
                old(cs).assignment@,
                old(cs).modulus,
            ) {
                1int
            } else {
                0int
            })) && (final(cs).satisfied() <==> old(cs).satisfied() && x.eval(
            old(cs).assignment@,
            old(cs).modulus,
        ) < bits)),
{
    let ghost orig = *cs;
    let ghost p = cs.modulus;
    let ghost xe = x.eval(orig.assignment@, p);
    // 1) read the index back as a machine integer
    let x_u64 = match cast_to_u64(cs, x) {
        Ok(u) => u,
        Err(e) => {
            return Err(e);
        },
    };
    // 2) allocate the indicator witnesses
    let mut v: Vec<FieldVar> = Vec::new();
    let mut i: usize = 0;
    while i < bits
        invariant
            cs.wf(),
            cs.extends(orig),
            cs.witness_mode,
            orig.wf(),
            p == cs.modulus,
            cs.num_instance == orig.num_instance,
            cs.satisfied() <==> orig.satisfied(),
            cs.constraints@ == orig.constraints@,
            x_u64 == xe,
            i <= bits,
            v@.len() == i,
            forall|k: int|
                0 <= k < i ==> (#[trigger] v@[k]).wf(p, cs.assignment@.len() as nat)
                    && v@[k].eval(cs.assignment@, p) == (if k == xe {
                    1int
                } else {
                    0int
                }),
        decreases bits - i,
    {
        let ghost prev = *cs;
        let val: u128 = if (i as u64) == x_u64 {
            1
        } else {
            0
        };
        let f = match cs.new_witness(val) {
            Ok(f) => f,
            Err(e) => {
                proof {
                    assert(false);
                }
                return Err(e);
            },
        };
        proof {
            lemma_extends_trans(orig, prev, *cs);
            assert forall|k: int|
                0 <= k < i implies (#[trigger] v@[k]).wf(p, cs.assignment@.len() as nat)
                && v@[k].eval(cs.assignment@, p) == (if k == xe {
                1int
            } else {
                0int
            }) by {
                lemma_wf_mono(
                    v@[k],
                    p,
                    prev.assignment@.len() as nat,
                    cs.assignment@.len() as nat,
                );
                lemma_eval_prefix(v@[k], p, prev.assignment@, cs.assignment@);
            }
        }
        v.push(f);
        i = i + 1;
    }
    let ghost s1 = *cs;
    // 3.1) the indicator sum must be exactly 1
    let mut acc = cs.lc_constant(0);
    let mut j: usize = 0;
    proof {
        assert(acc.eval(s1.assignment@, p) == 0);
    }
    while j < bits
        invariant
            cs.wf(),
            *cs == s1,
            s1.extends(orig),
            s1.witness_mode,
            p == cs.modulus,
            2 <= p,
            j <= bits,
            v@.len() == bits,
            forall|k: int|
                0 <= k < bits ==> (#[trigger] v@[k]).wf(p, s1.assignment@.len() as nat)
                    && v@[k].eval(s1.assignment@, p) == (if k == xe {
                    1int
                } else {
                    0int
                }),
            acc.wf(p, s1.assignment@.len() as nat),
            acc.eval(s1.assignment@, p) == (if xe < j {
                1int
            } else {
                0int
            }),
        decreases bits - j,
    {
        let acc2 = cs.lc_add(&acc, &v[j]);
        proof {
            lemma_small_mod(0, p as nat);
            lemma_small_mod(1, p as nat);
            assert(acc2.eval(s1.assignment@, p) == (acc.eval(s1.assignment@, p) + v@[
            j as int].eval(s1.assignment@, p)) % (p as int));
        }
        acc = acc2;
        j = j + 1;
    }
    let one = cs.lc_constant(1);
    let ghost before_sum = *cs;
    let rs = cs.enforce_equal(&acc, &one);
    let ghost s2 = *cs;
    proof {
        assert(rs is Ok);
        lemma_extends_trans(orig, before_sum, s2);
        assert(acc.eval(s1.assignment@, p) == (if xe < bits {
            1int
        } else {
            0int
        }));
        assert(s2.satisfied() <==> orig.satisfied() && xe < bits);
    }
    // 3.2) an indicator may only sit at the index matching x
    let mut i2: usize = 0;
    while i2 < bits
        invariant
            cs.wf(),
            cs.extends(orig),
            cs.extends(s2),
            cs.witness_mode,
            orig.wf(),
            s2.wf(),
            p == cs.modulus,
            cs.num_instance == orig.num_instance,
            cs.satisfied() <==> orig.satisfied() && xe < bits,
            (bits as int) < p,
            i2 <= bits,
            v@.len() == bits,
            x.wf(p, orig.assignment@.len() as nat),
            xe == x.eval(orig.assignment@, p),
            forall|k: int|
                0 <= k < bits ==> (#[trigger] v@[k]).wf(p, cs.assignment@.len() as nat)
                    && v@[k].eval(cs.assignment@, p) == (if k == xe {
                    1int
                } else {
                    0int
                }),
        decreases bits - i2,
    {
        let ghost prev = *cs;
        let ci = cs.lc_constant(i2 as u128);
        let diff = cs.lc_sub(x, &ci);
        proof {
            lemma_eval_prefix(*x, p, orig.assignment@, prev.assignment@);
            lemma_wf_mono(*x, p, orig.assignment@.len() as nat, prev.assignment@.len() as nat);
            assert(diff.eval(prev.assignment@, p) == (xe - i2 as int) % (p as int));
            assert(diff.wf(p, prev.assignment@.len() as nat));
        }
        let prod = match cs.mul_vars(&v[i2], &diff) {
            Ok(f) => f,
            Err(e) => {
                proof {
                    assert(false);
                }
                return Err(e);
            },
        };
        let ghost mid = *cs;
        proof {
            lemma_extends_trans(orig, prev, mid);
            lemma_extends_trans(s2, prev, mid);
            let iv = (if i2 as int == xe {
                1int
            } else {
                0int
            });
            assert(prod.eval(mid.assignment@, p) == (iv * ((xe - i2 as int) % (p as int))) % (
            p as int));
            if i2 as int == xe {
                lemma_small_mod(0, p as nat);
                lemma_mul_basics((xe - i2 as int) % (p as int));
                assert(prod.eval(mid.assignment@, p) == 0);
            } else {
                lemma_mul_basics((xe - i2 as int) % (p as int));
                lemma_small_mod(0, p as nat);
                assert(prod.eval(mid.assignment@, p) == 0);
            }
        }
        let rz = enforce_zero(cs, &prod);
        proof {
            assert(rz is Ok);
            lemma_extends_trans(orig, mid, *cs);
            lemma_extends_trans(s2, mid, *cs);
            assert forall|k: int|
                0 <= k < bits implies (#[trigger] v@[k]).wf(p, cs.assignment@.len() as nat)
                && v@[k].eval(cs.assignment@, p) == (if k == xe {
                1int
            } else {
                0int
            }) by {
                lemma_wf_mono(
                    v@[k],
                    p,
                    prev.assignment@.len() as nat,
                    cs.assignment@.len() as nat,
                );
                lemma_eval_prefix(v@[k], p, prev.assignment@, cs.assignment@);
            }
        }
        i2 = i2 + 1;
    }
    Ok(v)
}

} // verus!
