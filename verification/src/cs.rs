//! A model of a rank-1 constraint system over a prime field. Variables are
//! indices into an assignment of field values; a circuit variable is a
//! linear combination of variables plus a constant; every constraint has the
//! shape `(A) * (B) = (C)` for linear combinations `A`, `B`, `C`.
//!
//! Gadgets append variables and constraints and return new linear
//! combinations; their contracts relate the witness values of the results
//! and the satisfiability of the system to the values of the inputs.

use vstd::prelude::*;
use vstd::arithmetic::div_mod::*;
use vstd::arithmetic::mul::*;
use crate::modular::{MAX_MODULUS, is_prime, add_mod, sub_mod, mul_mod, inv_mod,
    lemma_sub_mod_eq_zero};

verus! {

/// One addend of a linear combination: `coeff * value-of(var)`.
#[derive(Clone, Copy, Debug)]
pub struct Term {
    pub coeff: u128,
    pub var: usize,
}

/// A field-element circuit variable: a linear combination of allocated
/// variables plus a constant, all modulo the system's modulus.
#[derive(Debug)]
pub struct FieldVar {
    pub terms: Vec<Term>,
    pub constant: u128,
}

/// A boolean circuit variable: the index of an allocated variable whose
/// booleanity constraint `b * (b - 1) = 0` has been registered.
#[derive(Clone, Copy, Debug)]
pub struct BoolVar {
    pub var: usize,
}

/// A rank-1 constraint `(a) * (b) = (c)`.
pub struct Constraint {
    pub a: FieldVar,
    pub b: FieldVar,
    pub c: FieldVar,
}

/// The single error kind of gadget construction: a witness value was
/// needed but the system carries none, or a value read back from the
/// system does not fit the requested machine integer.
#[derive(Clone, Copy, Debug, PartialEq, Eq, Structural)]
pub enum SynthesisError {
    AssignmentMissing,
    ValueOutOfRange,
}

/// The accumulating set of circuit variables and constraints.
///
/// In witness mode every variable carries a concrete value; outside it,
/// gadgets that must compute a witness fail with `AssignmentMissing`.
pub struct ConstraintSystem {
    pub modulus: u128,
    pub witness_mode: bool,
    pub assignment: Vec<u128>,
    pub constraints: Vec<Constraint>,
    pub num_instance: usize,
}

/// Sum of a sequence of terms under an assignment, as an unreduced integer.
pub open spec fn terms_sum(ts: Seq<Term>, w: Seq<u128>) -> int
    decreases ts.len(),
{
    if ts.len() == 0 {
        0
    } else {
        terms_sum(ts.drop_last(), w) + ts.last().coeff * w[ts.last().var as int]
    }
}

impl FieldVar {
    /// All coefficients reduced and all variable indices allocated.
    pub open spec fn wf(self, p: u128, n: nat) -> bool {
        &&& self.constant < p
        &&& forall|i: int|
            0 <= i < self.terms@.len() ==> (#[trigger] self.terms@[i]).coeff < p
                && self.terms@[i].var < n
    }

    /// The value of this linear combination under an assignment.
    pub open spec fn eval(self, w: Seq<u128>, p: u128) -> int {
        (self.constant + terms_sum(self.terms@, w)) % (p as int)
    }
}

impl FieldVar {
    /// Read this variable's concrete value back from the system.
    ///
    /// Fails when the system carries no witness values.
    pub fn value(&self, cs: &ConstraintSystem) -> (r: Result<u128, SynthesisError>)
        requires
            cs.wf(),
            self.wf(cs.modulus, cs.assignment@.len() as nat),
        ensures
            !cs.witness_mode ==> r == Result::<u128, SynthesisError>::Err(
                SynthesisError::AssignmentMissing,
            ),
            cs.witness_mode ==> (r matches Ok(v) && v == self.eval(cs.assignment@, cs.modulus)),
    {
        if !cs.witness_mode {
            return Err(SynthesisError::AssignmentMissing);
        }
        Ok(cs.eval_lc(self))
    }
}

impl BoolVar {
    /// The underlying variable is allocated.
    pub open spec fn wf(self, n: nat) -> bool {
        self.var < n
    }

    /// The value of the underlying variable under an assignment.
    pub open spec fn bval(self, w: Seq<u128>) -> int {
        w[self.var as int] as int
    }
}

impl Constraint {
    pub open spec fn wf(self, p: u128, n: nat) -> bool {
        self.a.wf(p, n) && self.b.wf(p, n) && self.c.wf(p, n)
    }

    /// The constraint holds under an assignment: `a * b == c` in the field.
    pub open spec fn holds(self, w: Seq<u128>, p: u128) -> bool {
        (self.a.eval(w, p) * self.b.eval(w, p)) % (p as int) == self.c.eval(w, p)
    }
}

impl ConstraintSystem {
    /// Well-formedness: a prime modulus small enough that sums of two
    /// reduced values cannot overflow, reduced assignment values, and
    /// constraints that only mention allocated variables.
    pub open spec fn wf(self) -> bool {
        &&& 2 <= self.modulus <= MAX_MODULUS
        &&& is_prime(self.modulus as int)
        &&& self.num_instance <= self.assignment@.len()
        &&& forall|i: int|
            0 <= i < self.assignment@.len() ==> #[trigger] self.assignment@[i] < self.modulus
        &&& forall|i: int|
            0 <= i < self.constraints@.len() ==> (#[trigger] self.constraints@[i]).wf(
                self.modulus,
                self.assignment@.len() as nat,
            )
    }

    /// Every registered constraint holds under the current assignment.
    pub open spec fn satisfied(self) -> bool {
        forall|i: int|
            0 <= i < self.constraints@.len() ==> (#[trigger] self.constraints@[i]).holds(
                self.assignment@,
                self.modulus,
            )
    }

    /// The system grew out of `prev`: same modulus and mode, and `prev`'s
    /// variables and constraints are untouched prefixes.
    pub open spec fn extends(self, prev: Self) -> bool {
        &&& self.modulus == prev.modulus
        &&& self.witness_mode == prev.witness_mode
        &&& prev.assignment@.is_prefix_of(self.assignment@)
        &&& prev.constraints@.is_prefix_of(self.constraints@)
    }

    /// The constraints appended since `prev` all hold.
    pub open spec fn new_constraints_hold(self, prev: Self) -> bool {
        forall|i: int|
            prev.constraints@.len() <= i < self.constraints@.len()
                ==> (#[trigger] self.constraints@[i]).holds(self.assignment@, self.modulus)
    }
}

/// A term sum only reads the variables it mentions, so extending the
/// assignment does not change it.
pub proof fn lemma_terms_sum_prefix(ts: Seq<Term>, w1: Seq<u128>, w2: Seq<u128>)
    requires
        w1.is_prefix_of(w2),
        forall|i: int| 0 <= i < ts.len() ==> (#[trigger] ts[i]).var < w1.len(),
    ensures
        terms_sum(ts, w1) == terms_sum(ts, w2),
    decreases ts.len(),
{
    if ts.len() > 0 {
        lemma_terms_sum_prefix(ts.drop_last(), w1, w2);
    }
}

/// A well-formed linear combination evaluates the same under any extension
/// of the assignment.
pub proof fn lemma_eval_prefix(f: FieldVar, p: u128, w1: Seq<u128>, w2: Seq<u128>)
    requires
        f.wf(p, w1.len() as nat),
        w1.is_prefix_of(w2),
    ensures
        f.eval(w2, p) == f.eval(w1, p),
{
    lemma_terms_sum_prefix(f.terms@, w1, w2);
}

/// Term sums split across concatenation.
pub proof fn lemma_terms_sum_concat(s1: Seq<Term>, s2: Seq<Term>, w: Seq<u128>)
    ensures
        terms_sum(s1 + s2, w) == terms_sum(s1, w) + terms_sum(s2, w),
    decreases s2.len(),
{
    if s2.len() == 0 {
        assert(s1 + s2 =~= s1);
    } else {
        lemma_terms_sum_concat(s1, s2.drop_last(), w);
        assert((s1 + s2).drop_last() =~= s1 + s2.drop_last());
        assert((s1 + s2).last() == s2.last());
    }
}

/// The sum of a single term.
pub proof fn lemma_terms_sum_single(t: Term, w: Seq<u128>)
    ensures
        terms_sum(seq![t], w) == t.coeff * w[t.var as int],
{
    let s = seq![t];
    assert(s.drop_last() =~= Seq::<Term>::empty());
    assert(s.last() == t);
    assert(terms_sum(s, w) == terms_sum(s.drop_last(), w) + t.coeff * w[t.var as int]);
}

/// Evaluation is reduced: it lies in `[0, p)`.
pub proof fn lemma_eval_bound(f: FieldVar, w: Seq<u128>, p: u128)
    requires
        p > 0,
    ensures
        0 <= f.eval(w, p) < p,
{
    lemma_mod_division_less_than_divisor(f.constant + terms_sum(f.terms@, w), p as int);
}

/// Satisfiability across growth: the grown system is satisfied exactly when
/// the previous one was and every appended constraint holds.
pub proof fn lemma_satisfied_extends(prev: ConstraintSystem, cur: ConstraintSystem)
    requires
        prev.wf(),
        cur.extends(prev),
    ensures
        cur.satisfied() <==> prev.satisfied() && cur.new_constraints_hold(prev),
{
    let n = prev.constraints@.len() as int;
    assert forall|i: int| 0 <= i < n implies (cur.constraints@[i].holds(
        cur.assignment@,
        cur.modulus,
    ) <==> prev.constraints@[i].holds(prev.assignment@, prev.modulus)) by {
        assert(cur.constraints@[i] == prev.constraints@[i]);
        let c = prev.constraints@[i];
        lemma_eval_prefix(c.a, prev.modulus, prev.assignment@, cur.assignment@);
        lemma_eval_prefix(c.b, prev.modulus, prev.assignment@, cur.assignment@);
        lemma_eval_prefix(c.c, prev.modulus, prev.assignment@, cur.assignment@);
    }
}

/// Well-formedness of a linear combination is monotone in the number of
/// allocated variables.
pub proof fn lemma_wf_mono(f: FieldVar, p: u128, n1: nat, n2: nat)
    requires
        f.wf(p, n1),
        n1 <= n2,
    ensures
        f.wf(p, n2),
{
}

/// Growth of the system is transitive.
pub proof fn lemma_extends_trans(a: ConstraintSystem, b: ConstraintSystem, c: ConstraintSystem)
    requires
        b.extends(a),
        c.extends(b),
    ensures
        c.extends(a),
{
    assert(a.assignment@ =~= c.assignment@.subrange(0, a.assignment@.len() as int));
    assert(a.constraints@ =~= c.constraints@.subrange(0, a.constraints@.len() as int));
}

/// Make a copy of a linear combination.
pub fn dup_lc(x: &FieldVar) -> (r: FieldVar)
    ensures
        r.terms@ == x.terms@,
        r.constant == x.constant,
{
    let mut ts: Vec<Term> = Vec::new();
    let mut i: usize = 0;
    while i < x.terms.len()
        invariant
            i <= x.terms@.len(),
            ts@ == x.terms@.take(i as int),
        decreases x.terms@.len() - i,
    {
        ts.push(x.terms[i]);
        assert(x.terms@.take(i as int).push(x.terms@[i as int]) =~= x.terms@.take(i + 1));
        i = i + 1;
    }
    assert(x.terms@.take(x.terms@.len() as int) =~= x.terms@);
    FieldVar { terms: ts, constant: x.constant }
}

impl ConstraintSystem {
    /// A fresh, empty system over the given prime modulus. In witness mode
    /// allocated variables carry concrete values; outside it, gadgets that
    /// must compute a witness fail.
    pub fn new(modulus: u128, witness_mode: bool) -> (r: ConstraintSystem)
        requires
            2 <= modulus <= MAX_MODULUS,
            is_prime(modulus as int),
        ensures
            r.wf(),
            r.satisfied(),
            r.modulus == modulus,
            r.witness_mode == witness_mode,
            r.assignment@.len() == 0,
            r.constraints@.len() == 0,
            r.num_instance == 0,
    {
        ConstraintSystem {
            modulus,
            witness_mode,
            assignment: Vec::new(),
            constraints: Vec::new(),
            num_instance: 0,
        }
    }

    /// Number of registered constraints.
    pub fn num_constraints(&self) -> (r: usize)
        ensures
            r == self.constraints@.len(),
    {
        self.constraints.len()
    }

    /// Number of private (witness) variables.
    pub fn num_witness_variables(&self) -> (r: usize)
        requires
            self.wf(),
        ensures
            r == self.assignment@.len() - self.num_instance,
    {
        self.assignment.len() - self.num_instance
    }

    /// Number of public (instance) variables.
    pub fn num_instance_variables(&self) -> (r: usize)
        ensures
            r == self.num_instance,
    {
        self.num_instance
    }

    /// Evaluate a linear combination under the current assignment.
    pub fn eval_lc(&self, f: &FieldVar) -> (r: u128)
        requires
            self.wf(),
            f.wf(self.modulus, self.assignment@.len() as nat),
        ensures
            r == f.eval(self.assignment@, self.modulus),
            r < self.modulus,
    {
        let ghost w = self.assignment@;
        let ghost p = self.modulus;
        let mut acc: u128 = f.constant;
        proof {
            lemma_small_mod(f.constant as nat, p as nat);
            assert(f.terms@.take(0) =~= Seq::<Term>::empty());
        }
        let mut i: usize = 0;
        while i < f.terms.len()
            invariant
                self.wf(),
                f.wf(self.modulus, self.assignment@.len() as nat),
                w == self.assignment@,
                p == self.modulus,
                i <= f.terms@.len(),
                acc < p,
                acc == (f.constant + terms_sum(f.terms@.take(i as int), w)) % (p as int),
            decreases f.terms@.len() - i,
        {
            let t: Term = f.terms[i];
            let tv: u128 = mul_mod(t.coeff, self.assignment[t.var], self.modulus);
            let ghost acc0 = acc as int;
            acc = add_mod(acc, tv, self.modulus);
            proof {
                let s0 = terms_sum(f.terms@.take(i as int), w);
                let s1 = terms_sum(f.terms@.take(i + 1), w);
                assert(f.terms@.take(i + 1).drop_last() =~= f.terms@.take(i as int));
                assert(f.terms@.take(i + 1).last() == t);
                assert(s1 == s0 + t.coeff * w[t.var as int]);
                // acc' = (acc0 + (c*v)%p) % p == (constant + s0 + c*v) % p
                lemma_add_mod_noop_right(acc0, t.coeff * w[t.var as int], p as int);
                lemma_add_mod_noop(f.constant + s0, t.coeff * w[t.var as int], p as int);
                lemma_mod_twice(t.coeff * w[t.var as int], p as int);
                lemma_small_mod(acc0 as nat, p as nat);
            }
            i = i + 1;
        }
        proof {
            assert(f.terms@.take(f.terms@.len() as int) =~= f.terms@);
        }
        acc
    }

    /// Append one constraint; satisfiability afterwards is satisfiability
    /// before conjoined with the new constraint holding.
    fn push_constraint(&mut self, c: Constraint)
        requires
            old(self).wf(),
            c.wf(old(self).modulus, old(self).assignment@.len() as nat),
        ensures
            final(self).wf(),
            final(self).extends(*old(self)),
            final(self).assignment@ == old(self).assignment@,
            final(self).num_instance == old(self).num_instance,
            final(self).constraints@.len() == old(self).constraints@.len() + 1,
            final(self).satisfied() <==> old(self).satisfied() && final(self).constraints@.last().holds(
                final(self).assignment@,
                final(self).modulus,
            ),
            final(self).constraints@.last() == c,
    {
        let ghost prev = *self;
        self.constraints.push(c);
        proof {
            assert(prev.assignment@.is_prefix_of(self.assignment@));
            assert(prev.constraints@.is_prefix_of(self.constraints@));
            lemma_satisfied_extends(prev, *self);
            assert forall|i: int|
                prev.constraints@.len() <= i < self.constraints@.len() implies (
            #[trigger] self.constraints@[i]).holds(self.assignment@, self.modulus) == self
                .constraints@.last().holds(self.assignment@, self.modulus) by {
                assert(i == self.constraints@.len() - 1);
            }
        }
    }

    /// Allocate a private variable carrying `value`.
    ///
    /// Fails without changing the system when no witness can be stored.
    pub fn new_witness(&mut self, value: u128) -> (r: Result<FieldVar, SynthesisError>)
        requires
            old(self).wf(),
            value < old(self).modulus,
        ensures
            final(self).wf(),
            final(self).extends(*old(self)),
            final(self).constraints@ == old(self).constraints@,
            final(self).num_instance == old(self).num_instance,
            final(self).satisfied() <==> old(self).satisfied(),
            !old(self).witness_mode ==> r == Result::<FieldVar, SynthesisError>::Err(
                SynthesisError::AssignmentMissing,
            ) && *final(self) == *old(self),
            old(self).witness_mode ==> final(self).assignment@ == old(self).assignment@.push(value)
                && (r matches Ok(f) && f.constant == 0 && f.terms@.len() == 1
                && f.terms@[0].coeff == 1 && f.terms@[0].var == old(self).assignment@.len()
                && f.wf(final(self).modulus, final(self).assignment@.len() as nat) && f.eval(
                final(self).assignment@,
                final(self).modulus,
            ) == value),
    {
        if !self.witness_mode {
            return Err(SynthesisError::AssignmentMissing);
        }
        let ghost prev = *self;
        let idx: usize = self.assignment.len();
        self.assignment.push(value);
        let mut ts: Vec<Term> = Vec::new();
        ts.push(Term { coeff: 1, var: idx });
        let f = FieldVar { terms: ts, constant: 0 };
        proof {
            assert(prev.assignment@.is_prefix_of(self.assignment@));
            assert(prev.constraints@.is_prefix_of(self.constraints@));
            lemma_satisfied_extends(prev, *self);
            assert(f.terms@ =~= seq![Term { coeff: 1, var: idx }]);
            lemma_terms_sum_single(Term { coeff: 1, var: idx }, self.assignment@);
            assert(terms_sum(f.terms@, self.assignment@) == 1 * value);
            lemma_mul_basics_4(value as int);
            lemma_small_mod(value as nat, self.modulus as nat);
        }
        Ok(f)
    }

    /// Allocate a public (instance) variable carrying `value`.
    pub fn new_input(&mut self, value: u128) -> (r: Result<FieldVar, SynthesisError>)
        requires
            old(self).wf(),
            value < old(self).modulus,
        ensures
            final(self).wf(),
            final(self).extends(*old(self)),
            final(self).constraints@ == old(self).constraints@,
            final(self).satisfied() <==> old(self).satisfied(),
            !old(self).witness_mode ==> r == Result::<FieldVar, SynthesisError>::Err(
                SynthesisError::AssignmentMissing,
            ) && *final(self) == *old(self),
            old(self).witness_mode ==> final(self).assignment@ == old(self).assignment@.push(value)
                && final(self).num_instance == old(self).num_instance + 1 && (r matches Ok(f)
                && f.constant == 0 && f.terms@.len() == 1 && f.terms@[0].coeff == 1
                && f.terms@[0].var == old(self).assignment@.len() && f.wf(
                final(self).modulus,
                final(self).assignment@.len() as nat,
            ) && f.eval(final(self).assignment@, final(self).modulus) == value),
    {
        let r = self.new_witness(value);
        if r.is_ok() {
            let n: usize = self.assignment.len();
            assert(self.num_instance < n);
            let ghost mid = *self;
            self.num_instance = self.num_instance + 1;
            proof {
                assert(self.constraints@ == mid.constraints@);
                assert(self.assignment@ == mid.assignment@);
                assert(self.satisfied() <==> mid.satisfied());
            }
        }
        r
    }

    /// Allocate a boolean variable carrying `bit`, together with its
    /// booleanity constraint `b * (b - 1) = 0`.
    pub fn new_bool_witness(&mut self, bit: bool) -> (r: Result<BoolVar, SynthesisError>)
        requires
            old(self).wf(),
        ensures
            final(self).wf(),
            final(self).extends(*old(self)),
            final(self).num_instance == old(self).num_instance,
            final(self).satisfied() <==> old(self).satisfied(),
            !old(self).witness_mode ==> r == Result::<BoolVar, SynthesisError>::Err(
                SynthesisError::AssignmentMissing,
            ) && *final(self) == *old(self),
            old(self).witness_mode ==> final(self).assignment@ == old(self).assignment@.push(
                if bit {
                    1
                } else {
                    0
                },
            ) && final(self).constraints@.len() == old(self).constraints@.len() + 1 && (
            r matches Ok(b) && b.var == old(self).assignment@.len() && b.wf(
                final(self).assignment@.len() as nat,
            ) && b.bval(final(self).assignment@) == (if bit {
                1int
            } else {
                0int
            })),
    {
        if !self.witness_mode {
            return Err(SynthesisError::AssignmentMissing);
        }
        let ghost prev = *self;
        let p = self.modulus;
        let value: u128 = if bit {
            1
        } else {
            0
        };
        let idx: usize = self.assignment.len();
        self.assignment.push(value);
        proof {
            assert(prev.assignment@.is_prefix_of(self.assignment@));
            assert(prev.constraints@.is_prefix_of(self.constraints@));
            lemma_satisfied_extends(prev, *self);
        }
        let ghost mid = *self;
        // b * (b - 1) = 0
        let mut ta: Vec<Term> = Vec::new();
        ta.push(Term { coeff: 1, var: idx });
        let ca = FieldVar { terms: ta, constant: 0 };
        let mut tb: Vec<Term> = Vec::new();
        tb.push(Term { coeff: 1, var: idx });
        let cb = FieldVar { terms: tb, constant: p - 1 };
        let cc = FieldVar { terms: Vec::new(), constant: 0 };
        let ghost c = Constraint { a: ca, b: cb, c: cc };
        proof {
            let w = self.assignment@;
            lemma_terms_sum_single(Term { coeff: 1, var: idx }, w);
            assert(ca.terms@ =~= seq![Term { coeff: 1, var: idx }]);
            assert(cb.terms@ =~= seq![Term { coeff: 1, var: idx }]);
            assert(cc.terms@ =~= Seq::<Term>::empty());
            lemma_mul_basics_4(value as int);
            assert(terms_sum(ca.terms@, w) == value);
            assert(terms_sum(cb.terms@, w) == value);
            lemma_small_mod(value as nat, p as nat);
            assert(ca.eval(w, p) == value);
            lemma_small_mod(0, p as nat);
            assert(cc.eval(w, p) == 0);
            if bit {
                lemma_mod_self_0(p as int);
                assert(cb.eval(w, p) == 0);
                lemma_mul_basics_4(0int);
                assert(c.holds(w, p));
            } else {
                lemma_small_mod((p - 1) as nat, p as nat);
                assert(cb.eval(w, p) == p - 1);
                lemma_mul_basics_2((p - 1) as int);
                assert(ca.eval(w, p) * cb.eval(w, p) == 0);
                assert(c.holds(w, p));
            }
        }
        self.push_constraint(Constraint { a: ca, b: cb, c: cc });
        proof {
            lemma_terms_sum_single(Term { coeff: 1, var: idx }, self.assignment@);
        }
        Ok(BoolVar { var: idx })
    }

    /// The linear combination that is the constant `c`.
    pub fn lc_constant(&self, c: u128) -> (r: FieldVar)
        requires
            self.wf(),
            c < self.modulus,
        ensures
            r.terms@.len() == 0,
            r.constant == c,
            forall|n: nat| r.wf(self.modulus, n),
            forall|w: Seq<u128>| (#[trigger] r.eval(w, self.modulus)) == c,
    {
        let r = FieldVar { terms: Vec::new(), constant: c };
        proof {
            assert forall|w: Seq<u128>| (#[trigger] r.eval(w, self.modulus)) == c by {
                assert(terms_sum(r.terms@, w) == 0);
                lemma_small_mod(c as nat, self.modulus as nat);
            }
        }
        r
    }

    /// A boolean variable used as a field element: `false` is 0, `true` is 1.
    pub fn from_bool(&self, b: &BoolVar) -> (r: FieldVar)
        requires
            self.wf(),
        ensures
            forall|n: nat| b.wf(n) ==> r.wf(self.modulus, n),
            forall|w: Seq<u128>|
                b.var < w.len() && w[b.var as int] < self.modulus ==> (#[trigger] r.eval(
                    w,
                    self.modulus,
                )) == b.bval(w),
    {
        let mut ts: Vec<Term> = Vec::new();
        ts.push(Term { coeff: 1, var: b.var });
        let r = FieldVar { terms: ts, constant: 0 };
        proof {
            let p = self.modulus;
            assert forall|w: Seq<u128>|
                b.var < w.len() && w[b.var as int] < p implies (#[trigger] r.eval(w, p))
                == b.bval(w) by {
                assert(r.terms@ =~= seq![Term { coeff: 1, var: b.var }]);
                lemma_terms_sum_single(Term { coeff: 1, var: b.var }, w);
                lemma_mul_basics_4(w[b.var as int] as int);
                lemma_small_mod(w[b.var as int] as nat, p as nat);
            }
        }
        r
    }

    /// The sum of two linear combinations.
    pub fn lc_add(&self, x: &FieldVar, y: &FieldVar) -> (r: FieldVar)
        requires
            self.wf(),
            x.constant < self.modulus,
            y.constant < self.modulus,
        ensures
            r.terms@ == x.terms@ + y.terms@,
            r.constant < self.modulus,
            forall|n: nat|
                x.wf(self.modulus, n) && y.wf(self.modulus, n) ==> #[trigger] r.wf(
                    self.modulus,
                    n,
                ),
            forall|w: Seq<u128>|
                (#[trigger] r.eval(w, self.modulus)) == (x.eval(w, self.modulus) + y.eval(
                    w,
                    self.modulus,
                )) % (self.modulus as int),
    {
        let ghost p = self.modulus;
        let mut ts = dup_lc(x).terms;
        let mut ty = dup_lc(y).terms;
        ts.append(&mut ty);
        let c = add_mod(x.constant, y.constant, self.modulus);
        let r = FieldVar { terms: ts, constant: c };
        proof {
            assert(r.terms@ == x.terms@ + y.terms@);
            assert forall|n: nat| x.wf(p, n) && y.wf(p, n) implies #[trigger] r.wf(p, n) by {
                assert forall|i: int|
                    0 <= i < r.terms@.len() implies (#[trigger] r.terms@[i]).coeff < p
                    && r.terms@[i].var < n by {
                    if i < x.terms@.len() {
                        assert(r.terms@[i] == x.terms@[i]);
                    } else {
                        assert(r.terms@[i] == y.terms@[i - x.terms@.len()]);
                    }
                }
            }
            assert forall|w: Seq<u128>|
                (#[trigger] r.eval(w, p)) == (x.eval(w, p) + y.eval(w, p)) % (
            p as int) by {
                lemma_terms_sum_concat(x.terms@, y.terms@, w);
                let sx = terms_sum(x.terms@, w);
                let sy = terms_sum(y.terms@, w);
                let cx = x.constant as int;
                let cy = y.constant as int;
                // r.eval = ((cx+cy)%p + sx + sy) % p == (cx+cy+sx+sy) % p
                lemma_add_mod_noop_right(sx + sy, cx + cy, p as int);
                // x.eval + y.eval reduced the same way
                lemma_add_mod_noop(cx + sx, cy + sy, p as int);
            }
        }
        r
    }

    /// The additive inverse of a linear combination.
    pub fn lc_neg(&self, x: &FieldVar) -> (r: FieldVar)
        requires
            self.wf(),
            x.constant < self.modulus,
            forall|i: int| 0 <= i < x.terms@.len() ==> (#[trigger] x.terms@[i]).coeff
                < self.modulus,
        ensures
            r.terms@.len() == x.terms@.len(),
            r.constant < self.modulus,
            forall|i: int|
                0 <= i < r.terms@.len() ==> (#[trigger] r.terms@[i]).var == x.terms@[i].var
                    && r.terms@[i].coeff < self.modulus,
            forall|w: Seq<u128>|
                (#[trigger] r.eval(w, self.modulus)) == (0 - x.eval(w, self.modulus)) % (
                self.modulus as int),
    {
        let ghost p = self.modulus;
        let mut ts: Vec<Term> = Vec::new();
        let mut i: usize = 0;
        while i < x.terms.len()
            invariant
                self.wf(),
                p == self.modulus,
                x.constant < p,
                forall|k: int| 0 <= k < x.terms@.len() ==> (#[trigger] x.terms@[k]).coeff < p,
                i <= x.terms@.len(),
                ts@.len() == i,
                forall|k: int|
                    0 <= k < i ==> (#[trigger] ts@[k]).var == x.terms@[k].var && ts@[k].coeff
                        < p && ts@[k].coeff == (0 - x.terms@[k].coeff as int) % (p as int),
            decreases x.terms@.len() - i,
        {
            let t: Term = x.terms[i];
            let nc: u128 = sub_mod(0, t.coeff, self.modulus);
            ts.push(Term { coeff: nc, var: t.var });
            i = i + 1;
        }
        let c = sub_mod(0, x.constant, self.modulus);
        let r = FieldVar { terms: ts, constant: c };
        proof {
            assert forall|w: Seq<u128>|
                (#[trigger] r.eval(w, p)) == (0 - x.eval(w, p)) % (p as int) by {
                lemma_neg_terms_sum(x.terms@, r.terms@, w, p);
                let sx = terms_sum(x.terms@, w);
                let sn = terms_sum(r.terms@, w);
                let cx = x.constant as int;
                // r.eval = ((-cx)%p + sn) % p == (-cx + sn) % p == (-cx - sx) % p
                lemma_add_mod_noop_right(sn, 0 - cx, p as int);
                lemma_add_mod_noop_right(0 - cx, sn, p as int);
                assert((c + sn) % (p as int) == (0 - cx + sn) % (p as int));
                lemma_sub_mod_noop_right(0 - cx, 0 - sx, p as int);
                assert(((0 - cx) + sn) % (p as int) == ((0 - cx) + (sn % (p as int))) % (
                p as int)) by {
                    lemma_add_mod_noop_right(0 - cx, sn, p as int);
                }
                assert(sn % (p as int) == (0 - sx) % (p as int));
                assert(((0 - cx) + (0 - sx) % (p as int)) % (p as int) == ((0 - cx) + (0
                    - sx)) % (p as int)) by {
                    lemma_add_mod_noop_right(0 - cx, 0 - sx, p as int);
                }
                // and (0 - x.eval) % p == (0 - (cx + sx)) % p
                lemma_sub_mod_noop_right(0, cx + sx, p as int);
            }
        }
        r
    }

    /// The difference of two linear combinations.
    pub fn lc_sub(&self, x: &FieldVar, y: &FieldVar) -> (r: FieldVar)
        requires
            self.wf(),
            x.constant < self.modulus,
            y.constant < self.modulus,
            forall|i: int| 0 <= i < y.terms@.len() ==> (#[trigger] y.terms@[i]).coeff
                < self.modulus,
        ensures
            r.constant < self.modulus,
            r.terms@.len() == x.terms@.len() + y.terms@.len(),
            forall|i: int|
                0 <= i < x.terms@.len() ==> (#[trigger] r.terms@[i]) == x.terms@[i],
            forall|i: int|
                x.terms@.len() <= i < r.terms@.len() ==> (#[trigger] r.terms@[i]).var
                    == y.terms@[i - x.terms@.len()].var && r.terms@[i].coeff < self.modulus,
            forall|n: nat|
                x.wf(self.modulus, n) && y.wf(self.modulus, n) ==> #[trigger] r.wf(
                    self.modulus,
                    n,
                ),
            forall|w: Seq<u128>|
                (#[trigger] r.eval(w, self.modulus)) == (x.eval(w, self.modulus) - y.eval(
                    w,
                    self.modulus,
                )) % (self.modulus as int),
    {
        let ghost p = self.modulus;
        let ny = self.lc_neg(y);
        let r = self.lc_add(x, &ny);
        proof {
            assert forall|n: nat| x.wf(p, n) && y.wf(p, n) implies #[trigger] r.wf(p, n) by {
                assert(ny.wf(p, n)) by {
                    assert forall|i: int|
                        0 <= i < ny.terms@.len() implies (#[trigger] ny.terms@[i]).coeff < p
                        && ny.terms@[i].var < n by {
                        assert(ny.terms@[i].var == y.terms@[i].var);
                    }
                }
            }
            assert forall|w: Seq<u128>|
                (#[trigger] r.eval(w, p)) == (x.eval(w, p) - y.eval(w, p)) % (p as int) by {
                assert(r.eval(w, p) == (x.eval(w, p) + ny.eval(w, p)) % (p as int));
                assert(ny.eval(w, p) == (0 - y.eval(w, p)) % (p as int));
                lemma_add_mod_noop_right(x.eval(w, p), 0 - y.eval(w, p), p as int);
            }
        }
        r
    }

    /// Register the equality constraint `x == y`, as `(1) * (x) = (y)`.
    pub fn enforce_equal(&mut self, x: &FieldVar, y: &FieldVar) -> (r: Result<
        (),
        SynthesisError,
    >)
        requires
            old(self).wf(),
            x.wf(old(self).modulus, old(self).assignment@.len() as nat),
            y.wf(old(self).modulus, old(self).assignment@.len() as nat),
        ensures
            final(self).wf(),
            final(self).extends(*old(self)),
            final(self).assignment@ == old(self).assignment@,
            final(self).num_instance == old(self).num_instance,
            final(self).constraints@.len() == old(self).constraints@.len() + 1,
            r is Ok,
            final(self).satisfied() <==> old(self).satisfied() && x.eval(
                old(self).assignment@,
                old(self).modulus,
            ) == y.eval(old(self).assignment@, old(self).modulus),
    {
        let ghost p = self.modulus;
        let ghost w = self.assignment@;
        let one = FieldVar { terms: Vec::new(), constant: 1 };
        let cb = dup_lc(x);
        let cc = dup_lc(y);
        let ghost c = Constraint { a: one, b: cb, c: cc };
        proof {
            assert(c.b.wf(p, w.len() as nat) && c.c.wf(p, w.len() as nat));
            assert(terms_sum(one.terms@, w) == 0);
            lemma_small_mod(1, p as nat);
            assert(c.a.eval(w, p) == 1);
            let xe = x.eval(w, p);
            let ye = y.eval(w, p);
            assert(c.b.eval(w, p) == xe && c.c.eval(w, p) == ye);
            lemma_mul_basics_4(xe);
            lemma_mod_twice(x.constant + terms_sum(x.terms@, w), p as int);
            assert((c.a.eval(w, p) * c.b.eval(w, p)) % (p as int) == xe);
            assert(c.holds(w, p) <==> xe == ye);
        }
        self.push_constraint(Constraint { a: one, b: cb, c: cc });
        Ok(())
    }

    /// Multiply two circuit variables: allocate the product as a fresh
    /// witness and register `(x) * (y) = (product)`.
    pub fn mul_vars(&mut self, x: &FieldVar, y: &FieldVar) -> (r: Result<
        FieldVar,
        SynthesisError,
    >)
        requires
            old(self).wf(),
            x.wf(old(self).modulus, old(self).assignment@.len() as nat),
            y.wf(old(self).modulus, old(self).assignment@.len() as nat),
        ensures
            final(self).wf(),
            final(self).extends(*old(self)),
            final(self).num_instance == old(self).num_instance,
            !old(self).witness_mode ==> r == Result::<FieldVar, SynthesisError>::Err(
                SynthesisError::AssignmentMissing,
            ) && *final(self) == *old(self),
            old(self).witness_mode ==> (r matches Ok(f) && f.wf(
                final(self).modulus,
                final(self).assignment@.len() as nat,
            ) && f.eval(final(self).assignment@, final(self).modulus) == (x.eval(
                old(self).assignment@,
                old(self).modulus,
            ) * y.eval(old(self).assignment@, old(self).modulus)) % (old(self).modulus as int)
                && (final(self).satisfied() <==> old(self).satisfied())),
    {
        if !self.witness_mode {
            return Err(SynthesisError::AssignmentMissing);
        }
        let ghost prev = *self;
        let ghost p = self.modulus;
        let ghost w0 = self.assignment@;
        let xe = self.eval_lc(x);
        let ye = self.eval_lc(y);
        let v = mul_mod(xe, ye, self.modulus);
        let f = match self.new_witness(v) {
            Ok(f) => f,
            Err(e) => {
                proof {
                    assert(false);
                }
                return Err(e);
            },
        };
        let ghost mid = *self;
        let ca = dup_lc(x);
        let cb = dup_lc(y);
        let cc = dup_lc(&f);
        let ghost c = Constraint { a: ca, b: cb, c: cc };
        proof {
            let w1 = self.assignment@;
            lemma_eval_prefix(*x, p, w0, w1);
            lemma_eval_prefix(*y, p, w0, w1);
            assert(c.a.eval(w1, p) == x.eval(w0, p));
            assert(c.b.eval(w1, p) == y.eval(w0, p));
            assert(c.c.eval(w1, p) == v);
            assert(c.holds(w1, p));
            assert(c.wf(p, w1.len() as nat));
        }
        self.push_constraint(Constraint { a: ca, b: cb, c: cc });
        proof {
            lemma_eval_prefix(f, p, mid.assignment@, self.assignment@);
        }
        Ok(f)
    }

    /// A boolean circuit variable that is 1 exactly when `x` is zero.
    ///
    /// Allocates the indicator `b` and an inverse helper `m`, and registers
    /// `(x) * (m) = (1 - b)` and `(x) * (b) = (0)` beside `b`'s booleanity.
    pub fn is_zero(&mut self, x: &FieldVar) -> (r: Result<BoolVar, SynthesisError>)
        requires
            old(self).wf(),
            x.wf(old(self).modulus, old(self).assignment@.len() as nat),
        ensures
            final(self).wf(),
            final(self).extends(*old(self)),
            final(self).num_instance == old(self).num_instance,
            !old(self).witness_mode ==> r == Result::<BoolVar, SynthesisError>::Err(
                SynthesisError::AssignmentMissing,
            ) && *final(self) == *old(self),
            old(self).witness_mode ==> (r matches Ok(b) && b.wf(
                final(self).assignment@.len() as nat,
            ) && b.bval(final(self).assignment@) == (if x.eval(
                old(self).assignment@,
                old(self).modulus,
            ) == 0 {
                1int
            } else {
                0int
            }) && (final(self).satisfied() <==> old(self).satisfied())),
    {
        if !self.witness_mode {
            return Err(SynthesisError::AssignmentMissing);
        }
        let ghost p = self.modulus;
        let ghost w0 = self.assignment@;
        let d = self.eval_lc(x);
        let bit = d == 0;
        let b = match self.new_bool_witness(bit) {
            Ok(b) => b,
            Err(e) => {
                proof {
                    assert(false);
                }
                return Err(e);
            },
        };
        let inv_val: u128 = if d == 0 {
            0
        } else {
            inv_mod(d, self.modulus)
        };
        let m = match self.new_witness(inv_val) {
            Ok(m) => m,
            Err(e) => {
                proof {
                    assert(false);
                }
                return Err(e);
            },
        };
        let ghost mid = *self;
        let ghost w1 = self.assignment@;
        // (x) * (m) = (1 - b)
        let ca1 = dup_lc(x);
        let cb1 = dup_lc(&m);
        let mut t1: Vec<Term> = Vec::new();
        t1.push(Term { coeff: self.modulus - 1, var: b.var });
        let cc1 = FieldVar { terms: t1, constant: 1 };
        let ghost c1 = Constraint { a: ca1, b: cb1, c: cc1 };
        proof {
            lemma_eval_prefix(*x, p, w0, w1);
            assert(c1.a.eval(w1, p) == d);
            assert(c1.b.eval(w1, p) == inv_val);
            assert(cc1.terms@ =~= seq![Term { coeff: (p - 1) as u128, var: b.var }]);
            lemma_terms_sum_single(Term { coeff: (p - 1) as u128, var: b.var }, w1);
            let bv = w1[b.var as int] as int;
            assert(c1.c.eval(w1, p) == (1 + (p - 1) * bv) % (p as int));
            if bit {
                assert(bv == 1);
                lemma_mul_basics_4((p - 1) as int);
                lemma_mod_self_0(p as int);
                assert(c1.c.eval(w1, p) == 0);
                lemma_mul_basics_3(inv_val as int);
                lemma_small_mod(0, p as nat);
                assert(c1.holds(w1, p));
            } else {
                assert(bv == 0);
                lemma_mul_basics_1((p - 1) as int);
                lemma_small_mod(1, p as nat);
                assert(c1.c.eval(w1, p) == 1);
                assert((d * inv_val) % (p as int) == 1);
                assert(c1.holds(w1, p));
            }
            assert(c1.wf(p, w1.len() as nat));
        }
        self.push_constraint(Constraint { a: ca1, b: cb1, c: cc1 });
        let ghost mid2 = *self;
        // (x) * (b) = (0)
        let ca2 = dup_lc(x);
        let cb2 = self.from_bool(&b);
        let cc2 = FieldVar { terms: Vec::new(), constant: 0 };
        let ghost c2 = Constraint { a: ca2, b: cb2, c: cc2 };
        proof {
            let w2 = self.assignment@;
            assert(w2 == w1);
            assert(c2.a.eval(w2, p) == d);
            assert(c2.b.eval(w2, p) == w2[b.var as int]);
            assert(terms_sum(cc2.terms@, w2) == 0);
            lemma_small_mod(0, p as nat);
            assert(c2.c.eval(w2, p) == 0);
            let bv = w2[b.var as int] as int;
            if bit {
                lemma_mul_basics_3(bv);
                assert(c2.holds(w2, p));
            } else {
                assert(bv == 0);
                lemma_mul_basics_1(d as int);
                assert(c2.holds(w2, p));
            }
            assert(c2.wf(p, w2.len() as nat));
        }
        self.push_constraint(Constraint { a: ca2, b: cb2, c: cc2 });
        Ok(b)
    }

    /// A boolean circuit variable that is 1 exactly when `x` equals `y`.
    pub fn is_eq(&mut self, x: &FieldVar, y: &FieldVar) -> (r: Result<BoolVar, SynthesisError>)
        requires
            old(self).wf(),
            x.wf(old(self).modulus, old(self).assignment@.len() as nat),
            y.wf(old(self).modulus, old(self).assignment@.len() as nat),
        ensures
            final(self).wf(),
            final(self).extends(*old(self)),
            final(self).num_instance == old(self).num_instance,
            !old(self).witness_mode ==> r == Result::<BoolVar, SynthesisError>::Err(
                SynthesisError::AssignmentMissing,
            ) && *final(self) == *old(self),
            old(self).witness_mode ==> (r matches Ok(b) && b.wf(
                final(self).assignment@.len() as nat,
            ) && b.bval(final(self).assignment@) == (if x.eval(
                old(self).assignment@,
                old(self).modulus,
            ) == y.eval(old(self).assignment@, old(self).modulus) {
                1int
            } else {
                0int
            }) && (final(self).satisfied() <==> old(self).satisfied())),
    {
        let ghost p = self.modulus;
        let ghost w0 = self.assignment@;
        let diff = self.lc_sub(x, y);
        proof {
            if self.witness_mode {
                let xe = x.eval(w0, p);
                let ye = y.eval(w0, p);
                lemma_eval_bound(*x, w0, p);
                lemma_eval_bound(*y, w0, p);
                lemma_sub_mod_eq_zero(xe, ye, p as int);
                assert(diff.eval(w0, p) == 0 <==> xe == ye);
                assert(diff.wf(p, w0.len() as nat));
            }
        }
        self.is_zero(&diff)
    }

    /// Evaluate every registered constraint under the current assignment.
    pub fn is_satisfied(&self) -> (r: bool)
        requires
            self.wf(),
        ensures
            r == self.satisfied(),
    {
        let ghost p = self.modulus;
        let ghost w = self.assignment@;
        let mut i: usize = 0;
        while i < self.constraints.len()
            invariant
                self.wf(),
                p == self.modulus,
                w == self.assignment@,
                i <= self.constraints@.len(),
                forall|j: int|
                    0 <= j < i ==> (#[trigger] self.constraints@[j]).holds(w, p),
            decreases self.constraints@.len() - i,
        {
            let c = &self.constraints[i];
            let va = self.eval_lc(&c.a);
            let vb = self.eval_lc(&c.b);
            let vc = self.eval_lc(&c.c);
            let prod = mul_mod(va, vb, self.modulus);
            if prod != vc {
                assert(!self.constraints@[i as int].holds(w, p));
                return false;
            }
            assert(self.constraints@[i as int].holds(w, p));
            i = i + 1;
        }
        true
    }
}

/// Negating each coefficient negates a term sum modulo `p`.
proof fn lemma_neg_terms_sum(ts: Seq<Term>, nts: Seq<Term>, w: Seq<u128>, p: u128)
    requires
        p > 0,
        nts.len() == ts.len(),
        forall|i: int|
            0 <= i < ts.len() ==> (#[trigger] nts[i]).var == ts[i].var && nts[i].coeff == (0
                - ts[i].coeff as int) % (p as int),
    ensures
        terms_sum(nts, w) % (p as int) == (0 - terms_sum(ts, w)) % (p as int),
    decreases ts.len(),
{
    if ts.len() == 0 {
        lemma_small_mod(0, p as nat);
    } else {
        lemma_neg_terms_sum(ts.drop_last(), nts.drop_last(), w, p);
        let sx = terms_sum(ts.drop_last(), w);
        let sn = terms_sum(nts.drop_last(), w);
        let c = ts.last().coeff as int;
        let nc = nts.last().coeff as int;
        let v = w[ts.last().var as int] as int;
        assert(nts.last().var == ts.last().var);
        assert(terms_sum(ts, w) == sx + c * v);
        assert(terms_sum(nts, w) == sn + nc * v);
        // nc * v == (-c * v) mod p
        lemma_mul_mod_noop_left(0 - c, v, p as int);
        assert((nc * v) % (p as int) == ((0 - c) * v) % (p as int)) by {
            assert(nc == (0 - c) % (p as int));
            lemma_mul_mod_noop_left(0 - c, v, p as int);
        }
        lemma_mul_is_distributive_sub_other_way(v, 0, c);
        assert((0 - c) * v == 0 - c * v);
        // (sn + nc*v) % p == (sn % p + (nc*v) % p) % p == ((-sx) % p + (-(c*v)) % p) % p
        lemma_add_mod_noop(sn, nc * v, p as int);
        lemma_add_mod_noop(0 - sx, 0 - c * v, p as int);
        assert(((0 - sx) + (0 - c * v)) % (p as int) == (0 - (sx + c * v)) % (p as int));
    }
}

} // verus!
