use vstd::prelude::*;
use vstd::arithmetic::div_mod::*;
use crate::errors::NovaError;
use crate::field::{values, PrimeField};

verus! {

/// A variable of a constraint system: its place in the assignment.
/// Place 0 holds the constant one.
#[derive(Clone, Copy, Debug, PartialEq, Eq)]
pub struct Variable {
    pub index: usize,
}

/// A sum of variables, each with a coefficient.
pub struct LinearCombination<F: PrimeField> {
    pub terms: Vec<(F, usize)>,
}

/// A constraint `a * b = c` between three linear combinations.
pub struct Constraint<F: PrimeField> {
    pub a: LinearCombination<F>,
    pub b: LinearCombination<F>,
    pub c: LinearCombination<F>,
}

/// A rank-1 constraint system together with an assignment of its
/// variables.
pub struct ConstraintSystem<F: PrimeField> {
    pub witness: Vec<F>,
    pub constraints: Vec<Constraint<F>>,
}

/// A constraint as the contracts see it: three sequences of terms, each
/// term a coefficient and the place of a variable.
pub struct ConstraintView {
    pub a: Seq<(int, int)>,
    pub b: Seq<(int, int)>,
    pub c: Seq<(int, int)>,
}

/// The value of a linear combination under the assignment `w`, as an
/// integer that is not reduced.
pub open spec fn lc_sum(lc: Seq<(int, int)>, w: Seq<int>) -> int
    decreases lc.len(),
{
    if lc.len() == 0 {
        0
    } else {
        lc_sum(lc.drop_last(), w) + lc.last().0 * w[lc.last().1]
    }
}

/// Every variable of the linear combination is one of the first `n`.
pub open spec fn lc_in_range(lc: Seq<(int, int)>, n: int) -> bool {
    forall|i: int| 0 <= i < lc.len() ==> 0 <= (#[trigger] lc[i]).1 < n
}

pub open spec fn constraint_in_range(c: ConstraintView, n: int) -> bool {
    lc_in_range(c.a, n) && lc_in_range(c.b, n) && lc_in_range(c.c, n)
}

/// The assignment `w` meets the constraint modulo `p`.
pub open spec fn holds(p: int, c: ConstraintView, w: Seq<int>) -> bool {
    (lc_sum(c.a, w) * lc_sum(c.b, w)) % p == lc_sum(c.c, w) % p
}

/// The assignment `w` meets every constraint modulo `p`.
pub open spec fn satisfied(p: int, cs: Seq<ConstraintView>, w: Seq<int>) -> bool {
    forall|i: int| 0 <= i < cs.len() ==> holds(p, #[trigger] cs[i], w)
}

/// The empty linear combination.
pub open spec fn zero_view() -> Seq<(int, int)> {
    Seq::empty()
}

/// The variable at place `x`.
pub open spec fn var_view(x: int) -> Seq<(int, int)> {
    seq![(1int, x)]
}

/// The variable at `x` minus the variable at `y`, with `-1` written as
/// the residue `p - 1`.
pub open spec fn diff_view(p: int, x: int, y: int) -> Seq<(int, int)> {
    seq![(1int, x), (p - 1, y)]
}

pub proof fn lemma_lc_push(lc: Seq<(int, int)>, t: (int, int), w: Seq<int>)
    ensures
        lc_sum(lc.push(t), w) == lc_sum(lc, w) + t.0 * w[t.1],
{
    assert(lc.push(t).drop_last() =~= lc);
}

/// The values of the three short forms of a linear combination.
pub proof fn lemma_lc_short(p: int, x: int, y: int, w: Seq<int>)
    requires
        p > 1,
    ensures
        lc_sum(zero_view(), w) == 0,
        lc_sum(var_view(x), w) == w[x],
        lc_sum(diff_view(p, x, y), w) % p == (w[x] - w[y]) % p,
{
    let e = Seq::<(int, int)>::empty();
    assert(var_view(x) =~= e.push((1int, x)));
    lemma_lc_push(e, (1int, x), w);
    assert(diff_view(p, x, y) =~= e.push((1int, x)).push((p - 1, y)));
    lemma_lc_push(e.push((1int, x)), (p - 1, y), w);
    assert(w[x] + (p - 1) * w[y] == p * w[y] + (w[x] - w[y])) by (nonlinear_arith);
    lemma_mod_multiples_vanish(w[y], w[x] - w[y], p);
}

/// A linear combination does not see a variable added behind its own.
pub proof fn lemma_lc_extend(lc: Seq<(int, int)>, w: Seq<int>, v: int)
    requires
        lc_in_range(lc, w.len() as int),
    ensures
        lc_sum(lc, w.push(v)) == lc_sum(lc, w),
    decreases lc.len(),
{
    if lc.len() > 0 {
        assert(lc.last() == lc[lc.len() - 1]);
        assert forall|i: int| 0 <= i < lc.drop_last().len() implies 0 <= (
        #[trigger] lc.drop_last()[i]).1 < w.len() by {
            assert(lc.drop_last()[i] == lc[i]);
        }
        lemma_lc_extend(lc.drop_last(), w, v);
    }
}

/// Constraints that hold keep holding when a variable is added.
pub proof fn lemma_satisfied_extend(p: int, cs: Seq<ConstraintView>, w: Seq<int>, v: int)
    requires
        forall|i: int| 0 <= i < cs.len() ==> constraint_in_range(#[trigger] cs[i], w.len() as int),
    ensures
        satisfied(p, cs, w) == satisfied(p, cs, w.push(v)),
        forall|i: int|
            0 <= i < cs.len() ==> holds(p, #[trigger] cs[i], w) == holds(p, cs[i], w.push(v)),
{
    assert forall|i: int| 0 <= i < cs.len() implies holds(p, #[trigger] cs[i], w) == holds(
        p,
        cs[i],
        w.push(v),
    ) by {
        assert(constraint_in_range(cs[i], w.len() as int));
        lemma_lc_extend(cs[i].a, w, v);
        lemma_lc_extend(cs[i].b, w, v);
        lemma_lc_extend(cs[i].c, w, v);
    }
}

/// A constraint whose three sides are congruent to `x`, `y` and `z` holds
/// exactly when `x * y` is congruent to `z`.
pub proof fn lemma_holds_congruent(p: int, c: ConstraintView, w: Seq<int>, x: int, y: int, z: int)
    requires
        p > 1,
        lc_sum(c.a, w) % p == x % p,
        lc_sum(c.b, w) % p == y % p,
        lc_sum(c.c, w) % p == z % p,
    ensures
        holds(p, c, w) == ((x * y) % p == z % p),
{
    lemma_mul_mod_noop(lc_sum(c.a, w), lc_sum(c.b, w), p);
    lemma_mul_mod_noop(x, y, p);
}

impl<F: PrimeField> LinearCombination<F> {
    pub open spec fn view(&self) -> Seq<(int, int)> {
        Seq::new(self.terms@.len(), |i: int| (self.terms@[i].0.value(), self.terms@[i].1 as int))
    }

    pub fn zero() -> (r: Self)
        ensures
            r@ == zero_view(),
    {
        let r = LinearCombination { terms: Vec::new() };
        proof {
            assert(r@ =~= zero_view());
        }
        r
    }

    /// This combination plus `coeff` times the variable.
    pub fn add_term(self, coeff: F, var: Variable) -> (r: Self)
        ensures
            r@ == self@.push((coeff.value(), var.index as int)),
    {
        let ghost before = self@;
        let mut terms = self.terms;
        terms.push((coeff, var.index));
        let r = LinearCombination { terms };
        proof {
            assert(r@ =~= before.push((coeff.value(), var.index as int)));
        }
        r
    }

    /// The variable alone.
    pub fn variable(var: Variable) -> (r: Self)
        ensures
            r@ == var_view(var.index as int),
    {
        let r = Self::zero().add_term(F::one(), var);
        proof {
            assert(r@ =~= var_view(var.index as int));
        }
        r
    }

    /// The variable `x` minus the variable `y`.
    pub fn difference(x: Variable, y: Variable) -> (r: Self)
        ensures
            r@ == diff_view(F::modulus(), x.index as int, y.index as int),
    {
        let minus_one = F::zero().sub(&F::one());
        proof {
            F::lemma_modulus();
            lemma_fundamental_div_mod_converse(-1, F::modulus(), -1, F::modulus() - 1);
        }
        let r = Self::zero().add_term(F::one(), x).add_term(minus_one, y);
        proof {
            assert(r@ =~= diff_view(F::modulus(), x.index as int, y.index as int));
        }
        r
    }

    /// The value of this combination under the assignment `w`.
    pub fn eval(&self, w: &[F]) -> (r: F)
        requires
            lc_in_range(self@, w@.len() as int),
        ensures
            r.value() == lc_sum(self@, values(w@)) % F::modulus(),
    {
        let mut acc = F::zero();
        let mut i: usize = 0;
        proof {
            F::lemma_modulus();
            lemma_small_mod(0, F::modulus() as nat);
        }
        while i < self.terms.len()
            invariant
                i <= self.terms@.len(),
                F::modulus() > 1,
                lc_in_range(self@, w@.len() as int),
                acc.value() == lc_sum(self@.take(i as int), values(w@)) % F::modulus(),
            decreases self.terms@.len() - i,
        {
            proof {
                assert(0 <= self@[i as int].1 < w@.len());
            }
            let t = self.terms[i].0.mul(&w[self.terms[i].1]);
            acc = acc.add(&t);
            proof {
                let ws = values(w@);
                assert(self@.take(i + 1).drop_last() =~= self@.take(i as int));
                lemma_add_mod_noop(
                    lc_sum(self@.take(i as int), ws),
                    self@[i as int].0 * ws[self@[i as int].1],
                    F::modulus(),
                );
            }
            i += 1;
        }
        proof {
            assert(self@.take(i as int) =~= self@);
        }
        acc
    }
}

impl<F: PrimeField> Constraint<F> {
    pub open spec fn view(&self) -> ConstraintView {
        ConstraintView { a: self.a@, b: self.b@, c: self.c@ }
    }
}

impl<F: PrimeField> ConstraintSystem<F> {
    /// The residues assigned to the variables.
    pub open spec fn assignment(&self) -> Seq<int> {
        values(self.witness@)
    }

    /// The constraints enforced so far.
    pub open spec fn constraint_views(&self) -> Seq<ConstraintView> {
        Seq::new(self.constraints@.len(), |i: int| self.constraints@[i]@)
    }

    /// Place 0 holds one, and every constraint speaks of variables that
    /// exist.
    pub open spec fn well_formed(&self) -> bool {
        &&& self.witness@.len() >= 1
        &&& self.witness@[0].value() == 1
        &&& forall|i: int|
            0 <= i < self.constraints@.len() ==> constraint_in_range(
                #[trigger] self.constraint_views()[i],
                self.witness@.len() as int,
            )
    }

    /// The assignment meets every constraint.
    pub open spec fn is_satisfied_spec(&self) -> bool {
        satisfied(F::modulus(), self.constraint_views(), self.assignment())
    }

    /// A system with the constant one and no constraint.
    pub fn new() -> (r: Self)
        ensures
            r.well_formed(),
            r.assignment() == seq![1int],
            r.constraint_views() == Seq::<ConstraintView>::empty(),
    {
        let mut witness: Vec<F> = Vec::new();
        witness.push(F::one());
        let r = ConstraintSystem { witness, constraints: Vec::new() };
        proof {
            assert(r.assignment() =~= seq![1int]);
            assert(r.constraint_views() =~= Seq::<ConstraintView>::empty());
        }
        r
    }

    /// The variable that holds the constant one.
    pub fn one() -> (r: Variable)
        ensures
            r.index == 0,
    {
        Variable { index: 0 }
    }

    /// Adds a variable with the given value.
    ///
    /// Fails with `AssignmentMissing`, and changes nothing, exactly when
    /// there is no value.
    pub fn alloc_variable(&mut self, value: Option<F>) -> (r: Result<Variable, NovaError>)
        requires
            old(self).well_formed(),
        ensures
            r is Ok <==> value is Some,
            r matches Err(e) ==> e == NovaError::AssignmentMissing && *final(self) == *old(self),
            r matches Ok(var) ==> {
                &&& var.index == old(self).witness@.len()
                &&& final(self).witness@ == old(self).witness@.push(value.unwrap())
                &&& final(self).assignment() == old(self).assignment().push(
                    value.unwrap().value(),
                )
                &&& final(self).constraints@ == old(self).constraints@
                &&& final(self).well_formed()
                &&& final(self).is_satisfied_spec() == old(self).is_satisfied_spec()
            },
    {
        match value {
            None => Err(NovaError::AssignmentMissing),
            Some(v) => {
                let index = self.witness.len();
                let ghost before = *self;
                self.witness.push(v);
                proof {
                    assert(self.assignment() =~= before.assignment().push(v.value()));
                    assert(self.constraint_views() =~= before.constraint_views());
                    lemma_satisfied_extend(
                        F::modulus(),
                        before.constraint_views(),
                        before.assignment(),
                        v.value(),
                    );
                }
                Ok(Variable { index })
            },
        }
    }

    /// Adds the constraint `a * b = c`.
    pub fn enforce(
        &mut self,
        a: LinearCombination<F>,
        b: LinearCombination<F>,
        c: LinearCombination<F>,
    )
        requires
            old(self).well_formed(),
            lc_in_range(a@, old(self).witness@.len() as int),
            lc_in_range(b@, old(self).witness@.len() as int),
            lc_in_range(c@, old(self).witness@.len() as int),
        ensures
            final(self).witness@ == old(self).witness@,
            final(self).constraint_views() == old(self).constraint_views().push(
                (ConstraintView { a: a@, b: b@, c: c@ }),
            ),
            final(self).well_formed(),
            final(self).is_satisfied_spec() == (old(self).is_satisfied_spec() && holds(
                F::modulus(),
                (ConstraintView { a: a@, b: b@, c: c@ }),
                old(self).assignment(),
            )),
    {
        let ghost before = *self;
        let ghost cv = ConstraintView { a: a@, b: b@, c: c@ };
        self.constraints.push(Constraint { a, b, c });
        proof {
            assert(self.constraint_views() =~= before.constraint_views().push(cv));
            let p = F::modulus();
            let w = before.assignment();
            if self.is_satisfied_spec() {
                assert(holds(p, self.constraint_views()[before.constraints@.len() as int], w));
                assert forall|i: int| 0 <= i < before.constraint_views().len() implies holds(
                    p,
                    #[trigger] before.constraint_views()[i],
                    w,
                ) by {
                    assert(holds(p, self.constraint_views()[i], w));
                }
            }
            assert forall|i: int| 0 <= i < self.constraints@.len() implies constraint_in_range(
                #[trigger] self.constraint_views()[i],
                self.witness@.len() as int,
            ) by {
                if i < before.constraints@.len() {
                    assert(constraint_in_range(
                        before.constraint_views()[i],
                        before.witness@.len() as int,
                    ));
                }
            }
        }
    }

    /// Whether the assignment meets every constraint.
    pub fn is_satisfied(&self) -> (r: bool)
        requires
            self.well_formed(),
        ensures
            r == self.is_satisfied_spec(),
    {
        let mut i: usize = 0;
        proof {
            F::lemma_modulus();
        }
        while i < self.constraints.len()
            invariant
                i <= self.constraints@.len(),
                self.well_formed(),
                F::modulus() > 1,
                forall|j: int|
                    0 <= j < i ==> holds(
                        F::modulus(),
                        #[trigger] self.constraint_views()[j],
                        self.assignment(),
                    ),
            decreases self.constraints@.len() - i,
        {
            proof {
                assert(constraint_in_range(
                    self.constraint_views()[i as int],
                    self.witness@.len() as int,
                ));
            }
            let c = &self.constraints[i];
            let a = c.a.eval(self.witness.as_slice());
            let b = c.b.eval(self.witness.as_slice());
            let d = c.c.eval(self.witness.as_slice());
            let ab = a.mul(&b);
            proof {
                let w = self.assignment();
                lemma_mul_mod_noop(lc_sum(c.a@, w), lc_sum(c.b@, w), F::modulus());
                d.lemma_value_range();
                ab.lemma_value_range();
                lemma_small_mod(d.value() as nat, F::modulus() as nat);
            }
            if !ab.eq(&d) {
                proof {
                    assert(!holds(F::modulus(), self.constraint_views()[i as int], self.assignment()));
                }
                return false;
            }
            i += 1;
        }
        true
    }
}

} // verus!
