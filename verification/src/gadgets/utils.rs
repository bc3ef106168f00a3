use vstd::prelude::*;
use vstd::arithmetic::div_mod::*;
use crate::errors::NovaError;
use crate::field::{
    lemma_congruent_difference,
    lemma_inverse_unique,
    lemma_no_zero_divisors,
    lemma_residue_zero,
    PrimeField,
};
use crate::reduction::{inv_mod, two_to};
use crate::r1cs::{
    diff_view,
    holds,
    lc_in_range,
    lc_sum,
    lemma_holds_congruent,
    lemma_lc_push,
    lemma_lc_short,
    var_view,
    zero_view,
    ConstraintSystem,
    ConstraintView,
    LinearCombination,
    Variable,
};

verus! {

/// A variable that stands for a field element, with its value if known.
#[derive(Clone, Copy)]
pub struct AllocatedNum<F: PrimeField> {
    pub value: Option<F>,
    pub variable: Variable,
}

/// A variable that is constrained to be 0 or 1, with its value if known.
#[derive(Clone, Copy, Debug, PartialEq, Eq)]
pub struct AllocatedBit {
    pub value: Option<bool>,
    pub variable: Variable,
}

/// The residue that stands for a bit.
pub open spec fn bit_int(b: bool) -> int {
    if b {
        1
    } else {
        0
    }
}

/// The residue that a number carries, or `None`.
pub open spec fn num_value<F: PrimeField>(n: AllocatedNum<F>) -> Option<int> {
    match n.value {
        Some(v) => Some(v.value()),
        None => None,
    }
}

/// The number has a value, and the assignment `w` gives it to its variable.
pub open spec fn num_consistent<F: PrimeField>(n: AllocatedNum<F>, w: Seq<int>) -> bool {
    n.variable.index < w.len() && n.value is Some && w[n.variable.index as int]
        == n.value.unwrap().value()
}

/// The bit has a value, and the assignment `w` gives it to its variable.
pub open spec fn bit_consistent(b: AllocatedBit, w: Seq<int>) -> bool {
    b.variable.index < w.len() && b.value is Some && w[b.variable.index as int] == bit_int(
        b.value.unwrap(),
    )
}

/// `after` is `before` with the values `vals` and the constraints `cons`
/// added behind what was there.
pub open spec fn grown<F: PrimeField>(
    before: ConstraintSystem<F>,
    after: ConstraintSystem<F>,
    vals: Seq<int>,
    cons: Seq<ConstraintView>,
) -> bool {
    after.well_formed() && after.assignment() == before.assignment() + vals
        && after.constraint_views() == before.constraint_views() + cons
}

/// The constraint `(1 - b) * b = 0`.
pub open spec fn boolean_constraint(p: int, b: int) -> ConstraintView {
    ConstraintView { a: diff_view(p, 0, b), b: var_view(b), c: zero_view() }
}

/// The constraint `x * x = 0`.
pub open spec fn square_is_zero(x: int) -> ConstraintView {
    ConstraintView { a: var_view(x), b: var_view(x), c: zero_view() }
}

/// The constraint `x * x = 1`.
pub open spec fn square_is_one(x: int) -> ConstraintView {
    ConstraintView { a: var_view(x), b: var_view(x), c: var_view(0) }
}

/// The constraint `(a - b) * cond = c - b`.
pub open spec fn select_constraint(p: int, a: int, b: int, cond: int, c: int) -> ConstraintView {
    ConstraintView { a: diff_view(p, a, b), b: var_view(cond), c: diff_view(p, c, b) }
}

/// The constraint `0 * 0 = x - y`.
pub open spec fn same_constraint(p: int, x: int, y: int) -> ConstraintView {
    ConstraintView { a: zero_view(), b: zero_view(), c: diff_view(p, x, y) }
}

impl<F: PrimeField> AllocatedNum<F> {
    /// Adds a variable for a number.
    ///
    /// Fails with `AssignmentMissing`, and changes nothing, exactly when
    /// there is no value.
    pub fn allocate(cs: &mut ConstraintSystem<F>, value: Option<F>) -> (r: Result<Self, NovaError>)
        requires
            old(cs).well_formed(),
        ensures
            r is Ok <==> value is Some,
            r matches Err(e) ==> e == NovaError::AssignmentMissing && *final(cs) == *old(cs),
            r matches Ok(n) ==> n.value == value && n.variable.index == old(cs).witness@.len()
                && grown(
                *old(cs),
                *final(cs),
                seq![value.unwrap().value()],
                Seq::<ConstraintView>::empty(),
            ) && final(cs).is_satisfied_spec() == old(cs).is_satisfied_spec() && num_consistent(
                n,
                final(cs).assignment(),
            ),
    {
        match cs.alloc_variable(value) {
            Ok(variable) => {
                proof {
                    assert(cs.assignment() =~= old(cs).assignment() + seq![value.unwrap().value()]);
                    assert(cs.constraint_views() =~= old(cs).constraint_views()
                        + Seq::<ConstraintView>::empty());
                }
                Ok(AllocatedNum { value, variable })
            },
            Err(e) => Err(e),
        }
    }

    pub fn get_value(&self) -> (r: Option<F>)
        ensures
            r == self.value,
    {
        self.value
    }

    pub fn get_variable(&self) -> (r: Variable)
        ensures
            r == self.variable,
    {
        self.variable
    }
}

impl AllocatedBit {
    /// Adds a variable for a bit and constrains it to be 0 or 1.
    ///
    /// Fails with `AssignmentMissing`, and changes nothing, exactly when
    /// there is no value.
    pub fn allocate<F: PrimeField>(cs: &mut ConstraintSystem<F>, value: Option<bool>) -> (r: Result<
        Self,
        NovaError,
    >)
        requires
            old(cs).well_formed(),
        ensures
            r is Ok <==> value is Some,
            r matches Err(e) ==> e == NovaError::AssignmentMissing && *final(cs) == *old(cs),
            r matches Ok(b) ==> b.value == value && b.variable.index == old(cs).witness@.len()
                && grown(
                *old(cs),
                *final(cs),
                seq![bit_int(value.unwrap())],
                seq![boolean_constraint(F::modulus(), old(cs).witness@.len() as int)],
            ) && final(cs).is_satisfied_spec() == old(cs).is_satisfied_spec() && bit_consistent(
                b,
                final(cs).assignment(),
            ),
    {
        let v = match value {
            None => {
                return Err(NovaError::AssignmentMissing);
            },
            Some(true) => F::one(),
            Some(false) => F::zero(),
        };
        let variable = match cs.alloc_variable(Some(v)) {
            Ok(x) => x,
            Err(e) => {
                return Err(e);
            },
        };
        let one = ConstraintSystem::<F>::one();
        proof {
            F::lemma_modulus();
            lemma_in_range(F::modulus(), 0, variable.index as int, cs.witness@.len() as int);
        }
        cs.enforce(
            LinearCombination::difference(one, variable),
            LinearCombination::variable(variable),
            LinearCombination::zero(),
        );
        proof {
            let p = F::modulus();
            let b = variable.index as int;
            let w = cs.assignment();
            assert(w =~= old(cs).assignment() + seq![bit_int(value.unwrap())]);
            assert(cs.constraint_views() =~= old(cs).constraint_views() + seq![
                boolean_constraint(p, b),
            ]);
            lemma_lc_short(p, 0, b, w);
            lemma_lc_short(p, b, b, w);
            lemma_holds_congruent(p, boolean_constraint(p, b), w, 1 - w[b], w[b], 0);
            assert((1 - w[b]) * w[b] == 0) by (nonlinear_arith)
                requires
                    w[b] == 0 || w[b] == 1,
            ;
        }
        Ok(AllocatedBit { value, variable })
    }

    pub fn get_value(&self) -> (r: Option<bool>)
        ensures
            r == self.value,
    {
        self.value
    }

    pub fn get_variable(&self) -> (r: Variable)
        ensures
            r == self.variable,
    {
        self.variable
    }
}

/// The short forms of a linear combination speak of the variables that
/// they are built from.
pub proof fn lemma_in_range(p: int, x: int, y: int, n: int)
    requires
        0 <= x < n,
        0 <= y < n,
    ensures
        lc_in_range(zero_view(), n),
        lc_in_range(var_view(x), n),
        lc_in_range(diff_view(p, x, y), n),
{
}

/// Allocates a variable that is set to zero, and enforces `z * z = 0`.
pub fn alloc_zero<F: PrimeField>(cs: &mut ConstraintSystem<F>) -> (r: Result<
    AllocatedNum<F>,
    NovaError,
>)
    requires
        old(cs).well_formed(),
    ensures
        r matches Ok(z) && num_value(z) == Some(0int) && z.variable.index == old(cs).witness@.len() && grown(
            *old(cs),
            *final(cs),
            seq![0int],
            seq![square_is_zero(old(cs).witness@.len() as int)],
        ) && final(cs).is_satisfied_spec() == old(cs).is_satisfied_spec() && num_consistent(
            z,
            final(cs).assignment(),
        ),
{
    let zero = match AllocatedNum::allocate(cs, Some(F::zero())) {
        Ok(n) => n,
        Err(e) => {
            return Err(e);
        },
    };
    let ghost mid = *cs;
    proof {
        lemma_in_range(F::modulus(), zero.variable.index as int, 0, cs.witness@.len() as int);
    }
    cs.enforce(
        LinearCombination::variable(zero.get_variable()),
        LinearCombination::variable(zero.get_variable()),
        LinearCombination::zero(),
    );
    proof {
        let p = F::modulus();
        F::lemma_modulus();
        let z = zero.variable.index as int;
        let w = cs.assignment();
        assert(w =~= old(cs).assignment() + seq![0int]);
        assert(cs.constraint_views() =~= old(cs).constraint_views() + seq![square_is_zero(z)]);
        lemma_lc_short(p, z, z, w);
        lemma_holds_congruent(p, square_is_zero(z), w, w[z], w[z], 0);
        assert(w[z] * w[z] == 0) by (nonlinear_arith)
            requires
                w[z] == 0,
        ;
    }
    Ok(zero)
}

/// Allocates a variable that is set to one, and enforces `o * o = 1`.
pub fn alloc_one<F: PrimeField>(cs: &mut ConstraintSystem<F>) -> (r: Result<
    AllocatedNum<F>,
    NovaError,
>)
    requires
        old(cs).well_formed(),
    ensures
        r matches Ok(o) && num_value(o) == Some(1int) && o.variable.index == old(cs).witness@.len() && grown(
            *old(cs),
            *final(cs),
            seq![1int],
            seq![square_is_one(old(cs).witness@.len() as int)],
        ) && final(cs).is_satisfied_spec() == old(cs).is_satisfied_spec() && num_consistent(
            o,
            final(cs).assignment(),
        ),
{
    let one = match AllocatedNum::allocate(cs, Some(F::one())) {
        Ok(n) => n,
        Err(e) => {
            return Err(e);
        },
    };
    proof {
        lemma_in_range(F::modulus(), one.variable.index as int, 0, cs.witness@.len() as int);
    }
    cs.enforce(
        LinearCombination::variable(one.get_variable()),
        LinearCombination::variable(one.get_variable()),
        LinearCombination::variable(ConstraintSystem::<F>::one()),
    );
    proof {
        let p = F::modulus();
        F::lemma_modulus();
        let o = one.variable.index as int;
        let w = cs.assignment();
        assert(w =~= old(cs).assignment() + seq![1int]);
        assert(cs.constraint_views() =~= old(cs).constraint_views() + seq![square_is_one(o)]);
        lemma_lc_short(p, o, o, w);
        lemma_lc_short(p, 0, 0, w);
        lemma_holds_congruent(p, square_is_one(o), w, w[o], w[o], w[0]);
        assert(w[o] * w[o] == 1) by (nonlinear_arith)
            requires
                w[o] == 1,
        ;
    }
    Ok(one)
}

/// Allocates a bit that is set to false, and enforces `f * f = 0`.
pub fn alloc_false<F: PrimeField>(cs: &mut ConstraintSystem<F>) -> (r: Result<
    AllocatedBit,
    NovaError,
>)
    requires
        old(cs).well_formed(),
    ensures
        r matches Ok(f) && f.value == Some(false) && f.variable.index == old(cs).witness@.len() && grown(
            *old(cs),
            *final(cs),
            seq![0int],
            seq![
                boolean_constraint(F::modulus(), old(cs).witness@.len() as int),
                square_is_zero(old(cs).witness@.len() as int),
            ],
        ) && final(cs).is_satisfied_spec() == old(cs).is_satisfied_spec() && bit_consistent(
            f,
            final(cs).assignment(),
        ),
{
    let bit = match AllocatedBit::allocate(cs, Some(false)) {
        Ok(b) => b,
        Err(e) => {
            return Err(e);
        },
    };
    proof {
        lemma_in_range(F::modulus(), bit.variable.index as int, 0, cs.witness@.len() as int);
    }
    cs.enforce(
        LinearCombination::variable(bit.get_variable()),
        LinearCombination::variable(bit.get_variable()),
        LinearCombination::zero(),
    );
    proof {
        let p = F::modulus();
        F::lemma_modulus();
        let x = bit.variable.index as int;
        let w = cs.assignment();
        assert(cs.constraint_views() =~= old(cs).constraint_views() + seq![
            boolean_constraint(p, x),
            square_is_zero(x),
        ]);
        lemma_lc_short(p, x, x, w);
        lemma_holds_congruent(p, square_is_zero(x), w, w[x], w[x], 0);
        assert(w[x] * w[x] == 0) by (nonlinear_arith)
            requires
                w[x] == 0,
        ;
    }
    Ok(bit)
}

/// Allocates a bit that is set to true, and enforces `t * t = 1`.
pub fn alloc_true<F: PrimeField>(cs: &mut ConstraintSystem<F>) -> (r: Result<
    AllocatedBit,
    NovaError,
>)
    requires
        old(cs).well_formed(),
    ensures
        r matches Ok(t) && t.value == Some(true) && t.variable.index == old(cs).witness@.len() && grown(
            *old(cs),
            *final(cs),
            seq![1int],
            seq![
                boolean_constraint(F::modulus(), old(cs).witness@.len() as int),
                square_is_one(old(cs).witness@.len() as int),
            ],
        ) && final(cs).is_satisfied_spec() == old(cs).is_satisfied_spec() && bit_consistent(
            t,
            final(cs).assignment(),
        ),
{
    let bit = match AllocatedBit::allocate(cs, Some(true)) {
        Ok(b) => b,
        Err(e) => {
            return Err(e);
        },
    };
    proof {
        lemma_in_range(F::modulus(), bit.variable.index as int, 0, cs.witness@.len() as int);
    }
    cs.enforce(
        LinearCombination::variable(bit.get_variable()),
        LinearCombination::variable(bit.get_variable()),
        LinearCombination::variable(ConstraintSystem::<F>::one()),
    );
    proof {
        let p = F::modulus();
        F::lemma_modulus();
        let x = bit.variable.index as int;
        let w = cs.assignment();
        assert(cs.constraint_views() =~= old(cs).constraint_views() + seq![
            boolean_constraint(p, x),
            square_is_one(x),
        ]);
        lemma_lc_short(p, x, x, w);
        lemma_lc_short(p, 0, 0, w);
        lemma_holds_congruent(p, square_is_one(x), w, w[x], w[x], w[0]);
        assert(w[x] * w[x] == 1) by (nonlinear_arith)
            requires
                w[x] == 1,
        ;
    }
    Ok(bit)
}

/// Under `w` the variable at `c` is the one at `a` where the one at `cond`
/// is 1, and the one at `b` where it is 0.
pub open spec fn picks(w: Seq<int>, a: int, b: int, cond: int, c: int) -> bool {
    (w[cond] == 1 && w[c] == w[a]) || (w[cond] == 0 && w[c] == w[b])
}

/// An assignment that picks as the condition says meets the selection
/// constraint.
pub proof fn lemma_select_holds(p: int, w: Seq<int>, a: int, b: int, cond: int, c: int)
    requires
        p > 1,
        picks(w, a, b, cond, c),
    ensures
        holds(p, select_constraint(p, a, b, cond, c), w),
{
    lemma_lc_short(p, a, b, w);
    lemma_lc_short(p, cond, cond, w);
    lemma_lc_short(p, c, b, w);
    lemma_holds_congruent(
        p,
        select_constraint(p, a, b, cond, c),
        w,
        w[a] - w[b],
        w[cond],
        w[c] - w[b],
    );
    assert((w[a] - w[b]) * w[cond] == w[c] - w[b]) by (nonlinear_arith)
        requires
            picks(w, a, b, cond, c),
    ;
}

/// Allocates `value` and enforces `(a - b) * cond = c - b` on the new
/// variable `c`.
fn select_into<F: PrimeField>(
    cs: &mut ConstraintSystem<F>,
    a: Variable,
    b: Variable,
    cond: Variable,
    value: Option<F>,
) -> (r: Result<AllocatedNum<F>, NovaError>)
    requires
        old(cs).well_formed(),
        a.index < old(cs).witness@.len(),
        b.index < old(cs).witness@.len(),
        cond.index < old(cs).witness@.len(),
    ensures
        r is Ok <==> value is Some,
        r matches Err(e) ==> e == NovaError::AssignmentMissing && *final(cs) == *old(cs),
        r matches Ok(c) ==> {
            let n = old(cs).witness@.len() as int;
            &&& c.value == value
            &&& c.variable.index == n
            &&& grown(
                *old(cs),
                *final(cs),
                seq![value.unwrap().value()],
                seq![
                    select_constraint(
                        F::modulus(),
                        a.index as int,
                        b.index as int,
                        cond.index as int,
                        n,
                    ),
                ],
            )
            &&& num_consistent(c, final(cs).assignment())
            &&& picks(
                final(cs).assignment(),
                a.index as int,
                b.index as int,
                cond.index as int,
                n,
            ) ==> final(cs).is_satisfied_spec() == old(cs).is_satisfied_spec()
        },
{
    let c = match AllocatedNum::allocate(cs, value) {
        Ok(n) => n,
        Err(e) => {
            return Err(e);
        },
    };
    proof {
        let n = cs.witness@.len() as int;
        lemma_in_range(F::modulus(), a.index as int, b.index as int, n);
        lemma_in_range(F::modulus(), cond.index as int, cond.index as int, n);
        lemma_in_range(F::modulus(), c.variable.index as int, b.index as int, n);
    }
    cs.enforce(
        LinearCombination::difference(a, b),
        LinearCombination::variable(cond),
        LinearCombination::difference(c.get_variable(), b),
    );
    proof {
        let p = F::modulus();
        F::lemma_modulus();
        let n = old(cs).witness@.len() as int;
        let w = cs.assignment();
        assert(cs.constraint_views() =~= old(cs).constraint_views() + seq![
            select_constraint(p, a.index as int, b.index as int, cond.index as int, n),
        ]);
        if picks(w, a.index as int, b.index as int, cond.index as int, n) {
            lemma_select_holds(p, w, a.index as int, b.index as int, cond.index as int, n);
        }
    }
    Ok(c)
}

/// What a selection between two optional values gives: the first where
/// the condition is known to be true, else the second.
pub open spec fn select_spec<T>(a: Option<T>, b: Option<T>, cond: Option<bool>) -> Option<T> {
    if cond == Some(true) {
        a
    } else {
        b
    }
}

/// `c = a` if the condition is true, else `c = b`, enforced by
/// `(a - b) * cond = c - b`.
///
/// Fails with `AssignmentMissing`, and changes nothing, exactly when the
/// value to pick is missing.
pub fn conditionally_select<F: PrimeField>(
    cs: &mut ConstraintSystem<F>,
    a: &AllocatedNum<F>,
    b: &AllocatedNum<F>,
    condition: &AllocatedBit,
) -> (r: Result<AllocatedNum<F>, NovaError>)
    requires
        old(cs).well_formed(),
        a.variable.index < old(cs).witness@.len(),
        b.variable.index < old(cs).witness@.len(),
        condition.variable.index < old(cs).witness@.len(),
    ensures
        r is Ok <==> select_spec(a.value, b.value, condition.value) is Some,
        r matches Err(e) ==> e == NovaError::AssignmentMissing && *final(cs) == *old(cs),
        r matches Ok(c) ==> {
            let n = old(cs).witness@.len() as int;
            &&& c.value == select_spec(a.value, b.value, condition.value)
            &&& c.variable.index == n
            &&& grown(
                *old(cs),
                *final(cs),
                seq![c.value.unwrap().value()],
                seq![
                    select_constraint(
                        F::modulus(),
                        a.variable.index as int,
                        b.variable.index as int,
                        condition.variable.index as int,
                        n,
                    ),
                ],
            )
            &&& num_consistent(c, final(cs).assignment())
            &&& num_consistent(*a, old(cs).assignment()) && num_consistent(
                *b,
                old(cs).assignment(),
            ) && bit_consistent(*condition, old(cs).assignment()) ==> final(cs).is_satisfied_spec() == old(cs).is_satisfied_spec()
        },
{
    let value = match condition.get_value() {
        Some(true) => a.get_value(),
        _ => b.get_value(),
    };
    select_into(cs, a.get_variable(), b.get_variable(), condition.get_variable(), value)
}

/// As `conditionally_select`, with a number for the condition: `c = a`
/// if it is one, else `c = b`.
///
/// Fails with `AssignmentMissing`, and changes nothing, exactly when the
/// condition or the value to pick is missing. The constraint is met by an
/// honest assignment when the condition is 0 or 1.
pub fn conditionally_select2<F: PrimeField>(
    cs: &mut ConstraintSystem<F>,
    a: &AllocatedNum<F>,
    b: &AllocatedNum<F>,
    condition: &AllocatedNum<F>,
) -> (r: Result<AllocatedNum<F>, NovaError>)
    requires
        old(cs).well_formed(),
        a.variable.index < old(cs).witness@.len(),
        b.variable.index < old(cs).witness@.len(),
        condition.variable.index < old(cs).witness@.len(),
    ensures
        r is Ok <==> num_value(*condition) is Some && select_spec(
            a.value,
            b.value,
            Some(num_value(*condition) == Some(1int)),
        ) is Some,
        r matches Err(e) ==> e == NovaError::AssignmentMissing && *final(cs) == *old(cs),
        r matches Ok(c) ==> {
            let n = old(cs).witness@.len() as int;
            &&& c.value == select_spec(
                a.value,
                b.value,
                Some(num_value(*condition) == Some(1int)),
            )
            &&& c.variable.index == n
            &&& grown(
                *old(cs),
                *final(cs),
                seq![c.value.unwrap().value()],
                seq![
                    select_constraint(
                        F::modulus(),
                        a.variable.index as int,
                        b.variable.index as int,
                        condition.variable.index as int,
                        n,
                    ),
                ],
            )
            &&& num_consistent(c, final(cs).assignment())
            &&& num_consistent(*a, old(cs).assignment()) && num_consistent(
                *b,
                old(cs).assignment(),
            ) && num_consistent(*condition, old(cs).assignment()) && (num_value(*condition)
                == Some(0int) || num_value(*condition) == Some(1int)) ==> final(cs).is_satisfied_spec() == old(cs).is_satisfied_spec()
        },
{
    let value = match condition.get_value() {
        None => {
            return Err(NovaError::AssignmentMissing);
        },
        Some(k) => if k.eq(&F::one()) {
            a.get_value()
        } else {
            b.get_value()
        },
    };
    select_into(cs, a.get_variable(), b.get_variable(), condition.get_variable(), value)
}

/// `c = 1` if the condition is true or unknown, else `c = a`, enforced by
/// `(1 - a) * cond = c - a`.
///
/// Fails with `AssignmentMissing`, and changes nothing, exactly when the
/// condition is false and `a` has no value.
pub fn select_one_or<F: PrimeField>(
    cs: &mut ConstraintSystem<F>,
    a: &AllocatedNum<F>,
    condition: &AllocatedBit,
) -> (r: Result<AllocatedNum<F>, NovaError>)
    requires
        old(cs).well_formed(),
        a.variable.index < old(cs).witness@.len(),
        condition.variable.index < old(cs).witness@.len(),
    ensures
        r is Ok <==> (condition.value != Some(false) || a.value is Some),
        r matches Err(e) ==> e == NovaError::AssignmentMissing && *final(cs) == *old(cs),
        r matches Ok(c) ==> {
            let n = old(cs).witness@.len() as int;
            &&& num_value(c) == (if condition.value != Some(false) {
                Some(1int)
            } else {
                num_value(*a)
            })
            &&& c.variable.index == n
            &&& grown(
                *old(cs),
                *final(cs),
                seq![c.value.unwrap().value()],
                seq![
                    select_constraint(
                        F::modulus(),
                        0,
                        a.variable.index as int,
                        condition.variable.index as int,
                        n,
                    ),
                ],
            )
            &&& num_consistent(c, final(cs).assignment())
            &&& num_consistent(*a, old(cs).assignment()) && bit_consistent(
                *condition,
                old(cs).assignment(),
            ) ==> final(cs).is_satisfied_spec() == old(cs).is_satisfied_spec()
        },
{
    let value = match condition.get_value() {
        Some(false) => a.get_value(),
        _ => Some(F::one()),
    };
    select_into(
        cs,
        ConstraintSystem::<F>::one(),
        a.get_variable(),
        condition.get_variable(),
        value,
    )
}

/// `c = a` if the condition is true, else `c = 1`, enforced by
/// `(a - 1) * cond = c - 1`.
///
/// Fails with `AssignmentMissing`, and changes nothing, exactly when the
/// condition is true and `a` has no value.
pub fn select_variable_or_one<F: PrimeField>(
    cs: &mut ConstraintSystem<F>,
    a: &AllocatedNum<F>,
    condition: &AllocatedBit,
) -> (r: Result<AllocatedNum<F>, NovaError>)
    requires
        old(cs).well_formed(),
        a.variable.index < old(cs).witness@.len(),
        condition.variable.index < old(cs).witness@.len(),
    ensures
        r is Ok <==> (condition.value != Some(true) || a.value is Some),
        r matches Err(e) ==> e == NovaError::AssignmentMissing && *final(cs) == *old(cs),
        r matches Ok(c) ==> {
            let n = old(cs).witness@.len() as int;
            &&& num_value(c) == (if condition.value == Some(true) {
                num_value(*a)
            } else {
                Some(1int)
            })
            &&& c.variable.index == n
            &&& grown(
                *old(cs),
                *final(cs),
                seq![c.value.unwrap().value()],
                seq![
                    select_constraint(
                        F::modulus(),
                        a.variable.index as int,
                        0,
                        condition.variable.index as int,
                        n,
                    ),
                ],
            )
            &&& num_consistent(c, final(cs).assignment())
            &&& num_consistent(*a, old(cs).assignment()) && bit_consistent(
                *condition,
                old(cs).assignment(),
            ) ==> final(cs).is_satisfied_spec() == old(cs).is_satisfied_spec()
        },
{
    let value = match condition.get_value() {
        Some(true) => a.get_value(),
        _ => Some(F::one()),
    };
    select_into(
        cs,
        a.get_variable(),
        ConstraintSystem::<F>::one(),
        condition.get_variable(),
        value,
    )
}

/// As `conditionally_select`, for bits: the result is a bit, constrained
/// to be 0 or 1 as every allocated bit is.
pub fn conditionally_select_bit<F: PrimeField>(
    cs: &mut ConstraintSystem<F>,
    a: &AllocatedBit,
    b: &AllocatedBit,
    condition: &AllocatedBit,
) -> (r: Result<AllocatedBit, NovaError>)
    requires
        old(cs).well_formed(),
        a.variable.index < old(cs).witness@.len(),
        b.variable.index < old(cs).witness@.len(),
        condition.variable.index < old(cs).witness@.len(),
    ensures
        r is Ok <==> select_spec(a.value, b.value, condition.value) is Some,
        r matches Err(e) ==> e == NovaError::AssignmentMissing && *final(cs) == *old(cs),
        r matches Ok(c) ==> {
            let n = old(cs).witness@.len() as int;
            &&& c.value == select_spec(a.value, b.value, condition.value)
            &&& c.variable.index == n
            &&& grown(
                *old(cs),
                *final(cs),
                seq![bit_int(c.value.unwrap())],
                seq![
                    boolean_constraint(F::modulus(), n),
                    select_constraint(
                        F::modulus(),
                        a.variable.index as int,
                        b.variable.index as int,
                        condition.variable.index as int,
                        n,
                    ),
                ],
            )
            &&& bit_consistent(c, final(cs).assignment())
            &&& bit_consistent(*a, old(cs).assignment()) && bit_consistent(
                *b,
                old(cs).assignment(),
            ) && bit_consistent(*condition, old(cs).assignment()) ==> final(cs).is_satisfied_spec() == old(cs).is_satisfied_spec()
        },
{
    let value = match condition.get_value() {
        Some(true) => a.get_value(),
        _ => b.get_value(),
    };
    let c = match AllocatedBit::allocate(cs, value) {
        Ok(bit) => bit,
        Err(e) => {
            return Err(e);
        },
    };
    let (x, y, k) = (a.get_variable(), b.get_variable(), condition.get_variable());
    proof {
        let n = cs.witness@.len() as int;
        lemma_in_range(F::modulus(), x.index as int, y.index as int, n);
        lemma_in_range(F::modulus(), k.index as int, k.index as int, n);
        lemma_in_range(F::modulus(), c.variable.index as int, y.index as int, n);
    }
    cs.enforce(
        LinearCombination::difference(x, y),
        LinearCombination::variable(k),
        LinearCombination::difference(c.get_variable(), y),
    );
    proof {
        let p = F::modulus();
        F::lemma_modulus();
        let n = old(cs).witness@.len() as int;
        let w = cs.assignment();
        assert(cs.constraint_views() =~= old(cs).constraint_views() + seq![
            boolean_constraint(p, n),
            select_constraint(p, x.index as int, y.index as int, k.index as int, n),
        ]);
        if bit_consistent(*a, old(cs).assignment()) && bit_consistent(*b, old(cs).assignment())
            && bit_consistent(*condition, old(cs).assignment()) {
            lemma_select_holds(p, w, x.index as int, y.index as int, k.index as int, n);
        }
    }
    Ok(c)
}

/// The constraint `a * (1 - cond) = c`.
pub open spec fn zero_or_constraint(p: int, a: int, cond: int, c: int) -> ConstraintView {
    ConstraintView { a: var_view(a), b: diff_view(p, 0, cond), c: var_view(c) }
}

/// `c = 0` if the condition is true or unknown, else `c = a`, enforced by
/// `a * (1 - cond) = c`.
///
/// Fails with `AssignmentMissing`, and changes nothing, exactly when the
/// condition is false and `a` has no value.
pub fn select_zero_or<F: PrimeField>(
    cs: &mut ConstraintSystem<F>,
    a: &AllocatedNum<F>,
    condition: &AllocatedBit,
) -> (r: Result<AllocatedNum<F>, NovaError>)
    requires
        old(cs).well_formed(),
        a.variable.index < old(cs).witness@.len(),
        condition.variable.index < old(cs).witness@.len(),
    ensures
        r is Ok <==> (condition.value != Some(false) || a.value is Some),
        r matches Err(e) ==> e == NovaError::AssignmentMissing && *final(cs) == *old(cs),
        r matches Ok(c) ==> {
            let n = old(cs).witness@.len() as int;
            &&& num_value(c) == (if condition.value != Some(false) {
                Some(0int)
            } else {
                num_value(*a)
            })
            &&& c.variable.index == n
            &&& grown(
                *old(cs),
                *final(cs),
                seq![c.value.unwrap().value()],
                seq![
                    zero_or_constraint(
                        F::modulus(),
                        a.variable.index as int,
                        condition.variable.index as int,
                        n,
                    ),
                ],
            )
            &&& num_consistent(c, final(cs).assignment())
            &&& num_consistent(*a, old(cs).assignment()) && bit_consistent(
                *condition,
                old(cs).assignment(),
            ) ==> final(cs).is_satisfied_spec() == old(cs).is_satisfied_spec()
        },
{
    let value = match condition.get_value() {
        Some(false) => a.get_value(),
        _ => Some(F::zero()),
    };
    let c = match AllocatedNum::allocate(cs, value) {
        Ok(n) => n,
        Err(e) => {
            return Err(e);
        },
    };
    let (x, k) = (a.get_variable(), condition.get_variable());
    proof {
        let n = cs.witness@.len() as int;
        lemma_in_range(F::modulus(), x.index as int, k.index as int, n);
        lemma_in_range(F::modulus(), 0, k.index as int, n);
        lemma_in_range(F::modulus(), c.variable.index as int, 0, n);
    }
    cs.enforce(
        LinearCombination::variable(x),
        LinearCombination::difference(ConstraintSystem::<F>::one(), k),
        LinearCombination::variable(c.get_variable()),
    );
    proof {
        let p = F::modulus();
        F::lemma_modulus();
        let n = old(cs).witness@.len() as int;
        let w = cs.assignment();
        let cv = zero_or_constraint(p, x.index as int, k.index as int, n);
        assert(cs.constraint_views() =~= old(cs).constraint_views() + seq![cv]);
        if num_consistent(*a, old(cs).assignment()) && bit_consistent(
            *condition,
            old(cs).assignment(),
        ) {
            let (wa, wk, wc) = (w[x.index as int], w[k.index as int], w[n]);
            lemma_lc_short(p, x.index as int, 0, w);
            lemma_lc_short(p, 0, k.index as int, w);
            lemma_lc_short(p, n, 0, w);
            lemma_holds_congruent(p, cv, w, wa, 1 - wk, wc);
            assert(wa * (1 - wk) == wc) by (nonlinear_arith)
                requires
                    (wk == 1 && wc == 0) || (wk == 0 && wc == wa),
            ;
        }
    }
    Ok(c)
}

/// A number that is 1 if the bit is true and 0 if it is false or
/// unknown, enforced by `0 * 0 = bit - num`.
pub fn bit_to_num<F: PrimeField>(cs: &mut ConstraintSystem<F>, bit: AllocatedBit) -> (r: Result<
    AllocatedNum<F>,
    NovaError,
>)
    requires
        old(cs).well_formed(),
        bit.variable.index < old(cs).witness@.len(),
    ensures
        r matches Ok(num) && {
            let n = old(cs).witness@.len() as int;
            &&& num_value(num) == Some(bit_int(bit.value == Some(true)))
            &&& num.variable.index == n
            &&& grown(
                *old(cs),
                *final(cs),
                seq![bit_int(bit.value == Some(true))],
                seq![same_constraint(F::modulus(), bit.variable.index as int, n)],
            )
            &&& num_consistent(num, final(cs).assignment())
            &&& bit_consistent(bit, old(cs).assignment()) ==> final(cs).is_satisfied_spec()
                == old(cs).is_satisfied_spec()
        },
{
    let value = match bit.get_value() {
        Some(true) => F::one(),
        _ => F::zero(),
    };
    let num = match AllocatedNum::allocate(cs, Some(value)) {
        Ok(n) => n,
        Err(e) => {
            return Err(e);
        },
    };
    proof {
        let n = cs.witness@.len() as int;
        lemma_in_range(F::modulus(), bit.variable.index as int, num.variable.index as int, n);
    }
    cs.enforce(
        LinearCombination::zero(),
        LinearCombination::zero(),
        LinearCombination::difference(bit.get_variable(), num.get_variable()),
    );
    proof {
        let p = F::modulus();
        F::lemma_modulus();
        let n = old(cs).witness@.len() as int;
        let w = cs.assignment();
        let cv = same_constraint(p, bit.variable.index as int, n);
        assert(cs.constraint_views() =~= old(cs).constraint_views() + seq![cv]);
        if bit_consistent(bit, old(cs).assignment()) {
            lemma_lc_short(p, bit.variable.index as int, n, w);
            lemma_holds_congruent(p, cv, w, 0, 0, w[bit.variable.index as int] - w[n]);
            assert(0int * 0int == 0);
        }
    }
    Ok(num)
}

/// The five constraints of the equality test on `a` and `b`, with the
/// result bit `r` and the helpers `delta`, `delta_inv` and `t`:
/// `(a - b) * 1 = delta`, `(a - b) * delta_inv = t`,
/// `(a - b) * (t - 1) = 0`, `(a - b) * r = 0`, `(t - 1) * (r - 1) = 0`.
pub open spec fn equals_constraints(
    p: int,
    a: int,
    b: int,
    r: int,
    delta: int,
    delta_inv: int,
    t: int,
) -> Seq<ConstraintView> {
    seq![
        ConstraintView { a: diff_view(p, a, b), b: var_view(0), c: var_view(delta) },
        ConstraintView { a: diff_view(p, a, b), b: var_view(delta_inv), c: var_view(t) },
        ConstraintView { a: diff_view(p, a, b), b: diff_view(p, t, 0), c: zero_view() },
        ConstraintView { a: diff_view(p, a, b), b: var_view(r), c: zero_view() },
        ConstraintView { a: diff_view(p, t, 0), b: diff_view(p, r, 0), c: zero_view() },
    ]
}

/// The values that the equality test assigns to `r`, `delta`,
/// `delta_inv` and `t` for the residues `a` and `b`.
pub open spec fn equals_values(p: int, a: int, b: int) -> Seq<int> {
    let delta = (a - b) % p;
    let delta_inv = if delta == 0 {
        1
    } else {
        inv_mod(p, delta)
    };
    seq![bit_int(a == b), delta, delta_inv, (delta * delta_inv) % p]
}

/// The values of `equals_values` meet the five constraints.
pub proof fn lemma_equals_holds<F: PrimeField>(w: Seq<int>, a: int, b: int, n: int)
    requires
        0 <= a < n,
        0 <= b < n,
        w.len() == n + 4,
        w[0] == 1,
        0 <= w[a] < F::modulus(),
        0 <= w[b] < F::modulus(),
        w.subrange(n, n + 4) == equals_values(F::modulus(), w[a], w[b]),
    ensures
        forall|i: int|
            0 <= i < 5 ==> holds(
                F::modulus(),
                #[trigger] equals_constraints(F::modulus(), a, b, n, n + 1, n + 2, n + 3)[i],
                w,
            ),
{
    let p = F::modulus();
    F::lemma_modulus();
    let cs = equals_constraints(p, a, b, n, n + 1, n + 2, n + 3);
    let vals = equals_values(p, w[a], w[b]);
    let (x, y) = (w[a], w[b]);
    let (r, d, di, t) = (w[n], w[n + 1], w[n + 2], w[n + 3]);
    assert(r == vals[0] && d == vals[1] && di == vals[2] && t == vals[3]) by {
        assert(w.subrange(n, n + 4)[0] == w[n]);
        assert(w.subrange(n, n + 4)[1] == w[n + 1]);
        assert(w.subrange(n, n + 4)[2] == w[n + 2]);
        assert(w.subrange(n, n + 4)[3] == w[n + 3]);
    }
    lemma_lc_short(p, a, b, w);
    lemma_lc_short(p, 0, 0, w);
    lemma_lc_short(p, n, 0, w);
    lemma_lc_short(p, n + 1, 0, w);
    lemma_lc_short(p, n + 2, 0, w);
    lemma_lc_short(p, n + 3, 0, w);
    lemma_mod_twice(x - y, p);
    lemma_mul_mod_noop_left(x - y, di, p);
    if x == y {
        lemma_small_mod(0, p as nat);
        assert(0 * di == 0);
    } else {
        // the difference of two distinct residues is not a multiple of p
        if x > y {
            lemma_small_mod((x - y) as nat, p as nat);
        } else {
            lemma_mod_add_multiples_vanish(x - y, p);
            lemma_small_mod((x - y + p) as nat, p as nat);
        }
        lemma_mod_bound(x - y, p);
        F::lemma_invertible(d);
    }
    lemma_holds_congruent(p, cs[0], w, x - y, 1, d);
    assert((x - y) * 1 == x - y);
    lemma_holds_congruent(p, cs[1], w, x - y, di, t);
    lemma_holds_congruent(p, cs[2], w, x - y, t - 1, 0);
    assert((x - y) * (t - 1) == 0) by (nonlinear_arith)
        requires
            x == y || t == 1,
    ;
    lemma_holds_congruent(p, cs[3], w, x - y, r, 0);
    assert((x - y) * r == 0) by (nonlinear_arith)
        requires
            x == y || r == 0,
    ;
    lemma_holds_congruent(p, cs[4], w, t - 1, r - 1, 0);
    assert((t - 1) * (r - 1) == 0) by (nonlinear_arith)
        requires
            t == 1 || r == 1,
    ;
    lemma_mod_twice(d * di, p);
    assert forall|i: int| 0 <= i < 5 implies holds(p, #[trigger] cs[i], w) by {
        if i == 0 {
            assert(holds(p, cs[0], w));
        } else if i == 1 {
            assert(holds(p, cs[1], w));
        } else if i == 2 {
            assert(holds(p, cs[2], w));
        } else if i == 3 {
            assert(holds(p, cs[3], w));
        } else {
            assert(holds(p, cs[4], w));
        }
    }
}

/// Tests whether two numbers are equal and returns the answer as a bit.
///
/// Allocates the bit `r`, `delta = a - b`, `delta_inv` (the inverse of
/// `delta`, or 1 where `delta` is zero) and `t = delta * delta_inv`, and
/// enforces the five constraints of `equals_constraints`.
///
/// Fails with `AssignmentMissing`, and changes nothing, exactly when one
/// of the two numbers has no value.
pub fn alloc_num_equals<F: PrimeField>(
    cs: &mut ConstraintSystem<F>,
    a: AllocatedNum<F>,
    b: AllocatedNum<F>,
) -> (r: Result<AllocatedBit, NovaError>)
    requires
        old(cs).well_formed(),
        a.variable.index < old(cs).witness@.len(),
        b.variable.index < old(cs).witness@.len(),
    ensures
        r is Ok <==> a.value is Some && b.value is Some,
        r matches Err(e) ==> e == NovaError::AssignmentMissing && *final(cs) == *old(cs),
        r matches Ok(bit) ==> {
            let n = old(cs).witness@.len() as int;
            let p = F::modulus();
            let (x, y) = (a.value.unwrap().value(), b.value.unwrap().value());
            &&& bit.value == Some(x == y)
            &&& bit.variable.index == n
            &&& grown(
                *old(cs),
                *final(cs),
                equals_values(p, x, y),
                seq![boolean_constraint(p, n)] + equals_constraints(
                    p,
                    a.variable.index as int,
                    b.variable.index as int,
                    n,
                    n + 1,
                    n + 2,
                    n + 3,
                ),
            )
            &&& bit_consistent(bit, final(cs).assignment())
            &&& num_consistent(a, old(cs).assignment()) && num_consistent(
                b,
                old(cs).assignment(),
            ) ==> final(cs).is_satisfied_spec() == old(cs).is_satisfied_spec()
        },
{
    let (av, bv) = match (a.get_value(), b.get_value()) {
        (Some(x), Some(y)) => (x, y),
        _ => {
            return Err(NovaError::AssignmentMissing);
        },
    };
    let ghost p = F::modulus();
    let ghost n = cs.witness@.len() as int;
    let ghost (x, y) = (av.value(), bv.value());
    let delta_v = av.sub(&bv);
    let delta_inv_v = match delta_v.inverse() {
        Some(i) => i,
        None => F::one(),
    };
    let t_v = delta_v.mul(&delta_inv_v);
    proof {
        F::lemma_modulus();
        av.lemma_value_range();
        bv.lemma_value_range();
        delta_v.lemma_value_range();
        if delta_v.value() != 0 {
            F::lemma_invertible(delta_v.value());
            lemma_inverse_unique(p, delta_v.value(), delta_inv_v.value(), inv_mod(p, delta_v.value()));
        }
    }
    let (r, delta, delta_inv, t) = match allocate_equals(
        cs,
        av.eq(&bv),
        delta_v,
        delta_inv_v,
        t_v,
    ) {
        Ok(allocated) => allocated,
        Err(e) => {
            return Err(e);
        },
    };
    let (va, vb) = (a.get_variable(), b.get_variable());
    let ghost w = cs.assignment();
    proof {
        assert(w =~= old(cs).assignment() + equals_values(p, x, y));
        if num_consistent(a, old(cs).assignment()) && num_consistent(b, old(cs).assignment()) {
            assert(w.subrange(n, n + 4) =~= equals_values(p, w[va.index as int], w[vb.index as int]));
            lemma_equals_holds::<F>(w, va.index as int, vb.index as int, n);
        }
    }
    enforce_equals(cs, va, vb, r.get_variable(), delta, delta_inv, t);
    proof {
        let eqs = equals_constraints(p, va.index as int, vb.index as int, n, n + 1, n + 2, n + 3);
        assert(cs.constraint_views() =~= old(cs).constraint_views() + (seq![
            boolean_constraint(p, n),
        ] + eqs));
    }
    Ok(r)
}

/// Allocates the result bit of an equality test and its three helpers.
fn allocate_equals<F: PrimeField>(
    cs: &mut ConstraintSystem<F>,
    equal: bool,
    delta: F,
    delta_inv: F,
    t: F,
) -> (res: Result<(AllocatedBit, Variable, Variable, Variable), NovaError>)
    requires
        old(cs).well_formed(),
    ensures
        final(cs).well_formed(),
        res matches Ok(r) && r.0.value == Some(equal) && r.0.variable.index == old(cs).witness@.len() && r.1.index == old(cs).witness@.len() + 1 && r.2.index == old(cs).witness@.len() + 2 && r.3.index == old(cs).witness@.len() + 3 && bit_consistent(
            r.0,
            final(cs).assignment(),
        ),
        final(cs).assignment() == old(cs).assignment() + seq![
            bit_int(equal),
            delta.value(),
            delta_inv.value(),
            t.value(),
        ],
        final(cs).constraint_views() == old(cs).constraint_views() + seq![
            boolean_constraint(F::modulus(), old(cs).witness@.len() as int),
        ],
        final(cs).is_satisfied_spec() == old(cs).is_satisfied_spec(),
{
    let bit = match AllocatedBit::allocate(cs, Some(equal)) {
        Ok(b) => b,
        Err(e) => {
            return Err(e);
        },
    };
    let ghost views = cs.constraint_views();
    let d = match cs.alloc_variable(Some(delta)) {
        Ok(v) => v,
        Err(e) => {
            return Err(e);
        },
    };
    let di = match cs.alloc_variable(Some(delta_inv)) {
        Ok(v) => v,
        Err(e) => {
            return Err(e);
        },
    };
    let tv = match cs.alloc_variable(Some(t)) {
        Ok(v) => v,
        Err(e) => {
            return Err(e);
        },
    };
    proof {
        assert(cs.assignment() =~= old(cs).assignment() + seq![
            bit_int(equal),
            delta.value(),
            delta_inv.value(),
            t.value(),
        ]);
        assert(cs.constraint_views() =~= views);
    }
    Ok((bit, d, di, tv))
}

/// Enforces the five constraints of an equality test.
fn enforce_equals<F: PrimeField>(
    cs: &mut ConstraintSystem<F>,
    a: Variable,
    b: Variable,
    r: Variable,
    delta: Variable,
    delta_inv: Variable,
    t: Variable,
)
    requires
        old(cs).well_formed(),
        a.index < old(cs).witness@.len(),
        b.index < old(cs).witness@.len(),
        r.index < old(cs).witness@.len(),
        delta.index < old(cs).witness@.len(),
        delta_inv.index < old(cs).witness@.len(),
        t.index < old(cs).witness@.len(),
    ensures
        final(cs).well_formed(),
        final(cs).witness@ == old(cs).witness@,
        final(cs).constraint_views() == old(cs).constraint_views() + equals_constraints(
            F::modulus(),
            a.index as int,
            b.index as int,
            r.index as int,
            delta.index as int,
            delta_inv.index as int,
            t.index as int,
        ),
        (forall|i: int|
            0 <= i < 5 ==> holds(
                F::modulus(),
                #[trigger] equals_constraints(
                    F::modulus(),
                    a.index as int,
                    b.index as int,
                    r.index as int,
                    delta.index as int,
                    delta_inv.index as int,
                    t.index as int,
                )[i],
                old(cs).assignment(),
            )) ==> final(cs).is_satisfied_spec() == old(cs).is_satisfied_spec(),
{
    let one = ConstraintSystem::<F>::one();
    let ghost p = F::modulus();
    let ghost n = cs.witness@.len() as int;
    let ghost eqs = equals_constraints(
        p,
        a.index as int,
        b.index as int,
        r.index as int,
        delta.index as int,
        delta_inv.index as int,
        t.index as int,
    );
    proof {
        lemma_in_range(p, a.index as int, b.index as int, n);
        lemma_in_range(p, 0, 0, n);
        lemma_in_range(p, r.index as int, 0, n);
        lemma_in_range(p, delta.index as int, 0, n);
        lemma_in_range(p, delta_inv.index as int, 0, n);
        lemma_in_range(p, t.index as int, 0, n);
        assert(eqs[0] == eqs[0] && eqs[1] == eqs[1] && eqs[2] == eqs[2] && eqs[3] == eqs[3]
            && eqs[4] == eqs[4]);
    }
    cs.enforce(
        LinearCombination::difference(a, b),
        LinearCombination::variable(one),
        LinearCombination::variable(delta),
    );
    cs.enforce(
        LinearCombination::difference(a, b),
        LinearCombination::variable(delta_inv),
        LinearCombination::variable(t),
    );
    cs.enforce(
        LinearCombination::difference(a, b),
        LinearCombination::difference(t, one),
        LinearCombination::zero(),
    );
    cs.enforce(
        LinearCombination::difference(a, b),
        LinearCombination::variable(r),
        LinearCombination::zero(),
    );
    cs.enforce(
        LinearCombination::difference(t, one),
        LinearCombination::difference(r, one),
        LinearCombination::zero(),
    );
    proof {
        assert(cs.constraint_views() =~= old(cs).constraint_views() + eqs);
    }
}

/// The number that little-endian bits stand for: the sum of `2^i` over
/// the places `i` that hold a true bit.
pub open spec fn bits_value(bits: Seq<bool>) -> int
    decreases bits.len(),
{
    if bits.len() == 0 {
        0
    } else {
        bits_value(bits.drop_last()) + two_to((bits.len() - 1) as nat) * bit_int(bits.last())
    }
}

/// The linear combination `sum of 2^i * bit_i`, over the variables at
/// `vars`.
pub open spec fn bits_lc(p: int, vars: Seq<int>) -> Seq<(int, int)> {
    Seq::new(vars.len(), |i: int| (two_to(i as nat) as int % p, vars[i]))
}

/// The constraint `0 * 0 = (sum of 2^i * bit_i) - num`.
pub open spec fn bits_constraint(p: int, vars: Seq<int>, num: int) -> ConstraintView {
    ConstraintView { a: zero_view(), b: zero_view(), c: bits_lc(p, vars).push((p - 1, num)) }
}

/// The values of the bits, or `None` if one has none.
pub open spec fn bit_values(bits: Seq<AllocatedBit>) -> Option<Seq<bool>> {
    if forall|i: int| 0 <= i < bits.len() ==> (#[trigger] bits[i]).value is Some {
        Some(Seq::new(bits.len(), |i: int| bits[i].value.unwrap()))
    } else {
        None
    }
}

/// The places of the variables of the bits.
pub open spec fn bit_vars(bits: Seq<AllocatedBit>) -> Seq<int> {
    Seq::new(bits.len(), |i: int| bits[i].variable.index as int)
}

/// Under an assignment that gives each bit its value, the combination of
/// the bits is congruent to the number that they stand for.
pub proof fn lemma_bits_lc_sum(p: int, vars: Seq<int>, bools: Seq<bool>, w: Seq<int>, i: int)
    requires
        p > 1,
        0 <= i <= vars.len(),
        vars.len() == bools.len(),
        forall|j: int| 0 <= j < vars.len() ==> w[#[trigger] vars[j]] == bit_int(bools[j]),
    ensures
        lc_sum(bits_lc(p, vars).take(i), w) % p == bits_value(bools.take(i)) % p,
    decreases i,
{
    if i > 0 {
        lemma_bits_lc_sum(p, vars, bools, w, i - 1);
        let lc = bits_lc(p, vars);
        assert(lc.take(i).drop_last() =~= lc.take(i - 1));
        assert(bools.take(i).drop_last() =~= bools.take(i - 1));
        let c = two_to((i - 1) as nat) as int;
        let v = bit_int(bools[i - 1]);
        assert(w[vars[i - 1]] == v);
        assert(lc.take(i).last() == (c % p, vars[i - 1]));
        lemma_mul_mod_noop_left(c, v, p);
        lemma_add_mod_noop(lc_sum(lc.take(i - 1), w), (c % p) * v, p);
        lemma_add_mod_noop(bits_value(bools.take(i - 1)), c * v, p);
    }
}

/// Allocates the number that little-endian bits stand for, and enforces
/// `0 * 0 = (sum of 2^i * bit_i) - num`.
///
/// Fails with `AssignmentMissing`, and changes nothing, exactly when a
/// bit has no value.
pub fn le_bits_to_num<F: PrimeField>(cs: &mut ConstraintSystem<F>, bits: Vec<AllocatedBit>) -> (r:
    Result<AllocatedNum<F>, NovaError>)
    requires
        old(cs).well_formed(),
        forall|i: int| 0 <= i < bits@.len() ==> (#[trigger] bits@[i]).variable.index < old(cs).witness@.len(),
    ensures
        r is Ok <==> bit_values(bits@) is Some,
        r matches Err(e) ==> e == NovaError::AssignmentMissing && *final(cs) == *old(cs),
        r matches Ok(num) ==> {
            let n = old(cs).witness@.len() as int;
            let v = bits_value(bit_values(bits@).unwrap()) % F::modulus();
            &&& num_value(num) == Some(v)
            &&& num.variable.index == n
            &&& grown(
                *old(cs),
                *final(cs),
                seq![v],
                seq![bits_constraint(F::modulus(), bit_vars(bits@), n)],
            )
            &&& num_consistent(num, final(cs).assignment())
            &&& (forall|i: int|
                0 <= i < bits@.len() ==> bit_consistent(
                    #[trigger] bits@[i],
                    old(cs).assignment(),
                )) ==> final(cs).is_satisfied_spec() == old(cs).is_satisfied_spec()
        },
{
    let ghost p = F::modulus();
    let ghost vars = bit_vars(bits@);
    let mut lc: LinearCombination<F> = LinearCombination::zero();
    let mut coeff = F::one();
    let mut fe = F::zero();
    let mut i: usize = 0;
    proof {
        F::lemma_modulus();
        lemma_small_mod(1, p as nat);
        lemma_small_mod(0, p as nat);
        assert(lc@ =~= bits_lc(p, vars).take(0));
    }
    while i < bits.len()
        invariant
            i <= bits@.len(),
            p == F::modulus(),
            p > 1,
            vars == bit_vars(bits@),
            *cs == *old(cs),
            lc@ == bits_lc(p, vars).take(i as int),
            coeff.value() == two_to(i as nat) as int % p,
            forall|j: int| 0 <= j < i ==> (#[trigger] bits@[j]).value is Some,
            fe.value() == bits_value(
                Seq::new(bits@.len(), |j: int| bits@[j].value.unwrap()).take(i as int),
            ) % p,
        decreases bits@.len() - i,
    {
        let ghost bools = Seq::new(bits@.len(), |j: int| bits@[j].value.unwrap());
        lc = lc.add_term(coeff, bits[i].get_variable());
        match bits[i].get_value() {
            None => {
                return Err(NovaError::AssignmentMissing);
            },
            Some(true) => {
                fe = fe.add(&coeff);
            },
            Some(false) => {},
        }
        proof {
            assert(lc@ =~= bits_lc(p, vars).take(i + 1));
            assert(bools.take(i + 1).drop_last() =~= bools.take(i as int));
            let c = two_to(i as nat) as int;
            lemma_add_mod_noop(bits_value(bools.take(i as int)), c * bit_int(bools[i as int]), p);
            lemma_small_mod(0, p as nat);
            assert(c * 1 == c && c * 0 == 0);
            lemma_add_mod_noop(c, c, p);
        }
        coeff = coeff.add(&coeff);
        i += 1;
    }
    let ghost bools = bit_values(bits@).unwrap();
    proof {
        assert(bools =~= Seq::new(bits@.len(), |j: int| bits@[j].value.unwrap()));
        assert(bools.take(i as int) =~= bools);
        assert(bits_lc(p, vars).take(i as int) =~= bits_lc(p, vars));
    }
    let num = match AllocatedNum::allocate(cs, Some(fe)) {
        Ok(n) => n,
        Err(e) => {
            return Err(e);
        },
    };
    let minus_one = F::zero().sub(&F::one());
    proof {
        lemma_fundamental_div_mod_converse(-1, p, -1, p - 1);
    }
    let lc = lc.add_term(minus_one, num.get_variable());
    proof {
        let n = old(cs).witness@.len() as int;
        assert forall|j: int| 0 <= j < lc@.len() implies 0 <= (#[trigger] lc@[j]).1 < n + 1 by {
            if j < bits@.len() {
                assert(bits@[j].variable.index < n);
            }
        }
        lemma_in_range(p, 0, 0, n + 1);
    }
    cs.enforce(LinearCombination::zero(), LinearCombination::zero(), lc);
    proof {
        let n = old(cs).witness@.len() as int;
        let w = cs.assignment();
        let cv = bits_constraint(p, vars, n);
        assert(w =~= old(cs).assignment() + seq![fe.value()]);
        assert(cs.constraint_views() =~= old(cs).constraint_views() + seq![cv]);
        if forall|j: int| 0 <= j < bits@.len() ==> bit_consistent(#[trigger] bits@[j], old(cs).assignment()) {
            assert forall|j: int| 0 <= j < vars.len() implies w[#[trigger] vars[j]] == bit_int(
                bools[j],
            ) by {
                assert(bit_consistent(bits@[j], old(cs).assignment()));
            }
            lemma_bits_lc_sum(p, vars, bools, w, vars.len() as int);
            let s = lc_sum(bits_lc(p, vars), w);
            let v = bits_value(bools);
            lemma_lc_push(bits_lc(p, vars), (p - 1, n), w);
            lemma_lc_short(p, 0, 0, w);
            // s + (p - 1) * (v % p) is congruent to v - v, which is 0
            assert(s + (p - 1) * w[n] == p * w[n] + (s - w[n])) by (nonlinear_arith);
            lemma_mod_multiples_vanish(w[n], s - w[n], p);
            lemma_sub_mod_noop(s, v, p);
            lemma_sub_mod_noop_right(s, w[n], p);
            lemma_mod_twice(v, p);
            lemma_sub_mod_noop(s, w[n], p);
            lemma_small_mod(0, p as nat);
            assert(0int * 0int == 0);
        }
    }
    Ok(num)
}

/// Whatever is assigned, the selection constraint forces the result:
/// an assignment of residues that meets it gives `c` the value of `a`
/// where the condition is 1, and that of `b` where it is 0.
pub proof fn lemma_select_sound(p: int, w: Seq<int>, a: int, b: int, cond: int, c: int)
    requires
        p > 1,
        0 <= w[a] < p,
        0 <= w[b] < p,
        0 <= w[c] < p,
        holds(p, select_constraint(p, a, b, cond, c), w),
    ensures
        w[cond] == 1 ==> w[c] == w[a],
        w[cond] == 0 ==> w[c] == w[b],
{
    lemma_lc_short(p, a, b, w);
    lemma_lc_short(p, cond, cond, w);
    lemma_lc_short(p, c, b, w);
    lemma_holds_congruent(
        p,
        select_constraint(p, a, b, cond, c),
        w,
        w[a] - w[b],
        w[cond],
        w[c] - w[b],
    );
    if w[cond] == 1 {
        assert((w[a] - w[b]) * 1 == w[a] - w[b]);
        lemma_congruent_difference(p, w[a] - w[b], w[c] - w[b]);
        lemma_residue_zero(p, w[a] - w[c]);
    } else if w[cond] == 0 {
        assert((w[a] - w[b]) * 0 == 0);
        lemma_congruent_difference(p, 0, w[c] - w[b]);
        lemma_residue_zero(p, w[b] - w[c]);
    }
}

/// Whatever is assigned to the helpers, the equality test forces its
/// result: an assignment of residues that meets the five constraints
/// gives `r` the value 1 where `a` and `b` are equal, and 0 where they
/// are not.
pub proof fn lemma_equals_sound<F: PrimeField>(
    w: Seq<int>,
    a: int,
    b: int,
    r: int,
    delta: int,
    delta_inv: int,
    t: int,
)
    requires
        w[0] == 1,
        0 <= w[a] < F::modulus(),
        0 <= w[b] < F::modulus(),
        0 <= w[r] < F::modulus(),
        0 <= w[t] < F::modulus(),
        forall|i: int|
            0 <= i < 5 ==> holds(
                F::modulus(),
                #[trigger] equals_constraints(F::modulus(), a, b, r, delta, delta_inv, t)[i],
                w,
            ),
    ensures
        w[r] == bit_int(w[a] == w[b]),
{
    let p = F::modulus();
    F::lemma_modulus();
    let cs = equals_constraints(p, a, b, r, delta, delta_inv, t);
    let (x, y, rr, tt, di) = (w[a], w[b], w[r], w[t], w[delta_inv]);
    assert(holds(p, cs[1], w) && holds(p, cs[3], w) && holds(p, cs[4], w));
    lemma_lc_short(p, a, b, w);
    lemma_lc_short(p, 0, 0, w);
    lemma_lc_short(p, r, 0, w);
    lemma_lc_short(p, t, 0, w);
    lemma_lc_short(p, delta_inv, 0, w);
    lemma_holds_congruent(p, cs[1], w, x - y, di, tt);
    lemma_holds_congruent(p, cs[3], w, x - y, rr, 0);
    lemma_holds_congruent(p, cs[4], w, tt - 1, rr - 1, 0);
    lemma_small_mod(0, p as nat);
    if x == y {
        // t is 0, so r - 1 is a multiple of p
        assert((x - y) * di == 0) by (nonlinear_arith)
            requires
                x == y,
        ;
        lemma_small_mod(tt as nat, p as nat);
        assert((tt - 1) * (rr - 1) == 1 - rr) by (nonlinear_arith)
            requires
                tt == 0,
        ;
        lemma_residue_zero(p, 1 - rr);
    } else {
        // a - b is not zero, so r is
        let d = (x - y) % p;
        lemma_mod_bound(x - y, p);
        if d == 0 {
            lemma_residue_zero(p, x - y);
        }
        lemma_mul_mod_noop_left(x - y, rr, p);
        lemma_no_zero_divisors::<F>(d, rr);
    }
}

/// The constraint `x * x = 0` forces `x` to be zero.
pub proof fn lemma_square_zero_sound<F: PrimeField>(w: Seq<int>, x: int)
    requires
        0 <= w[x] < F::modulus(),
        holds(F::modulus(), square_is_zero(x), w),
    ensures
        w[x] == 0,
{
    let p = F::modulus();
    F::lemma_modulus();
    lemma_lc_short(p, x, x, w);
    lemma_holds_congruent(p, square_is_zero(x), w, w[x], w[x], 0);
    lemma_small_mod(0, p as nat);
    lemma_no_zero_divisors::<F>(w[x], w[x]);
}

/// The constraint `(1 - b) * b = 0` forces `b` to be 0 or 1.
pub proof fn lemma_boolean_sound<F: PrimeField>(w: Seq<int>, b: int)
    requires
        w[0] == 1,
        0 <= w[b] < F::modulus(),
        holds(F::modulus(), boolean_constraint(F::modulus(), b), w),
    ensures
        w[b] == 0 || w[b] == 1,
{
    let p = F::modulus();
    F::lemma_modulus();
    lemma_lc_short(p, 0, b, w);
    lemma_lc_short(p, b, b, w);
    lemma_holds_congruent(p, boolean_constraint(p, b), w, 1 - w[b], w[b], 0);
    lemma_small_mod(0, p as nat);
    let d = (1 - w[b]) % p;
    lemma_mod_bound(1 - w[b], p);
    lemma_mul_mod_noop_left(1 - w[b], w[b], p);
    lemma_no_zero_divisors::<F>(d, w[b]);
    if d == 0 {
        lemma_residue_zero(p, 1 - w[b]);
    }
}

/// A bit that also meets `t * t = 1` is 1.
pub proof fn lemma_true_sound<F: PrimeField>(w: Seq<int>, t: int)
    requires
        w[0] == 1,
        0 <= w[t] < F::modulus(),
        holds(F::modulus(), boolean_constraint(F::modulus(), t), w),
        holds(F::modulus(), square_is_one(t), w),
    ensures
        w[t] == 1,
{
    let p = F::modulus();
    F::lemma_modulus();
    lemma_boolean_sound::<F>(w, t);
    lemma_lc_short(p, t, t, w);
    lemma_lc_short(p, 0, 0, w);
    lemma_holds_congruent(p, square_is_one(t), w, w[t], w[t], 1);
    lemma_small_mod(0, p as nat);
    lemma_small_mod(1, p as nat);
    assert(0int * 0int == 0);
}

/// The constraint `0 * 0 = x - y` forces `x` and `y` to be equal.
pub proof fn lemma_same_sound(p: int, w: Seq<int>, x: int, y: int)
    requires
        p > 1,
        0 <= w[x] < p,
        0 <= w[y] < p,
        holds(p, same_constraint(p, x, y), w),
    ensures
        w[x] == w[y],
{
    lemma_lc_short(p, x, y, w);
    lemma_holds_congruent(p, same_constraint(p, x, y), w, 0, 0, w[x] - w[y]);
    assert(0int * 0int == 0);
    lemma_small_mod(0, p as nat);
    lemma_residue_zero(p, w[x] - w[y]);
}

/// The constraint `a * (1 - cond) = c` forces `c` to be zero where the
/// condition is 1, and to be `a` where it is 0.
pub proof fn lemma_zero_or_sound(p: int, w: Seq<int>, a: int, cond: int, c: int)
    requires
        p > 1,
        w[0] == 1,
        0 <= w[a] < p,
        0 <= w[c] < p,
        holds(p, zero_or_constraint(p, a, cond, c), w),
    ensures
        w[cond] == 1 ==> w[c] == 0,
        w[cond] == 0 ==> w[c] == w[a],
{
    lemma_lc_short(p, a, a, w);
    lemma_lc_short(p, 0, cond, w);
    lemma_lc_short(p, c, c, w);
    lemma_holds_congruent(p, zero_or_constraint(p, a, cond, c), w, w[a], 1 - w[cond], w[c]);
    lemma_small_mod(w[c] as nat, p as nat);
    lemma_small_mod(w[a] as nat, p as nat);
    lemma_small_mod(0, p as nat);
    assert(w[a] * 0 == 0 && w[a] * 1 == w[a]);
}

/// The constraint `0 * 0 = (sum of 2^i * bit_i) - num` forces `num` to be
/// the number that the bits stand for, where each bit has its value.
pub proof fn lemma_bits_sound(p: int, w: Seq<int>, vars: Seq<int>, bools: Seq<bool>, num: int)
    requires
        p > 1,
        vars.len() == bools.len(),
        forall|j: int| 0 <= j < vars.len() ==> w[#[trigger] vars[j]] == bit_int(bools[j]),
        0 <= w[num] < p,
        holds(p, bits_constraint(p, vars, num), w),
    ensures
        w[num] == bits_value(bools) % p,
{
    let s = lc_sum(bits_lc(p, vars), w);
    let v = bits_value(bools);
    lemma_bits_lc_sum(p, vars, bools, w, vars.len() as int);
    assert(bits_lc(p, vars).take(vars.len() as int) =~= bits_lc(p, vars));
    assert(bools.take(vars.len() as int) =~= bools);
    lemma_lc_push(bits_lc(p, vars), (p - 1, num), w);
    lemma_lc_short(p, 0, 0, w);
    assert(0int * 0int == 0);
    lemma_small_mod(0, p as nat);
    // s + (p - 1) * num is a multiple of p, so s and num agree modulo p
    assert(s + (p - 1) * w[num] == p * w[num] + (s - w[num])) by (nonlinear_arith);
    lemma_mod_multiples_vanish(w[num], s - w[num], p);
    lemma_sub_mod_noop(s, w[num], p);
    lemma_sub_mod_noop(v, w[num], p);
    lemma_mod_bound(v, p);
    lemma_small_mod(w[num] as nat, p as nat);
    lemma_residue_zero(p, v % p - w[num]);
}

} // verus!
