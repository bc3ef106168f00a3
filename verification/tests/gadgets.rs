use nova_snark::errors::NovaError;
use nova_snark::field::PrimeField;
use nova_snark::gadgets::utils::{
    alloc_false, alloc_num_equals, alloc_one, alloc_true, alloc_zero, bit_to_num,
    conditionally_select, conditionally_select2, conditionally_select_bit, le_bits_to_num,
    select_one_or, select_variable_or_one, select_zero_or, AllocatedBit, AllocatedNum,
};
use nova_snark::mersenne::{Mersenne31, MODULUS};
use nova_snark::r1cs::{ConstraintSystem, LinearCombination, Variable};

type F = Mersenne31;

type System = ConstraintSystem<F>;

fn fe(v: u64) -> F {
    Mersenne31 { v }
}

fn num(cs: &mut System, v: u64) -> AllocatedNum<F> {
    AllocatedNum::allocate(cs, Some(fe(v))).unwrap()
}

fn bit(cs: &mut System, b: bool) -> AllocatedBit {
    AllocatedBit::allocate(cs, Some(b)).unwrap()
}

fn value(n: &AllocatedNum<F>) -> u64 {
    n.get_value().unwrap().v
}

fn missing_num() -> AllocatedNum<F> {
    AllocatedNum { value: None, variable: Variable { index: 0 } }
}

fn missing_bit() -> AllocatedBit {
    AllocatedBit { value: None, variable: Variable { index: 0 } }
}

#[test]
fn empty_system_is_satisfied() {
    let cs = System::new();
    assert_eq!(cs.witness, vec![fe(1)]);
    assert_eq!(cs.constraints.len(), 0);
    assert!(cs.is_satisfied());
    assert_eq!(System::one(), Variable { index: 0 });
}

#[test]
fn linear_combinations_evaluate() {
    let w = vec![fe(1), fe(10), fe(4)];
    let x = Variable { index: 1 };
    let y = Variable { index: 2 };
    assert_eq!(LinearCombination::<F>::zero().eval(&w), fe(0));
    assert_eq!(LinearCombination::<F>::variable(x).eval(&w), fe(10));
    assert_eq!(LinearCombination::<F>::difference(x, y).eval(&w), fe(6));
    assert_eq!(LinearCombination::<F>::difference(y, x).eval(&w), fe(MODULUS - 6));
    let lc = LinearCombination::<F>::zero().add_term(fe(3), x).add_term(fe(5), y);
    assert_eq!(lc.eval(&w), fe(50));
}

#[test]
fn enforce_detects_a_wrong_assignment() {
    let mut cs = System::new();
    let a = num(&mut cs, 3);
    let b = num(&mut cs, 4);
    let c = num(&mut cs, 12);
    cs.enforce(
        LinearCombination::variable(a.get_variable()),
        LinearCombination::variable(b.get_variable()),
        LinearCombination::variable(c.get_variable()),
    );
    assert!(cs.is_satisfied());
    cs.witness[3] = fe(13);
    assert!(!cs.is_satisfied());
}

#[test]
fn allocation_without_a_value_fails() {
    let mut cs = System::new();
    assert!(matches!(AllocatedNum::<F>::allocate(&mut cs, None), Err(NovaError::AssignmentMissing)));
    assert!(matches!(AllocatedBit::allocate(&mut cs, None), Err(NovaError::AssignmentMissing)));
    assert_eq!(cs.witness.len(), 1);
    assert_eq!(cs.constraints.len(), 0);
}

#[test]
fn constants_are_allocated_and_constrained() {
    let mut cs = System::new();
    let z = alloc_zero(&mut cs).unwrap();
    let o = alloc_one(&mut cs).unwrap();
    let f = alloc_false(&mut cs).unwrap();
    let t = alloc_true(&mut cs).unwrap();
    assert_eq!(value(&z), 0);
    assert_eq!(value(&o), 1);
    assert_eq!(f.get_value(), Some(false));
    assert_eq!(t.get_value(), Some(true));
    assert_eq!(cs.witness, vec![fe(1), fe(0), fe(1), fe(0), fe(1)]);
    assert_eq!(cs.constraints.len(), 6);
    assert!(cs.is_satisfied());

    let mut wrong = System::new();
    let z = alloc_zero(&mut wrong).unwrap();
    wrong.witness[z.get_variable().index] = fe(2);
    assert!(!wrong.is_satisfied());
    let mut wrong = System::new();
    let t = alloc_true(&mut wrong).unwrap();
    wrong.witness[t.get_variable().index] = fe(0);
    assert!(!wrong.is_satisfied());
}

#[test]
fn equality_of_equal_numbers() {
    let mut cs = System::new();
    let a = num(&mut cs, 7);
    let b = num(&mut cs, 7);
    let r = alloc_num_equals(&mut cs, a, b).unwrap();
    assert_eq!(r.get_value(), Some(true));
    assert_eq!(r.get_variable(), Variable { index: 3 });
    assert_eq!(&cs.witness[3..], &[fe(1), fe(0), fe(1), fe(0)]);
    assert_eq!(cs.constraints.len(), 6);
    assert!(cs.is_satisfied());
    cs.witness[3] = fe(0);
    assert!(!cs.is_satisfied());
}

#[test]
fn equality_of_different_numbers() {
    let mut cs = System::new();
    let a = num(&mut cs, 7);
    let b = num(&mut cs, 8);
    let r = alloc_num_equals(&mut cs, a, b).unwrap();
    assert_eq!(r.get_value(), Some(false));
    let delta = fe(MODULUS - 1);
    assert_eq!(&cs.witness[3..], &[fe(0), delta, delta.inverse().unwrap(), fe(1)]);
    assert!(cs.is_satisfied());
    // claiming equality breaks (a - b) * r = 0
    cs.witness[3] = fe(1);
    assert!(!cs.is_satisfied());
}

#[test]
fn equality_of_zeros_and_missing_values() {
    let mut cs = System::new();
    let a = num(&mut cs, 0);
    let b = num(&mut cs, 0);
    let r = alloc_num_equals(&mut cs, a, b).unwrap();
    assert_eq!(r.get_value(), Some(true));
    assert!(cs.is_satisfied());
    let before = cs.witness.len();
    let r = alloc_num_equals(&mut cs, a, missing_num());
    assert!(matches!(r, Err(NovaError::AssignmentMissing)));
    assert_eq!(cs.witness.len(), before);
    assert_eq!(cs.constraints.len(), 6);
}

#[test]
fn equality_over_many_pairs() {
    for x in 0..6u64 {
        for y in 0..6u64 {
            let mut cs = System::new();
            let a = num(&mut cs, x * 1_000_000_007 % MODULUS);
            let b = num(&mut cs, y * 1_000_000_007 % MODULUS);
            let r = alloc_num_equals(&mut cs, a, b).unwrap();
            assert_eq!(r.get_value(), Some(x == y));
            assert!(cs.is_satisfied());
            let i = r.get_variable().index;
            cs.witness[i] = fe(1).sub(&cs.witness[i]);
            assert!(!cs.is_satisfied());
        }
    }
}

#[test]
fn conditional_selection() {
    for cond in [false, true] {
        let mut cs = System::new();
        let a = num(&mut cs, 11);
        let b = num(&mut cs, 22);
        let c = bit(&mut cs, cond);
        let picked = conditionally_select(&mut cs, &a, &b, &c).unwrap();
        assert_eq!(value(&picked), if cond { 11 } else { 22 });
        assert!(cs.is_satisfied());
        cs.witness[picked.get_variable().index] = fe(if cond { 22 } else { 11 });
        assert!(!cs.is_satisfied());
    }
    let mut cs = System::new();
    let a = num(&mut cs, 11);
    let c = bit(&mut cs, false);
    let r = conditionally_select(&mut cs, &a, &missing_num(), &c);
    assert!(matches!(r, Err(NovaError::AssignmentMissing)));
    let picked = conditionally_select(&mut cs, &a, &a, &missing_bit()).unwrap();
    assert_eq!(value(&picked), 11);
}

#[test]
fn conditional_selection_of_bits() {
    for cond in [false, true] {
        let mut cs = System::new();
        let a = bit(&mut cs, true);
        let b = bit(&mut cs, false);
        let c = bit(&mut cs, cond);
        let picked = conditionally_select_bit(&mut cs, &a, &b, &c).unwrap();
        assert_eq!(picked.get_value(), Some(cond));
        assert_eq!(cs.constraints.len(), 5);
        assert!(cs.is_satisfied());
        cs.witness[picked.get_variable().index] = fe(if cond { 0 } else { 1 });
        assert!(!cs.is_satisfied());
    }
}

#[test]
fn conditional_selection_by_a_number() {
    for cond in [0u64, 1] {
        let mut cs = System::new();
        let a = num(&mut cs, 11);
        let b = num(&mut cs, 22);
        let c = num(&mut cs, cond);
        let picked = conditionally_select2(&mut cs, &a, &b, &c).unwrap();
        assert_eq!(value(&picked), if cond == 1 { 11 } else { 22 });
        assert!(cs.is_satisfied());
    }
    let mut cs = System::new();
    let a = num(&mut cs, 11);
    let r = conditionally_select2(&mut cs, &a, &a, &missing_num());
    assert!(matches!(r, Err(NovaError::AssignmentMissing)));
}

#[test]
fn selection_against_constants() {
    for cond in [false, true] {
        let mut cs = System::new();
        let a = num(&mut cs, 9);
        let c = bit(&mut cs, cond);
        let z = select_zero_or(&mut cs, &a, &c).unwrap();
        let o = select_one_or(&mut cs, &a, &c).unwrap();
        let v = select_variable_or_one(&mut cs, &a, &c).unwrap();
        assert_eq!(value(&z), if cond { 0 } else { 9 });
        assert_eq!(value(&o), if cond { 1 } else { 9 });
        assert_eq!(value(&v), if cond { 9 } else { 1 });
        assert_eq!(cs.constraints.len(), 4);
        assert!(cs.is_satisfied());
        for n in [z, o, v] {
            let mut wrong = System { witness: cs.witness.clone(), constraints: Vec::new() };
            std::mem::swap(&mut wrong.constraints, &mut cs.constraints);
            wrong.witness[n.get_variable().index] = fe(5);
            assert!(!wrong.is_satisfied());
            std::mem::swap(&mut wrong.constraints, &mut cs.constraints);
        }
    }
    let mut cs = System::new();
    let c = bit(&mut cs, false);
    assert!(matches!(select_zero_or(&mut cs, &missing_num(), &c), Err(NovaError::AssignmentMissing)));
    assert!(matches!(select_one_or(&mut cs, &missing_num(), &c), Err(NovaError::AssignmentMissing)));
    let t = bit(&mut cs, true);
    assert!(matches!(
        select_variable_or_one(&mut cs, &missing_num(), &t),
        Err(NovaError::AssignmentMissing)
    ));
    assert_eq!(value(&select_zero_or(&mut cs, &missing_num(), &t).unwrap()), 0);
}

#[test]
fn bits_become_numbers() {
    let mut cs = System::new();
    let t = bit(&mut cs, true);
    let f = bit(&mut cs, false);
    assert_eq!(value(&bit_to_num(&mut cs, t).unwrap()), 1);
    assert_eq!(value(&bit_to_num(&mut cs, f).unwrap()), 0);
    let bits = vec![t, f, t, t];
    let n = le_bits_to_num(&mut cs, bits).unwrap();
    assert_eq!(value(&n), 13);
    assert!(cs.is_satisfied());
    cs.witness[n.get_variable().index] = fe(12);
    assert!(!cs.is_satisfied());

    let mut cs = System::new();
    let none: Vec<AllocatedBit> = Vec::new();
    assert_eq!(value(&le_bits_to_num(&mut cs, none).unwrap()), 0);
    let t = bit(&mut cs, true);
    let r = le_bits_to_num(&mut cs, vec![t, missing_bit()]);
    assert!(matches!(r, Err(NovaError::AssignmentMissing)));
    assert!(cs.is_satisfied());
}

#[test]
fn many_bits_wrap_around_the_modulus() {
    let mut cs = System::new();
    let mut bits = Vec::new();
    for _ in 0..31 {
        bits.push(bit(&mut cs, false));
    }
    bits.push(bit(&mut cs, true));
    let n = le_bits_to_num(&mut cs, bits).unwrap();
    assert_eq!(value(&n), 1);
    assert!(cs.is_satisfied());
}
