use merlin::Transcript;
use nova_snark::commitments::{commit, CommitGens, Commitment, CompressedCommitment};
use nova_snark::errors::NovaError;
use nova_snark::field::{batch_invert, inner_product, PrimeField};
use nova_snark::final_ipa::FinalInnerProductArgument;
use nova_snark::final_ipa_aux::FinalInnerProductArgumentAux;
use nova_snark::group::Group;
use nova_snark::ipa::{InnerProductInstance, InnerProductWitness, StepInnerProductArgument};
use nova_snark::mersenne::{Mersenne31, Mersenne31Point, MODULUS};
use nova_snark::reduction::{fold_halves, is_power_of_two, is_two_to, tensor};
use nova_snark::transcript::{append_scalar, challenge_scalar};

type F = Mersenne31;

type Z = Mersenne31Point;

fn fe(v: u64) -> F {
    Mersenne31 { v }
}

fn scalars(v: &[u64]) -> Vec<F> {
    v.iter().map(|x| fe(*x)).collect()
}

fn pseudo_random(n: usize, seed: u64) -> Vec<F> {
    let mut s = seed;
    (0..n)
        .map(|_| {
            s = s.wrapping_mul(6364136223846793005).wrapping_add(1442695040888963407);
            fe((s >> 20) % MODULUS)
        })
        .collect()
}

fn test_gens(n: usize, salt: u64) -> CommitGens<Z> {
    CommitGens {
        gens: (0..n).map(|i| Mersenne31Point { v: 1_000_003 * (i as u64 + 1) + salt }).collect(),
    }
}

fn instance(x: &[F], a: &[F], y: F, gens: &CommitGens<Z>) -> InnerProductInstance<Z> {
    let c = commit(x, gens).compress();
    InnerProductInstance::new(&c, a, &y).unwrap()
}

fn probe(t: &mut Transcript) -> F {
    challenge_scalar(t, "probe")
}

fn copy_proof(p: &FinalInnerProductArgument<Z>) -> FinalInnerProductArgument<Z> {
    FinalInnerProductArgument { l_vec: p.l_vec.clone(), r_vec: p.r_vec.clone(), x_hat: p.x_hat }
}

fn flip_low_bit(c: &mut CompressedCommitment) {
    c.bytes[0] ^= 1;
}

#[test]
fn batch_invert_of_small_primes() {
    let v = scalars(&[2, 3, 5, 7]);
    let inv = batch_invert(&v).unwrap();
    assert_eq!(inv, scalars(&[1073741824, 1431655765, 858993459, 1840700269]));
}

#[test]
fn batch_invert_matches_pointwise_inverse() {
    let v = pseudo_random(33, 5);
    let inv = batch_invert(&v).unwrap();
    assert_eq!(inv.len(), v.len());
    for i in 0..v.len() {
        assert_eq!(inv[i], v[i].inverse().unwrap());
        assert_eq!(inv[i].mul(&v[i]), F::one());
    }
    let same = FinalInnerProductArgument::<Z>::batch_invert(&v).unwrap();
    assert_eq!(same, inv);
    let same = FinalInnerProductArgumentAux::<Z>::batch_invert(&v).unwrap();
    assert_eq!(same, inv);
}

#[test]
fn batch_invert_rejects_zero() {
    let v = scalars(&[2, 0, 5]);
    assert_eq!(batch_invert(&v), Err(NovaError::InvalidIPA));
    let v = scalars(&[2, MODULUS, 5]);
    assert_eq!(batch_invert(&v), Err(NovaError::InvalidIPA));
    let empty: Vec<F> = Vec::new();
    assert_eq!(batch_invert(&empty), Ok(Vec::new()));
}

#[test]
fn field_arithmetic_is_modular() {
    assert_eq!(fe(MODULUS - 1).add(&fe(2)), fe(1));
    assert_eq!(fe(3).sub(&fe(5)), fe(MODULUS - 2));
    assert_eq!(fe(1 << 20).mul(&fe(1 << 20)), fe(1 << 9));
    assert_eq!(fe(0).inverse(), None);
    assert_eq!(fe(2).inverse(), Some(fe(1 << 30)));
    assert!(PrimeField::eq(&fe(MODULUS + 4), &fe(4)));
    assert_eq!(fe(0x01020304).to_bytes(), vec![4, 3, 2, 1]);
    assert_eq!(F::from_uniform_bytes(&[1, 0]), fe(256));
    assert_eq!(F::from_uniform_bytes(&[0x80, 0, 0, 0]), fe(1));
}

#[test]
fn group_operations_follow_the_field() {
    let g = Mersenne31Point { v: 10 };
    let h = Mersenne31Point { v: MODULUS - 3 };
    assert_eq!(Group::add(&g, &h), Mersenne31Point { v: 7 });
    assert_eq!(Group::mul(&g, &fe(5)), Mersenne31Point { v: 50 });
    assert_eq!(Z::identity(), Mersenne31Point { v: 0 });
    assert_eq!(Z::from_scalar(&fe(3)), Mersenne31Point { v: 16 });
    assert_eq!(g.compress(), vec![10, 0, 0, 0]);
    assert_eq!(Z::decompress(&[10, 0, 0, 0]), Some(g));
    assert_eq!(Z::decompress(&[10, 0, 0]), None);
    assert_eq!(Z::decompress(&[0xff, 0xff, 0xff, 0x7f]), None);
    assert_eq!(Z::decompress(&[0xfe, 0xff, 0xff, 0x7f]), Some(Mersenne31Point { v: MODULUS - 1 }));
}

#[test]
fn inner_product_of_small_vectors() {
    let x = scalars(&[1, 2, 3, 4]);
    let a = scalars(&[5, 6, 7, 8]);
    assert_eq!(inner_product(&x, &a), fe(70));
    assert_eq!(FinalInnerProductArgument::<Z>::inner_product(&x, &a), fe(70));
    assert_eq!(FinalInnerProductArgumentAux::<Z>::inner_product(&x, &a), fe(70));
    let none: Vec<F> = Vec::new();
    assert_eq!(inner_product(&none, &none), fe(0));
}

#[test]
fn protocol_names() {
    assert_eq!(StepInnerProductArgument::<Z>::protocol_name(), b"inner product argument (step)");
    assert_eq!(FinalInnerProductArgument::<Z>::protocol_name(), b"inner product argument (final)");
    assert_eq!(
        FinalInnerProductArgumentAux::<Z>::protocol_name(),
        b"inner product argument (final, aux)"
    );
}

#[test]
fn commitment_is_the_weighted_sum() {
    let gens = CommitGens { gens: vec![Mersenne31Point { v: 10 }, Mersenne31Point { v: 100 }] };
    let c = commit(&scalars(&[3, 4]), &gens);
    assert_eq!(c.comm, Mersenne31Point { v: 430 });
    let d = c.add(&c.mul(&fe(2)));
    assert_eq!(d.comm, Mersenne31Point { v: 1290 });
    assert!(c.eq(&Commitment { comm: Mersenne31Point { v: 430 + MODULUS } }));
    assert_eq!(c.compress().decompress::<Z>().unwrap().comm, c.comm);
}

#[test]
fn generators_split_combine_and_fold() {
    let gens = CommitGens {
        gens: vec![
            Mersenne31Point { v: 1 },
            Mersenne31Point { v: 2 },
            Mersenne31Point { v: 3 },
            Mersenne31Point { v: 4 },
        ],
    };
    assert_eq!(gens.len(), 4);
    let (l, r) = gens.split_at(2);
    assert_eq!(l.gens, vec![Mersenne31Point { v: 1 }, Mersenne31Point { v: 2 }]);
    assert_eq!(r.gens, vec![Mersenne31Point { v: 3 }, Mersenne31Point { v: 4 }]);
    assert_eq!(r.combine(&l).gens[3], Mersenne31Point { v: 2 });
    let mut folded = gens.clone();
    folded.fold(&fe(10), &fe(100));
    assert_eq!(folded.gens, vec![Mersenne31Point { v: 310 }, Mersenne31Point { v: 420 }]);
    assert_eq!(CommitGens::<Z>::from_scalar(&fe(2)).gens, vec![Mersenne31Point { v: 11 }]);
}

#[test]
fn reinterpretation_decodes_or_fails() {
    let good = CompressedCommitment { bytes: vec![5, 0, 0, 0] };
    let bad = CompressedCommitment { bytes: vec![0xff, 0xff, 0xff, 0xff] };
    let g = CommitGens::<Z>::reinterpret_commitments_as_gens(&[good.clone()]).unwrap();
    assert_eq!(g.gens, vec![Mersenne31Point { v: 5 }]);
    let r = CommitGens::<Z>::reinterpret_commitments_as_gens(&[good, bad.clone()]);
    assert!(matches!(r, Err(NovaError::DecompressionError)));
    let r = InnerProductInstance::<Z>::new(&bad, &scalars(&[1]), &fe(1));
    assert!(matches!(r, Err(NovaError::DecompressionError)));
}

#[test]
fn folding_halves_of_a_vector() {
    let v = scalars(&[1, 2, 3, 4]);
    assert_eq!(fold_halves(&v, &fe(10), &fe(100)), scalars(&[310, 420]));
}

#[test]
fn tensor_follows_the_highest_bit() {
    let sq = scalars(&[2, 3, 5]);
    let t = tensor(fe(1), &sq, 8);
    assert_eq!(t, scalars(&[1, 5, 3, 15, 2, 10, 6, 30]));
    let none: Vec<F> = Vec::new();
    assert_eq!(tensor(fe(9), &none, 1), scalars(&[9]));
}

#[test]
fn powers_of_two() {
    assert!(is_power_of_two(1));
    assert!(is_power_of_two(64));
    assert!(!is_power_of_two(0));
    assert!(!is_power_of_two(12));
    assert!(is_two_to(1, 0));
    assert!(is_two_to(8, 3));
    assert!(!is_two_to(8, 2));
    assert!(!is_two_to(0, 5));
}

#[test]
fn transcript_is_deterministic() {
    let mut t1 = Transcript::new(b"test");
    let mut t2 = Transcript::new(b"test");
    append_scalar(&mut t1, "x", &fe(5));
    append_scalar(&mut t2, "x", &fe(5));
    let c1: F = challenge_scalar(&mut t1, "c");
    let c2: F = challenge_scalar(&mut t2, "c");
    assert_eq!(c1, c2);
    assert_eq!(probe(&mut t1), probe(&mut t2));
}

#[test]
fn transcript_depends_on_what_was_absorbed() {
    let mut t1 = Transcript::new(b"test");
    let mut t2 = Transcript::new(b"test");
    let mut t3 = Transcript::new(b"test");
    append_scalar(&mut t1, "x", &fe(5));
    append_scalar(&mut t2, "x", &fe(6));
    let c1: F = challenge_scalar(&mut t1, "c");
    let c2: F = challenge_scalar(&mut t2, "c");
    let c3: F = challenge_scalar(&mut t3, "c");
    assert_ne!(c1, c2);
    assert_ne!(c1, c3);
    assert_ne!(c1, fe(5));
    let again: F = challenge_scalar(&mut t1, "c");
    assert_ne!(again, c1);
    let gens = test_gens(1, 3);
    let mut t4 = Transcript::new(b"test");
    commit(&scalars(&[1]), &gens).append_to_transcript("x", &mut t4);
    assert_ne!(probe(&mut t4), probe(&mut Transcript::new(b"test")));
}

#[test]
fn final_ipa_accepts_and_rejects_wrong_value() {
    let x = scalars(&[1, 2, 3, 4]);
    let a = scalars(&[5, 6, 7, 8]);
    let gens = test_gens(4, 17);
    let u = instance(&x, &a, fe(70), &gens);
    let w = InnerProductWitness::<Z>::new(&x);
    let mut tp = Transcript::new(b"test");
    let proof = FinalInnerProductArgument::prove(&u, &w, &gens, &mut tp).unwrap();
    assert_eq!(proof.l_vec.len(), 2);
    assert_eq!(proof.r_vec.len(), 2);
    let mut tv = Transcript::new(b"test");
    assert_eq!(proof.verify(4, &u, &gens, &mut tv), Ok(()));
    assert_eq!(probe(&mut tp), probe(&mut tv));

    let bad = instance(&x, &a, fe(71), &gens);
    let mut tv = Transcript::new(b"test");
    assert_eq!(proof.verify(4, &bad, &gens, &mut tv), Err(NovaError::InvalidIPA));
}

#[test]
fn final_ipa_accepts_for_every_power_of_two() {
    let mut n = 1;
    while n <= 256 {
        let x = pseudo_random(n, 11 + n as u64);
        let a = pseudo_random(n, 1001 + n as u64);
        let y = inner_product(&x, &a);
        let gens = test_gens(n, 29);
        let u = instance(&x, &a, y, &gens);
        let w = InnerProductWitness::<Z>::new(&x);
        let mut tp = Transcript::new(b"sweep");
        let proof = FinalInnerProductArgument::prove(&u, &w, &gens, &mut tp).unwrap();
        assert!(is_two_to(n, proof.l_vec.len()));
        let mut tv = Transcript::new(b"sweep");
        assert_eq!(proof.verify(n, &u, &gens, &mut tv), Ok(()));
        n *= 2;
    }
}

#[test]
fn final_ipa_rejects_every_mutation() {
    let n = 8;
    let x = pseudo_random(n, 1);
    let a = pseudo_random(n, 2);
    let y = inner_product(&x, &a);
    let gens = test_gens(n, 41);
    let u = instance(&x, &a, y, &gens);
    let w = InnerProductWitness::<Z>::new(&x);
    let proof =
        FinalInnerProductArgument::prove(&u, &w, &gens, &mut Transcript::new(b"m")).unwrap();
    assert_eq!(proof.verify(n, &u, &gens, &mut Transcript::new(b"m")), Ok(()));

    let mut p = copy_proof(&proof);
    p.x_hat = p.x_hat.add(&fe(1));
    assert_eq!(p.verify(n, &u, &gens, &mut Transcript::new(b"m")), Err(NovaError::InvalidIPA));
    for i in 0..3 {
        let mut p = copy_proof(&proof);
        flip_low_bit(&mut p.l_vec[i]);
        assert_eq!(p.verify(n, &u, &gens, &mut Transcript::new(b"m")), Err(NovaError::InvalidIPA));
        let mut p = copy_proof(&proof);
        flip_low_bit(&mut p.r_vec[i]);
        assert_eq!(p.verify(n, &u, &gens, &mut Transcript::new(b"m")), Err(NovaError::InvalidIPA));
    }
    let bad = instance(&x, &a, y.add(&fe(1)), &gens);
    assert_eq!(proof.verify(n, &bad, &gens, &mut Transcript::new(b"m")), Err(NovaError::InvalidIPA));
    assert_eq!(proof.verify(n, &u, &gens, &mut Transcript::new(b"other")), Err(NovaError::InvalidIPA));
}

#[test]
fn final_ipa_rejects_swapped_commitments() {
    let n = 8;
    let x = pseudo_random(n, 3);
    let a = pseudo_random(n, 4);
    let y = inner_product(&x, &a);
    let gens = test_gens(n, 43);
    let u = instance(&x, &a, y, &gens);
    let w = InnerProductWitness::<Z>::new(&x);
    let proof =
        FinalInnerProductArgument::prove(&u, &w, &gens, &mut Transcript::new(b"s")).unwrap();
    let mut p = copy_proof(&proof);
    let l0 = p.l_vec[0].clone();
    p.l_vec[0] = p.r_vec[0].clone();
    p.r_vec[0] = l0;
    assert_eq!(p.verify(n, &u, &gens, &mut Transcript::new(b"s")), Err(NovaError::InvalidIPA));
}

#[test]
fn final_ipa_base_case() {
    let x = scalars(&[3]);
    let a = scalars(&[5]);
    let gens = test_gens(1, 47);
    let u = instance(&x, &a, fe(15), &gens);
    let w = InnerProductWitness::<Z>::new(&x);
    let proof =
        FinalInnerProductArgument::prove(&u, &w, &gens, &mut Transcript::new(b"b")).unwrap();
    assert_eq!(proof.l_vec.len(), 0);
    assert_eq!(proof.r_vec.len(), 0);
    assert_eq!(proof.x_hat, fe(3));
    assert_eq!(proof.verify(1, &u, &gens, &mut Transcript::new(b"b")), Ok(()));
    let bad = instance(&x, &a, fe(16), &gens);
    assert_eq!(proof.verify(1, &bad, &gens, &mut Transcript::new(b"b")), Err(NovaError::InvalidIPA));
}

#[test]
fn final_ipa_shape_checks() {
    let x = pseudo_random(4, 7);
    let a = pseudo_random(4, 8);
    let y = inner_product(&x, &a);
    let gens = test_gens(4, 53);
    let u = instance(&x, &a, y, &gens);
    let w = InnerProductWitness::<Z>::new(&x);
    let fresh = probe(&mut Transcript::new(b"shape"));

    let mut t = Transcript::new(b"shape");
    let r = FinalInnerProductArgument::prove(&u, &w, &test_gens(3, 53), &mut t);
    assert!(matches!(r, Err(NovaError::InvalidInputLength)));
    assert_eq!(probe(&mut t), fresh);

    let mut t = Transcript::new(b"shape");
    let x3 = pseudo_random(3, 7);
    let u3 = instance(&x3, &x3, inner_product(&x3, &x3), &test_gens(3, 53));
    let w3 = InnerProductWitness::<Z>::new(&x3);
    let r = FinalInnerProductArgument::prove(&u3, &w3, &test_gens(3, 53), &mut t);
    assert!(matches!(r, Err(NovaError::InvalidInputLength)));
    let short = instance(&x, &a[0..2], y, &gens);
    let r = FinalInnerProductArgument::prove(&short, &w, &gens, &mut t);
    assert!(matches!(r, Err(NovaError::InvalidInputLength)));
    assert_eq!(probe(&mut t), fresh);

    let proof =
        FinalInnerProductArgument::prove(&u, &w, &gens, &mut Transcript::new(b"shape")).unwrap();
    let mut t = Transcript::new(b"shape");
    assert_eq!(proof.verify(8, &u, &gens, &mut t), Err(NovaError::InvalidInputLength));
    assert_eq!(proof.verify(4, &u, &test_gens(8, 53), &mut t), Err(NovaError::InvalidInputLength));
    assert_eq!(proof.verify(4, &short, &gens, &mut t), Err(NovaError::InvalidInputLength));
    let mut p = copy_proof(&proof);
    p.r_vec.pop();
    assert_eq!(p.verify(4, &u, &gens, &mut t), Err(NovaError::InvalidInputLength));
    let mut p = copy_proof(&proof);
    while p.l_vec.len() < 32 {
        p.l_vec.push(proof.l_vec[0].clone());
        p.r_vec.push(proof.r_vec[0].clone());
    }
    assert_eq!(p.verify(4, &u, &gens, &mut t), Err(NovaError::InvalidInputLength));
    assert_eq!(probe(&mut t), fresh);
}

#[test]
fn final_ipa_reports_undecodable_commitments() {
    let x = pseudo_random(4, 9);
    let a = pseudo_random(4, 10);
    let y = inner_product(&x, &a);
    let gens = test_gens(4, 59);
    let u = instance(&x, &a, y, &gens);
    let w = InnerProductWitness::<Z>::new(&x);
    let proof =
        FinalInnerProductArgument::prove(&u, &w, &gens, &mut Transcript::new(b"d")).unwrap();
    let mut p = copy_proof(&proof);
    p.l_vec[1] = CompressedCommitment { bytes: vec![0xff, 0xff, 0xff, 0xff] };
    assert_eq!(
        p.verify(4, &u, &gens, &mut Transcript::new(b"d")),
        Err(NovaError::DecompressionError)
    );
}

#[test]
fn step_ipa_folds_two_claims() {
    let x1 = scalars(&[1, 2]);
    let a1 = scalars(&[3, 4]);
    let x2 = scalars(&[5, 6]);
    let a2 = scalars(&[7, 8]);
    let gens = test_gens(2, 61);
    let u1 = instance(&x1, &a1, fe(11), &gens);
    let u2 = instance(&x2, &a2, fe(83), &gens);
    let w1 = InnerProductWitness::<Z>::new(&x1);
    let w2 = InnerProductWitness::<Z>::new(&x2);
    let mut tp = Transcript::new(b"step");
    let (step, u, w) = StepInnerProductArgument::prove(&u1, &w1, &u2, &w2, &mut tp);
    assert_eq!(step.c, fe(62));
    // the challenge, from the first entry of the folded public vector
    let r = u.a_vec[0].sub(&fe(3)).mul(&fe(7).inverse().unwrap());
    assert_ne!(r, fe(0));
    assert_eq!(u.a_vec, vec![fe(3).add(&r.mul(&fe(7))), fe(4).add(&r.mul(&fe(8)))]);
    assert_eq!(w.x_vec, vec![fe(1).add(&r.mul(&fe(5))), fe(2).add(&r.mul(&fe(6)))]);
    assert_eq!(u.y, fe(11).add(&r.mul(&r).mul(&fe(83))).add(&r.mul(&fe(62))));
    assert_eq!(u.y, inner_product(&w.x_vec, &u.a_vec));
    assert!(u.comm_x_vec.eq(&commit(&w.x_vec, &gens)));

    let mut tv = Transcript::new(b"step");
    let v = step.verify(&u1, &u2, &mut tv);
    assert_eq!(v.a_vec, u.a_vec);
    assert_eq!(v.y, u.y);
    assert_eq!(v.comm_x_vec.comm, u.comm_x_vec.comm);
    assert_eq!(probe(&mut tp), probe(&mut tv));
}

#[test]
fn step_ipa_then_final_ipa() {
    let n = 8;
    let x1 = pseudo_random(n, 21);
    let a1 = pseudo_random(n, 22);
    let x2 = pseudo_random(n, 23);
    let a2 = pseudo_random(n, 24);
    let gens = test_gens(n, 67);
    let u1 = instance(&x1, &a1, inner_product(&x1, &a1), &gens);
    let u2 = instance(&x2, &a2, inner_product(&x2, &a2), &gens);
    let w1 = InnerProductWitness::<Z>::new(&x1);
    let w2 = InnerProductWitness::<Z>::new(&x2);
    let mut tp = Transcript::new(b"both");
    let (step, u, w) = StepInnerProductArgument::prove(&u1, &w1, &u2, &w2, &mut tp);
    assert_eq!(u.y, inner_product(&w.x_vec, &u.a_vec));
    let proof = FinalInnerProductArgument::prove(&u, &w, &gens, &mut tp).unwrap();

    let mut tv = Transcript::new(b"both");
    let v = step.verify(&u1, &u2, &mut tv);
    assert_eq!(proof.verify(n, &v, &gens, &mut tv), Ok(()));

    let wrong = StepInnerProductArgument::<Z> { c: step.c.add(&fe(1)) };
    let mut tv = Transcript::new(b"both");
    let v = wrong.verify(&u1, &u2, &mut tv);
    assert_eq!(proof.verify(n, &v, &gens, &mut tv), Err(NovaError::InvalidIPA));
}

#[test]
fn aux_ipa_accepts_and_rejects() {
    let mut n = 1;
    while n <= 16 {
        let x = pseudo_random(n, 31 + n as u64);
        let a = pseudo_random(n, 32 + n as u64);
        let y = inner_product(&x, &a);
        let gens = test_gens(n, 71);
        let gens_aux = test_gens(n, 500_000_073);
        let cx = commit(&x, &gens);
        let ca = commit(&a, &gens_aux);
        let mut tp = Transcript::new(b"aux");
        let proof =
            FinalInnerProductArgumentAux::prove(&cx, &ca, &y, &x, &a, &gens, &gens_aux, &mut tp)
                .unwrap();
        assert!(is_two_to(n, proof.l_vec.len()));
        let mut tv = Transcript::new(b"aux");
        assert_eq!(proof.verify(n, &cx, &ca, &y, &gens, &gens_aux, &mut tv), Ok(()));
        assert_eq!(probe(&mut tp), probe(&mut tv));

        let mut tv = Transcript::new(b"aux");
        let wrong = y.add(&fe(1));
        assert_eq!(
            proof.verify(n, &cx, &ca, &wrong, &gens, &gens_aux, &mut tv),
            Err(NovaError::InvalidIPA)
        );
        let bad = FinalInnerProductArgumentAux::<Z> {
            l_vec: proof.l_vec.clone(),
            r_vec: proof.r_vec.clone(),
            x_hat: proof.x_hat,
            a_hat: proof.a_hat.add(&fe(1)),
        };
        let mut tv = Transcript::new(b"aux");
        assert_eq!(
            bad.verify(n, &cx, &ca, &y, &gens, &gens_aux, &mut tv),
            Err(NovaError::InvalidIPA)
        );
        n *= 2;
    }
}

#[test]
fn aux_ipa_shape_checks() {
    let x = pseudo_random(4, 41);
    let a = pseudo_random(4, 42);
    let y = inner_product(&x, &a);
    let gens = test_gens(4, 73);
    let gens_aux = test_gens(4, 79);
    let cx = commit(&x, &gens);
    let ca = commit(&a, &gens_aux);
    let fresh = probe(&mut Transcript::new(b"aux"));
    let mut t = Transcript::new(b"aux");
    let r = FinalInnerProductArgumentAux::prove(
        &cx,
        &ca,
        &y,
        &x,
        &a,
        &gens,
        &test_gens(2, 79),
        &mut t,
    );
    assert!(matches!(r, Err(NovaError::InvalidInputLength)));
    let r = FinalInnerProductArgumentAux::prove(&cx, &ca, &y, &x, &a[0..3], &gens, &gens_aux, &mut t);
    assert!(matches!(r, Err(NovaError::InvalidInputLength)));
    let proof =
        FinalInnerProductArgumentAux::prove(&cx, &ca, &y, &x, &a, &gens, &gens_aux, &mut Transcript::new(b"aux"))
            .unwrap();
    assert_eq!(
        proof.verify(2, &cx, &ca, &y, &gens, &gens_aux, &mut t),
        Err(NovaError::InvalidInputLength)
    );
    assert_eq!(
        proof.verify(4, &cx, &ca, &y, &gens, &test_gens(8, 79), &mut t),
        Err(NovaError::InvalidInputLength)
    );
    assert_eq!(probe(&mut t), fresh);
}
