use vstd::prelude::*;
use vstd::string::*;
use vstd::arithmetic::div_mod::*;
use crate::commitments::{commit_spec, Commitment, CompressedCommitment};
use crate::errors::NovaError;
use crate::field::{dot, values, PrimeField};
use crate::group::Group;
use crate::transcript::{
    absorbed,
    absorbed_scalar,
    append_message,
    append_scalar,
    challenge_scalar,
    challenge_state,
    challenge_value,
    transcript_state,
};

verus! {

/// The committed vector of an inner-product claim.
pub struct InnerProductWitness<G: Group> {
    pub x_vec: Vec<G::Scalar>,
}

/// An inner-product claim: the commitment to `x`, the public vector `a`
/// and the claimed value `y = <x, a>`.
pub struct InnerProductInstance<G: Group> {
    pub comm_x_vec: Commitment<G>,
    pub a_vec: Vec<G::Scalar>,
    pub y: G::Scalar,
}

/// The proof that two claims were folded into one: the cross-term.
pub struct StepInnerProductArgument<G: Group> {
    pub c: G::Scalar,
}

/// A claim as the contracts see it: the commitment, and the residues of
/// the public vector and of the claimed value.
pub struct InstanceView<G> {
    pub comm: G,
    pub a: Seq<int>,
    pub y: int,
}

impl<G: Group> InnerProductInstance<G> {
    pub open spec fn view(&self) -> InstanceView<G> {
        InstanceView { comm: self.comm_x_vec.comm, a: values(self.a_vec@), y: self.y.value() }
    }
}

/// The vector `u + r * v`, entry by entry, modulo `p`.
pub open spec fn fold_vec_spec(p: int, u: Seq<int>, v: Seq<int>, r: int) -> Seq<int> {
    Seq::new(u.len(), |i: int| (u[i] + r * v[i]) % p)
}

/// The cross-term of two claims: `<x1, a2> + <x2, a1>` modulo `p`.
pub open spec fn cross_term_spec(
    p: int,
    x1: Seq<int>,
    a1: Seq<int>,
    x2: Seq<int>,
    a2: Seq<int>,
) -> int {
    (dot(x1, a2) + dot(x2, a1)) % p
}

/// The claimed value of the folded claim: `y1 + r^2 * y2 + r * c` modulo `p`.
pub open spec fn fold_value_spec(p: int, y1: int, y2: int, c: int, r: int) -> int {
    (y1 + r * r * y2 + r * c) % p
}

pub open spec fn step_protocol_name_spec() -> Seq<u8> {
    "inner product argument (step)".spec_bytes()
}

/// The transcript state once a folding step has absorbed the protocol name,
/// both commitments and the cross-term.
pub open spec fn step_absorbed_state<G: Group>(s0: Seq<u8>, c1: G, c2: G, c: int) -> Seq<u8> {
    absorbed_scalar::<G::Scalar>(
        absorbed(
            absorbed(
                absorbed(s0, "protocol-name".spec_bytes(), step_protocol_name_spec()),
                "U1_comm_x_vec".spec_bytes(),
                c1.compress_spec(),
            ),
            "U2_comm_x_vec".spec_bytes(),
            c2.compress_spec(),
        ),
        "C".spec_bytes(),
        c,
    )
}

/// The challenge of a folding step that starts in transcript state `s0`.
pub open spec fn step_challenge_spec<G: Group>(s0: Seq<u8>, c1: G, c2: G, c: int) -> int {
    challenge_value::<G::Scalar>(step_absorbed_state(s0, c1, c2, c), "r".spec_bytes())
}

/// The transcript state that a folding step leaves behind.
pub open spec fn step_final_state<G: Group>(s0: Seq<u8>, c1: G, c2: G, c: int) -> Seq<u8> {
    challenge_state(step_absorbed_state(s0, c1, c2, c), "r".spec_bytes())
}

/// The claim that folding `u1` and `u2` with cross-term `c` gives, when the
/// transcript starts in state `s0`.
pub open spec fn step_fold_spec<G: Group>(
    u1: InstanceView<G>,
    u2: InstanceView<G>,
    c: int,
    s0: Seq<u8>,
) -> InstanceView<G> {
    let p = G::Scalar::modulus();
    let r = step_challenge_spec(s0, u1.comm, u2.comm, c);
    InstanceView {
        comm: u1.comm.add_spec(u2.comm.mul_spec(r)),
        a: fold_vec_spec(p, u1.a, u2.a, r),
        y: fold_value_spec(p, u1.y, u2.y, c, r),
    }
}

/// A copy of the entries from `lo` up to `hi`.
pub fn copy_range<F: PrimeField>(v: &[F], lo: usize, hi: usize) -> (r: Vec<F>)
    requires
        lo <= hi <= v@.len(),
    ensures
        r@ == v@.subrange(lo as int, hi as int),
{
    let mut out: Vec<F> = Vec::new();
    let mut i: usize = lo;
    while i < hi
        invariant
            lo <= i <= hi <= v@.len(),
            out@ == v@.subrange(lo as int, i as int),
        decreases hi - i,
    {
        out.push(v[i]);
        proof {
            assert(out@ =~= v@.subrange(lo as int, i + 1));
        }
        i += 1;
    }
    out
}

/// The vector `u + r * v`.
pub fn linear_combine<F: PrimeField>(u: &[F], v: &[F], r: &F) -> (out: Vec<F>)
    requires
        u@.len() == v@.len(),
    ensures
        values(out@) == fold_vec_spec(F::modulus(), values(u@), values(v@), r.value()),
{
    let mut out: Vec<F> = Vec::new();
    let mut i: usize = 0;
    proof {
        F::lemma_modulus();
    }
    while i < u.len()
        invariant
            i <= u@.len(),
            u@.len() == v@.len(),
            F::modulus() > 1,
            out@.len() == i,
            forall|j: int|
                0 <= j < i ==> (#[trigger] out@[j]).value() == (u@[j].value() + r.value()
                    * v@[j].value()) % F::modulus(),
        decreases u@.len() - i,
    {
        let t = r.mul(&v[i]);
        let e = u[i].add(&t);
        proof {
            lemma_add_mod_noop_right(
                u@[i as int].value(),
                r.value() * v@[i as int].value(),
                F::modulus(),
            );
        }
        out.push(e);
        i += 1;
    }
    proof {
        assert(values(out@) =~= fold_vec_spec(
            F::modulus(),
            values(u@),
            values(v@),
            r.value(),
        ));
    }
    out
}

/// The value `y1 + r^2 * y2 + r * c`.
pub fn fold_value<F: PrimeField>(y1: &F, y2: &F, c: &F, r: &F) -> (y: F)
    ensures
        y.value() == fold_value_spec(F::modulus(), y1.value(), y2.value(), c.value(), r.value()),
{
    let rr = r.mul(r);
    let t1 = rr.mul(y2);
    let t2 = r.mul(c);
    let s = y1.add(&t1);
    let y = s.add(&t2);
    proof {
        let p = F::modulus();
        F::lemma_modulus();
        let (a, b, d, e) = (y1.value(), y2.value(), c.value(), r.value());
        lemma_mul_mod_noop_left(e * e, b, p);
        lemma_add_mod_noop_right(a, e * e * b, p);
        lemma_add_mod_noop(a + e * e * b, e * d, p);
    }
    y
}

impl<G: Group> InnerProductWitness<G> {
    pub fn new(x_vec: &[G::Scalar]) -> (r: Self)
        ensures
            r.x_vec@ == x_vec@,
    {
        let v = copy_range(x_vec, 0, x_vec.len());
        proof {
            assert(x_vec@.subrange(0, x_vec@.len() as int) =~= x_vec@);
        }
        InnerProductWitness { x_vec: v }
    }
}

impl<G: Group> InnerProductInstance<G> {
    /// Builds a claim from a compressed commitment.
    ///
    /// Fails with `DecompressionError` exactly when the encoding stands for
    /// no point.
    pub fn new(comm_x_vec: &CompressedCommitment, a_vec: &[G::Scalar], y: &G::Scalar) -> (r:
        Result<Self, NovaError>)
        ensures
            r is Ok <==> G::decompress_spec(comm_x_vec.bytes@) is Some,
            r matches Ok(u) ==> u.comm_x_vec.comm == G::decompress_spec(
                comm_x_vec.bytes@,
            ).unwrap() && u.a_vec@ == a_vec@ && u.y == *y,
            r matches Err(e) ==> e == NovaError::DecompressionError,
    {
        match comm_x_vec.decompress::<G>() {
            Ok(c) => {
                let a = copy_range(a_vec, 0, a_vec.len());
                proof {
                    assert(a_vec@.subrange(0, a_vec@.len() as int) =~= a_vec@);
                }
                Ok(InnerProductInstance { comm_x_vec: c, a_vec: a, y: *y })
            },
            Err(e) => Err(e),
        }
    }
}

impl<G: Group> StepInnerProductArgument<G> {
    pub fn protocol_name() -> (r: &'static [u8])
        ensures
            r@ == step_protocol_name_spec(),
    {
        "inner product argument (step)".as_bytes()
    }

    /// Absorbs the protocol name, both commitments and the cross-term, and
    /// draws the folding challenge.
    fn challenge(
        u1: &InnerProductInstance<G>,
        u2: &InnerProductInstance<G>,
        c: &G::Scalar,
        transcript: &mut merlin::Transcript,
    ) -> (r: G::Scalar)
        ensures
            r.value() == step_challenge_spec(
                transcript_state(*old(transcript)),
                u1@.comm,
                u2@.comm,
                c.value(),
            ),
            transcript_state(*final(transcript)) == step_final_state(
                transcript_state(*old(transcript)),
                u1@.comm,
                u2@.comm,
                c.value(),
            ),
    {
        let name = Self::protocol_name();
        proof {
            reveal_strlit("inner product argument (step)");
            is_ascii_spec_bytes("inner product argument (step)");
        }
        append_message(transcript, "protocol-name", name);
        u1.comm_x_vec.append_to_transcript("U1_comm_x_vec", transcript);
        u2.comm_x_vec.append_to_transcript("U2_comm_x_vec", transcript);
        append_scalar(transcript, "C", c);
        challenge_scalar(transcript, "r")
    }

    /// Folds two claims and their witnesses into one.
    ///
    /// The cross-term is `<x1, a2> + <x2, a1>`; with the challenge `r` drawn
    /// after it was absorbed, the folded witness is `x1 + r * x2` and the
    /// folded claim is the one that `verify` computes from the same inputs.
    pub fn prove(
        u1: &InnerProductInstance<G>,
        w1: &InnerProductWitness<G>,
        u2: &InnerProductInstance<G>,
        w2: &InnerProductWitness<G>,
        transcript: &mut merlin::Transcript,
    ) -> (r: (Self, InnerProductInstance<G>, InnerProductWitness<G>))
        requires
            u1.a_vec@.len() == w1.x_vec@.len(),
            u2.a_vec@.len() == w1.x_vec@.len(),
            w2.x_vec@.len() == w1.x_vec@.len(),
        ensures
            r.0.c.value() == cross_term_spec(
                G::Scalar::modulus(),
                values(w1.x_vec@),
                u1@.a,
                values(w2.x_vec@),
                u2@.a,
            ),
            r.1@ == step_fold_spec(u1@, u2@, r.0.c.value(), transcript_state(*old(transcript))),
            values(r.2.x_vec@) == fold_vec_spec(
                G::Scalar::modulus(),
                values(w1.x_vec@),
                values(w2.x_vec@),
                step_challenge_spec(
                    transcript_state(*old(transcript)),
                    u1@.comm,
                    u2@.comm,
                    r.0.c.value(),
                ),
            ),
            transcript_state(*final(transcript)) == step_final_state(
                transcript_state(*old(transcript)),
                u1@.comm,
                u2@.comm,
                r.0.c.value(),
            ),
    {
        let t1 = crate::field::inner_product(w1.x_vec.as_slice(), u2.a_vec.as_slice());
        let t2 = crate::field::inner_product(w2.x_vec.as_slice(), u1.a_vec.as_slice());
        let c = t1.add(&t2);
        proof {
            G::Scalar::lemma_modulus();
            lemma_add_mod_noop(
                dot(values(w1.x_vec@), u2@.a),
                dot(values(w2.x_vec@), u1@.a),
                G::Scalar::modulus(),
            );
        }
        let r = Self::challenge(u1, u2, &c, transcript);
        let x_vec = linear_combine(w1.x_vec.as_slice(), w2.x_vec.as_slice(), &r);
        let step = StepInnerProductArgument { c };
        let u = step.fold(u1, u2, &r);
        (step, u, InnerProductWitness { x_vec })
    }

    /// The folded claim for challenge `r`.
    fn fold(&self, u1: &InnerProductInstance<G>, u2: &InnerProductInstance<G>, r: &G::Scalar) -> (u:
        InnerProductInstance<G>)
        requires
            u1.a_vec@.len() == u2.a_vec@.len(),
        ensures
            u@.comm == u1@.comm.add_spec(u2@.comm.mul_spec(r.value())),
            u@.a == fold_vec_spec(G::Scalar::modulus(), u1@.a, u2@.a, r.value()),
            u@.y == fold_value_spec(G::Scalar::modulus(), u1@.y, u2@.y, self.c.value(), r.value()),
    {
        let a_vec = linear_combine(u1.a_vec.as_slice(), u2.a_vec.as_slice(), r);
        let y = fold_value(&u1.y, &u2.y, &self.c, r);
        let comm_x_vec = u1.comm_x_vec.add(&u2.comm_x_vec.mul(r));
        InnerProductInstance { comm_x_vec, a_vec, y }
    }

    /// Recomputes the folded claim from the two claims and the cross-term
    /// of this proof, without the witnesses.
    pub fn verify(
        &self,
        u1: &InnerProductInstance<G>,
        u2: &InnerProductInstance<G>,
        transcript: &mut merlin::Transcript,
    ) -> (u: InnerProductInstance<G>)
        requires
            u1.a_vec@.len() == u2.a_vec@.len(),
        ensures
            u@ == step_fold_spec(u1@, u2@, self.c.value(), transcript_state(*old(transcript))),
            transcript_state(*final(transcript)) == step_final_state(
                transcript_state(*old(transcript)),
                u1@.comm,
                u2@.comm,
                self.c.value(),
            ),
    {
        let r = Self::challenge(u1, u2, &self.c, transcript);
        self.fold(u1, u2, &r)
    }
}

/// Sums of three terms that agree modulo `p` term by term agree modulo `p`.
pub proof fn lemma_add3_mod(a: int, b: int, c: int, x: int, y: int, z: int, p: int)
    requires
        p > 0,
        a % p == x % p,
        b % p == y % p,
        c % p == z % p,
    ensures
        (a + b + c) % p == (x + y + z) % p,
{
    lemma_add_mod_noop(a, b, p);
    lemma_add_mod_noop(x, y, p);
    lemma_add_mod_noop(a + b, c, p);
    lemma_add_mod_noop(x + y, z, p);
}

/// The dot product of two folded vectors, before any reduction of the
/// sums: `<x1, a1> + r * (<x1, a2> + <x2, a1>) + r^2 * <x2, a2>` modulo
/// `p`.
pub proof fn lemma_dot_of_folded(
    p: int,
    x1: Seq<int>,
    a1: Seq<int>,
    x2: Seq<int>,
    a2: Seq<int>,
    r: int,
)
    requires
        p > 1,
        x1.len() == a1.len(),
        x1.len() == x2.len(),
        x1.len() == a2.len(),
    ensures
        dot(fold_vec_spec(p, x1, x2, r), fold_vec_spec(p, a1, a2, r)) % p == (dot(x1, a1) + r * r
            * dot(x2, a2) + r * (dot(x1, a2) + dot(x2, a1))) % p,
    decreases x1.len(),
{
    let fx = fold_vec_spec(p, x1, x2, r);
    let fa = fold_vec_spec(p, a1, a2, r);
    if x1.len() > 0 {
        let (x1i, a1i, x2i, a2i) = (x1.drop_last(), a1.drop_last(), x2.drop_last(), a2.drop_last());
        lemma_dot_of_folded(p, x1i, a1i, x2i, a2i, r);
        assert(fx.drop_last() =~= fold_vec_spec(p, x1i, x2i, r));
        assert(fa.drop_last() =~= fold_vec_spec(p, a1i, a2i, r));
        let (u, v, s, t) = (x1.last(), a1.last(), x2.last(), a2.last());
        let (d11, d22, d12, d21) = (dot(x1i, a1i), dot(x2i, a2i), dot(x1i, a2i), dot(x2i, a1i));
        let before = d11 + r * r * d22 + r * (d12 + d21);
        // the last entries multiply to (u + r s) * (v + r t) modulo p
        lemma_mul_mod_noop(u + r * s, v + r * t, p);
        lemma_add_mod_noop(dot(fx.drop_last(), fa.drop_last()), fx.last() * fa.last(), p);
        lemma_add_mod_noop(before, (u + r * s) * (v + r * t), p);
        let (uv, ut, sv, st) = (u * v, u * t, s * v, s * t);
        let last = (u + r * s) * (v + r * t);
        let (rs, rt) = (r * s, r * t);
        assert(last == uv + u * rt + rs * v + rs * rt) by (nonlinear_arith)
            requires
                uv == u * v,
                last == (u + rs) * (v + rt),
        ;
        assert(u * rt == r * ut) by (nonlinear_arith)
            requires
                rt == r * t,
                ut == u * t,
        ;
        assert(rs * v == r * sv) by (nonlinear_arith)
            requires
                rs == r * s,
                sv == s * v,
        ;
        assert(rs * rt == r * r * st) by (nonlinear_arith)
            requires
                rs == r * s,
                rt == r * t,
                st == s * t,
        ;
        assert(r * r * (d22 + st) == r * r * d22 + r * r * st) by (nonlinear_arith);
        assert(r * ((d12 + ut) + (d21 + sv)) == r * (d12 + d21) + r * ut + r * sv)
            by (nonlinear_arith);
        assert(before + last == (d11 + uv) + r * r * (d22 + st) + r * ((d12 + ut) + (d21 + sv)));
    } else {
        assert(0 + r * r * 0 + r * (0 + 0) == 0) by (nonlinear_arith);
    }
}

/// Folding keeps the claims true: if `y1 = <x1, a1>` and `y2 = <x2, a2>`
/// and the cross-term is `<x1, a2> + <x2, a1>`, then for every challenge
/// `r` the folded value is the inner product of the folded vectors.
pub proof fn lemma_fold_preserves_inner_product(
    p: int,
    x1: Seq<int>,
    a1: Seq<int>,
    x2: Seq<int>,
    a2: Seq<int>,
    r: int,
)
    requires
        p > 1,
        x1.len() == a1.len(),
        x1.len() == x2.len(),
        x1.len() == a2.len(),
    ensures
        dot(fold_vec_spec(p, x1, x2, r), fold_vec_spec(p, a1, a2, r)) % p == fold_value_spec(
            p,
            dot(x1, a1) % p,
            dot(x2, a2) % p,
            cross_term_spec(p, x1, a1, x2, a2),
            r,
        ),
{
    lemma_dot_of_folded(p, x1, a1, x2, a2, r);
    let (d11, d22, dx) = (dot(x1, a1), dot(x2, a2), dot(x1, a2) + dot(x2, a1));
    lemma_mod_twice(d11, p);
    lemma_mul_mod_noop_right(r * r, d22, p);
    lemma_mul_mod_noop_right(r, dx, p);
    lemma_add3_mod(d11 % p, r * r * (d22 % p), r * (dx % p), d11, r * r * d22, r * dx, p);
}

/// Four group elements added pairwise can be paired the other way.
pub proof fn lemma_add_interchange<G: Group>(a: G, b: G, c: G, d: G)
    ensures
        a.add_spec(b).add_spec(c.add_spec(d)) == a.add_spec(c).add_spec(b.add_spec(d)),
{
    G::lemma_add_associative(a, b, c.add_spec(d));
    G::lemma_add_associative(b, c, d);
    G::lemma_add_commutative(b, c);
    G::lemma_add_associative(c, b, d);
    G::lemma_add_associative(a, c, b.add_spec(d));
}

/// Committing is linear: the commitment to `x1 + r * x2` is the commitment
/// to `x1` plus `r` times the commitment to `x2`.
pub proof fn lemma_commit_of_folded<G: Group>(x1: Seq<int>, x2: Seq<int>, gens: Seq<G>, r: int)
    requires
        x1.len() == x2.len(),
        x1.len() == gens.len(),
    ensures
        commit_spec(fold_vec_spec(G::Scalar::modulus(), x1, x2, r), gens) == commit_spec(
            x1,
            gens,
        ).add_spec(commit_spec(x2, gens).mul_spec(r)),
    decreases x1.len(),
{
    let p = G::Scalar::modulus();
    let f = fold_vec_spec(p, x1, x2, r);
    if x1.len() == 0 {
        G::lemma_identity(r);
    } else {
        let (x1i, x2i, gi) = (x1.drop_last(), x2.drop_last(), gens.drop_last());
        lemma_commit_of_folded(x1i, x2i, gi, r);
        assert(f.drop_last() =~= fold_vec_spec(p, x1i, x2i, r));
        let (u, s, g) = (x1.last(), x2.last(), gens.last());
        let (a, b) = (commit_spec(x1i, gi), commit_spec(x2i, gi));
        assert(r * s == s * r) by (nonlinear_arith);
        G::lemma_mul_adds(g, u, r * s);
        G::lemma_mul_associative(g, s, r);
        G::lemma_mul_distributes(b, g.mul_spec(s), r);
        lemma_add_interchange(a, b.mul_spec(r), g.mul_spec(u), g.mul_spec(s).mul_spec(r));
    }
}

/// The claim that the prover folds is the claim that the verifier folds
/// from the prover's cross-term, when both start from the same transcript
/// state; and the folded witness opens it: provided both claims were true
/// of their witnesses, the inner product of the folded witness with the
/// folded public vector is the folded value, and the folded commitment
/// commits to the folded witness under the same generators.
pub proof fn lemma_step_prove_verify_agree<G: Group>(
    u1: InstanceView<G>,
    x1: Seq<int>,
    u2: InstanceView<G>,
    x2: Seq<int>,
    gens: Seq<G>,
    s0: Seq<u8>,
)
    requires
        x1.len() == u1.a.len(),
        x1.len() == x2.len(),
        x1.len() == u2.a.len(),
        x1.len() == gens.len(),
    ensures
        ({
            let p = G::Scalar::modulus();
            let c = cross_term_spec(p, x1, u1.a, x2, u2.a);
            let proved = step_fold_spec(u1, u2, c, s0);
            let verified = step_fold_spec(u1, u2, c, s0);
            let r = step_challenge_spec(s0, u1.comm, u2.comm, c);
            &&& proved.comm == verified.comm && proved.a == verified.a && proved.y == verified.y
            &&& u1.y == dot(x1, u1.a) % p && u2.y == dot(x2, u2.a) % p ==> dot(
                fold_vec_spec(p, x1, x2, r),
                proved.a,
            ) % p == proved.y
            &&& u1.comm == commit_spec(x1, gens) && u2.comm == commit_spec(x2, gens)
                ==> proved.comm == commit_spec(fold_vec_spec(p, x1, x2, r), gens)
        }),
{
    let p = G::Scalar::modulus();
    G::Scalar::lemma_modulus();
    let c = cross_term_spec(p, x1, u1.a, x2, u2.a);
    let r = step_challenge_spec(s0, u1.comm, u2.comm, c);
    lemma_fold_preserves_inner_product(p, x1, u1.a, x2, u2.a, r);
    lemma_commit_of_folded(x1, x2, gens, r);
}

} // verus!
