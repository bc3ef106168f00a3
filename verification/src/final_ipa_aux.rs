use vstd::prelude::*;
use vstd::string::*;
use crate::commitments::{
    all_decode,
    commit,
    commit_spec,
    decoded,
    encodings,
    CommitGens,
    Commitment,
    CompressedCommitment,
};
use crate::errors::NovaError;
use crate::field::{all_nonzero, dot, is_inverse_mod, values, PrimeField};
use crate::final_ipa::{derive_coins, exps_spec, singleton, verdict, Coins};
use crate::group::Group;
use crate::reduction::{
    check_encodings_fit,
    concat,
    encodings_fit,
    inverses,
    inverses_spec,
    is_pow2,
    is_power_of_two,
    is_two_to,
    reduce,
    replay_challenges,
    replay_state,
    rounds_spec,
    squares_spec,
    two_to,
    RoundState,
};
use crate::transcript::{
    absorbed,
    absorbed_scalar,
    append_message,
    append_scalar,
    challenge_scalar,
    challenge_state,
    challenge_value,
    transcript_state,
};

verus! {

/// A logarithmic-size argument that two committed vectors have a given
/// inner product.
pub struct FinalInnerProductArgumentAux<G: Group> {
    pub l_vec: Vec<CompressedCommitment>,
    pub r_vec: Vec<CompressedCommitment>,
    pub x_hat: G::Scalar,
    pub a_hat: G::Scalar,
}

pub open spec fn aux_protocol_name_spec() -> Seq<u8> {
    "inner product argument (final, aux)".spec_bytes()
}

/// The transcript state once the protocol name, both commitments and the
/// claimed value were absorbed.
pub open spec fn aux_setup_state<G: Group>(s0: Seq<u8>, comm_x: G, comm_a: G, y: int) -> Seq<u8> {
    absorbed_scalar::<G::Scalar>(
        absorbed(
            absorbed(
                absorbed(s0, "protocol-name".spec_bytes(), aux_protocol_name_spec()),
                "comm_x_vec".spec_bytes(),
                comm_x.compress_spec(),
            ),
            "comm_a_vec".spec_bytes(),
            comm_a.compress_spec(),
        ),
        "y".spec_bytes(),
        y,
    )
}

/// The generator under which the inner product is committed.
pub open spec fn aux_gens_y<G: Group>(s0: Seq<u8>, comm_x: G, comm_a: G, y: int) -> Seq<G> {
    seq![
        G::from_scalar_spec(
            challenge_value::<G::Scalar>(
                aux_setup_state(s0, comm_x, comm_a, y),
                "r".spec_bytes(),
            ),
        ),
    ]
}

/// The transcript state in which the rounds start.
pub open spec fn aux_rounds_state<G: Group>(s0: Seq<u8>, comm_x: G, comm_a: G, y: int) -> Seq<u8> {
    challenge_state(aux_setup_state(s0, comm_x, comm_a, y), "r".spec_bytes())
}

/// The shape that the prover asks of its inputs.
pub open spec fn aux_prove_shape_ok(n: nat, a_len: nat, gens_len: nat, gens_aux_len: nat) -> bool {
    a_len == n && gens_len == n && gens_aux_len == n && is_pow2(gens_len)
}

/// The shape that the verifier asks of a proof and its inputs.
pub open spec fn aux_verify_shape_ok(
    n: nat,
    gens_len: nat,
    gens_aux_len: nat,
    ls: Seq<Seq<u8>>,
    rs: Seq<Seq<u8>>,
) -> bool {
    gens_len == n && gens_aux_len == n && ls.len() < 32 && n == two_to(ls.len()) && ls.len()
        == rs.len() && encodings_fit(ls) && encodings_fit(rs)
}

/// Every entry times `s`, modulo `p`.
pub open spec fn scale_spec(p: int, v: Seq<int>, s: int) -> Seq<int> {
    Seq::new(v.len(), |i: int| (v[i] * s) % p)
}

/// Every entry times `s`.
pub fn scale<F: PrimeField>(v: &[F], s: &F) -> (out: Vec<F>)
    ensures
        values(out@) == scale_spec(F::modulus(), values(v@), s.value()),
{
    let mut out: Vec<F> = Vec::new();
    let mut i: usize = 0;
    while i < v.len()
        invariant
            i <= v@.len(),
            out@.len() == i,
            forall|j: int|
                0 <= j < i ==> (#[trigger] out@[j]).value() == (v@[j].value() * s.value())
                    % F::modulus(),
        decreases v@.len() - i,
    {
        out.push(v[i].mul(s));
        i += 1;
    }
    proof {
        assert(values(out@) =~= scale_spec(F::modulus(), values(v@), s.value()));
    }
    out
}

/// The sum of both commitments, of the commitment to the claimed value,
/// and of the left and right commitments scaled by the squared challenges
/// and their squared inverses.
pub open spec fn aux_lhs<G: Group>(
    c: Seq<int>,
    comm_x: G,
    comm_a: G,
    y: int,
    gens_y: Seq<G>,
    ls: Seq<Seq<u8>>,
    rs: Seq<Seq<u8>>,
) -> G {
    let p = G::Scalar::modulus();
    comm_x.add_spec(comm_a).add_spec(commit_spec(seq![y], gens_y)).add_spec(
        commit_spec(
            squares_spec(p, c) + squares_spec(p, inverses_spec(p, c)),
            decoded::<G>(ls) + decoded::<G>(rs),
        ),
    )
}

/// The commitment to `x_hat * a_hat`, to the tensor scaled by `x_hat` and
/// to the inverted tensor scaled by `a_hat`.
pub open spec fn aux_rhs<G: Group>(
    c: Seq<int>,
    gens: Seq<G>,
    gens_aux: Seq<G>,
    gens_y: Seq<G>,
    x_hat: int,
    a_hat: int,
) -> G {
    let p = G::Scalar::modulus();
    let exps = exps_spec(p, c);
    commit_spec(
        seq![(x_hat * a_hat) % p] + scale_spec(p, exps, x_hat) + scale_spec(
            p,
            inverses_spec(p, exps),
            a_hat,
        ),
        gens_y + gens + gens_aux,
    )
}

impl<G: Group> FinalInnerProductArgumentAux<G> {
    pub fn protocol_name() -> (r: &'static [u8])
        ensures
            r@ == aux_protocol_name_spec(),
    {
        "inner product argument (final, aux)".as_bytes()
    }

    /// The inner product of two equally long vectors.
    pub fn inner_product(a: &[G::Scalar], b: &[G::Scalar]) -> (r: G::Scalar)
        requires
            a@.len() == b@.len(),
        ensures
            r.value() == dot(values(a@), values(b@)) % G::Scalar::modulus(),
    {
        crate::field::inner_product(a, b)
    }

    /// The inverse of every entry; `InvalidIPA` exactly when one is zero.
    pub fn batch_invert(v: &[G::Scalar]) -> (r: Result<Vec<G::Scalar>, NovaError>)
        ensures
            r is Ok <==> all_nonzero(values(v@)),
            r matches Err(e) ==> e == NovaError::InvalidIPA,
            r matches Ok(inv) ==> inv@.len() == v@.len() && forall|i: int|
                0 <= i < v@.len() ==> is_inverse_mod(
                    G::Scalar::modulus(),
                    #[trigger] values(v@)[i],
                    inv@[i].value(),
                ),
    {
        crate::field::batch_invert(v)
    }

    /// Absorbs the protocol name, both commitments and the claimed value,
    /// and derives the generator of the inner product.
    fn setup(
        comm_x_vec: &Commitment<G>,
        comm_a_vec: &Commitment<G>,
        y: &G::Scalar,
        transcript: &mut merlin::Transcript,
    ) -> (gens_y: CommitGens<G>)
        ensures
            gens_y.gens@ == aux_gens_y::<G>(
                transcript_state(*old(transcript)),
                comm_x_vec.comm,
                comm_a_vec.comm,
                y.value(),
            ),
            transcript_state(*final(transcript)) == aux_rounds_state::<G>(
                transcript_state(*old(transcript)),
                comm_x_vec.comm,
                comm_a_vec.comm,
                y.value(),
            ),
    {
        let name = Self::protocol_name();
        proof {
            reveal_strlit("inner product argument (final, aux)");
            is_ascii_spec_bytes("inner product argument (final, aux)");
        }
        append_message(transcript, "protocol-name", name);
        comm_x_vec.append_to_transcript("comm_x_vec", transcript);
        comm_a_vec.append_to_transcript("comm_a_vec", transcript);
        append_scalar(transcript, "y", y);
        let r: G::Scalar = challenge_scalar(transcript, "r");
        CommitGens::from_scalar(&r)
    }

    /// Proves that the two committed vectors have the claimed inner
    /// product.
    ///
    /// Fails with `InvalidInputLength`, and leaves the transcript as it
    /// was, unless the four lengths agree and are a power of two; with
    /// `InvalidIPA` when a round draws the challenge zero.
    pub fn prove(
        comm_x_vec: &Commitment<G>,
        comm_a_vec: &Commitment<G>,
        y: &G::Scalar,
        x_vec: &[G::Scalar],
        a_vec: &[G::Scalar],
        gens: &CommitGens<G>,
        gens_aux: &CommitGens<G>,
        transcript: &mut merlin::Transcript,
    ) -> (r: Result<Self, NovaError>)
        requires
            aux_prove_shape_ok(
                x_vec@.len(),
                a_vec@.len(),
                gens.gens@.len(),
                gens_aux.gens@.len(),
            ) ==> y.value() == dot(values(x_vec@), values(a_vec@)) % G::Scalar::modulus(),
        ensures
            !aux_prove_shape_ok(
                x_vec@.len(),
                a_vec@.len(),
                gens.gens@.len(),
                gens_aux.gens@.len(),
            ) ==> (r matches Err(e) && e == NovaError::InvalidInputLength) && *final(transcript)
                == *old(transcript),
            aux_prove_shape_ok(
                x_vec@.len(),
                a_vec@.len(),
                gens.gens@.len(),
                gens_aux.gens@.len(),
            ) ==> match rounds_spec(
                (RoundState {
                    x: values(x_vec@),
                    a: values(a_vec@),
                    gens: gens.gens@,
                    gens_aux: gens_aux.gens@,
                    ts: aux_rounds_state::<G>(
                        transcript_state(*old(transcript)),
                        comm_x_vec.comm,
                        comm_a_vec.comm,
                        y.value(),
                    ),
                    ls: Seq::<Seq<u8>>::empty(),
                    rs: Seq::<Seq<u8>>::empty(),
                }),
                aux_gens_y::<G>(
                    transcript_state(*old(transcript)),
                    comm_x_vec.comm,
                    comm_a_vec.comm,
                    y.value(),
                ),
                true,
            ) {
                None => r matches Err(e) && e == NovaError::InvalidIPA,
                Some(st) => r matches Ok(pf) && encodings(pf.l_vec@) == st.ls && encodings(
                    pf.r_vec@,
                ) == st.rs && pf.x_hat.value() == st.x[0] && pf.a_hat.value() == st.a[0]
                    && transcript_state(*final(transcript)) == st.ts,
            },
    {
        let n = x_vec.len();
        if a_vec.len() != n || gens.len() != n || !is_power_of_two(gens.len()) || gens_aux.len()
            != n {
            return Err(NovaError::InvalidInputLength);
        }
        let gens_y = Self::setup(comm_x_vec, comm_a_vec, y, transcript);
        match reduce(x_vec, a_vec, gens, gens_aux, &gens_y, true, transcript) {
            Ok(out) => Ok(
                FinalInnerProductArgumentAux {
                    l_vec: out.l_vec,
                    r_vec: out.r_vec,
                    x_hat: out.x_hat,
                    a_hat: out.a_hat,
                },
            ),
            Err(e) => Err(e),
        }
    }

    /// Checks this proof against two commitments and a claimed value.
    ///
    /// The answer is `verdict` of: the shape of the inputs; whether all
    /// replayed challenges are non-zero; whether the left and right
    /// encodings decode; and whether both sides of the final equation are
    /// the same point. On a bad shape the transcript is left as it was.
    pub fn verify(
        &self,
        n: usize,
        comm_x_vec: &Commitment<G>,
        comm_a_vec: &Commitment<G>,
        y: &G::Scalar,
        gens: &CommitGens<G>,
        gens_aux: &CommitGens<G>,
        transcript: &mut merlin::Transcript,
    ) -> (r: Result<(), NovaError>)
        ensures
            ({
                let p = G::Scalar::modulus();
                let s0 = transcript_state(*old(transcript));
                let ls = encodings(self.l_vec@);
                let rs = encodings(self.r_vec@);
                let shape = aux_verify_shape_ok(
                    n as nat,
                    gens.gens@.len(),
                    gens_aux.gens@.len(),
                    ls,
                    rs,
                );
                let gens_y = aux_gens_y::<G>(s0, comm_x_vec.comm, comm_a_vec.comm, y.value());
                let start = aux_rounds_state::<G>(s0, comm_x_vec.comm, comm_a_vec.comm, y.value());
                let c = replay_challenges::<G::Scalar>(start, ls, rs);
                &&& r == verdict(
                    shape,
                    all_nonzero(c),
                    all_decode::<G>(ls) && all_decode::<G>(rs),
                    aux_lhs(
                        c,
                        comm_x_vec.comm,
                        comm_a_vec.comm,
                        y.value(),
                        gens_y,
                        ls,
                        rs,
                    ).same(
                        aux_rhs(
                            c,
                            gens.gens@,
                            gens_aux.gens@,
                            gens_y,
                            self.x_hat.value(),
                            self.a_hat.value(),
                        ),
                    ),
                )
                &&& !shape ==> *final(transcript) == *old(transcript)
                &&& shape ==> transcript_state(*final(transcript)) == replay_state(
                    start,
                    ls,
                    rs,
                    ls.len(),
                )
            }),
    {
        let k = self.l_vec.len();
        if gens.len() != n || gens_aux.len() != n || k >= 32 || !is_two_to(n, k) || k
            != self.r_vec.len() || !check_encodings_fit(self.l_vec.as_slice())
            || !check_encodings_fit(self.r_vec.as_slice()) {
            return Err(NovaError::InvalidInputLength);
        }
        let gens_y = Self::setup(comm_x_vec, comm_a_vec, y, transcript);
        let y_vec = singleton(*y);
        proof {
            assert(values(y_vec@) =~= seq![y.value()]);
        }
        let comm_y = commit(y_vec.as_slice(), &gens_y);
        let coins: Coins<G::Scalar> = match derive_coins(
            n,
            self.l_vec.as_slice(),
            self.r_vec.as_slice(),
            transcript,
        ) {
            Ok(k) => k,
            Err(e) => {
                return Err(e);
            },
        };
        let gens_l = match CommitGens::<G>::reinterpret_commitments_as_gens(self.l_vec.as_slice()) {
            Ok(g) => g,
            Err(e) => {
                return Err(e);
            },
        };
        let gens_r = match CommitGens::<G>::reinterpret_commitments_as_gens(self.r_vec.as_slice()) {
            Ok(g) => g,
            Err(e) => {
                return Err(e);
            },
        };
        let ghost p = G::Scalar::modulus();
        let ghost c = replay_challenges::<G::Scalar>(
            aux_rounds_state::<G>(
                transcript_state(*old(transcript)),
                comm_x_vec.comm,
                comm_a_vec.comm,
                y.value(),
            ),
            encodings(self.l_vec@),
            encodings(self.r_vec@),
        );
        let scalars = concat(coins.squares.as_slice(), coins.inverse_squares.as_slice());
        proof {
            assert(values(scalars@) =~= squares_spec(p, c) + squares_spec(p, inverses_spec(p, c)));
            assert(coins.squares@.len() == values(coins.squares@).len());
            assert(coins.inverse_squares@.len() == values(coins.inverse_squares@).len());
            assert(coins.exps@.len() == values(coins.exps@).len());
        }
        let folded = commit(scalars.as_slice(), &gens_l.combine(&gens_r));
        let lhs = comm_x_vec.add(comm_a_vec).add(&comm_y).add(&folded);
        let exps_inverse = match inverses(coins.exps.as_slice()) {
            Ok(v) => v,
            Err(e) => {
                return Err(e);
            },
        };
        let first = singleton(self.x_hat.mul(&self.a_hat));
        let by_x = scale(coins.exps.as_slice(), &self.x_hat);
        let by_a = scale(exps_inverse.as_slice(), &self.a_hat);
        let v = concat(concat(first.as_slice(), by_x.as_slice()).as_slice(), by_a.as_slice());
        proof {
            assert(exps_inverse@.len() == values(exps_inverse@).len());
            assert(by_x@.len() == values(by_x@).len());
            assert(by_a@.len() == values(by_a@).len());
            assert(values(v@) =~= seq![(self.x_hat.value() * self.a_hat.value()) % p] + scale_spec(
                p,
                exps_spec(p, c),
                self.x_hat.value(),
            ) + scale_spec(p, inverses_spec(p, exps_spec(p, c)), self.a_hat.value()));
        }
        let rhs = commit(v.as_slice(), &gens_y.combine(gens).combine(gens_aux));
        if lhs.eq(&rhs) {
            Ok(())
        } else {
            Err(NovaError::InvalidIPA)
        }
    }
}

} // verus!
