use vstd::prelude::*;
use vstd::string::*;
use crate::commitments::{
    all_decode,
    commit,
    commit_spec,
    decoded,
    encodings,
    CommitGens,
    CompressedCommitment,
};
use crate::errors::NovaError;
use crate::field::{all_nonzero, dot, is_inverse_mod, prod, values, PrimeField};
use crate::group::Group;
use crate::ipa::{InnerProductInstance, InnerProductWitness};
use crate::reduction::{
    check_encodings_fit,
    concat,
    encodings_fit,
    inverses,
    inverses_spec,
    is_pow2,
    lemma_tensor_nonzero,
    is_power_of_two,
    is_two_to,
    product,
    reduce,
    replay,
    replay_challenges,
    replay_state,
    rounds_spec,
    squares,
    squares_spec,
    tensor,
    tensor_spec,
    two_to,
    RoundState,
};
use crate::transcript::{
    absorbed,
    absorbed_scalar,
    append_message,
    append_scalar,
    challenge_scalar,
    challenge_state,
    challenge_value,
    transcript_state,
};

verus! {

/// A logarithmic-size argument that a committed vector has a given inner
/// product with a public vector.
pub struct FinalInnerProductArgument<G: Group> {
    pub l_vec: Vec<CompressedCommitment>,
    pub r_vec: Vec<CompressedCommitment>,
    pub x_hat: G::Scalar,
}

pub open spec fn final_protocol_name_spec() -> Seq<u8> {
    "inner product argument (final)".spec_bytes()
}

/// The transcript state once the protocol name, the commitment and the
/// claimed value were absorbed.
pub open spec fn final_setup_state<G: Group>(s0: Seq<u8>, comm: G, y: int) -> Seq<u8> {
    absorbed_scalar::<G::Scalar>(
        absorbed(
            absorbed(s0, "protocol-name".spec_bytes(), final_protocol_name_spec()),
            "comm_x_vec".spec_bytes(),
            comm.compress_spec(),
        ),
        "y".spec_bytes(),
        y,
    )
}

/// The generator under which the inner product is committed, derived from
/// the first challenge.
pub open spec fn final_gens_y<G: Group>(s0: Seq<u8>, comm: G, y: int) -> Seq<G> {
    seq![
        G::from_scalar_spec(
            challenge_value::<G::Scalar>(final_setup_state(s0, comm, y), "r".spec_bytes()),
        ),
    ]
}

/// The transcript state in which the rounds start.
pub open spec fn final_rounds_state<G: Group>(s0: Seq<u8>, comm: G, y: int) -> Seq<u8> {
    challenge_state(final_setup_state(s0, comm, y), "r".spec_bytes())
}

/// The shape that the prover asks of its inputs.
pub open spec fn prove_shape_ok(n: nat, a_len: nat, gens_len: nat) -> bool {
    a_len == n && gens_len == n && is_pow2(gens_len)
}

/// The shape that the verifier asks of a proof and its inputs.
pub open spec fn verify_shape_ok(
    n: nat,
    gens_len: nat,
    a_len: nat,
    ls: Seq<Seq<u8>>,
    rs: Seq<Seq<u8>>,
) -> bool {
    gens_len == n && a_len == n && ls.len() < 32 && n == two_to(ls.len()) && ls.len() == rs.len()
        && encodings_fit(ls) && encodings_fit(rs)
}

/// What the verifier answers, from the four things it finds out in turn.
pub open spec fn verdict(shape: bool, nonzero: bool, decodable: bool, accepted: bool) -> Result<
    (),
    NovaError,
> {
    if !shape {
        Err(NovaError::InvalidInputLength)
    } else if !nonzero {
        Err(NovaError::InvalidIPA)
    } else if !decodable {
        Err(NovaError::DecompressionError)
    } else if !accepted {
        Err(NovaError::InvalidIPA)
    } else {
        Ok(())
    }
}

/// The tensor of the round challenges `c`: its first entry is the product
/// of their inverses, and each further entry multiplies in one square.
pub open spec fn exps_spec(p: int, c: Seq<int>) -> Seq<int> {
    tensor_spec(p, prod(inverses_spec(p, c)) % p, squares_spec(p, c))
}

/// The commitment to the claimed value added to that to the vector.
pub open spec fn gamma_spec<G: Group>(comm: G, y: int, gens_y: Seq<G>) -> G {
    comm.add_spec(commit_spec(seq![y], gens_y))
}

/// The encoding of the generators collapsed under the tensor.
pub open spec fn gens_hat_encoding<G: Group>(p: int, c: Seq<int>, gens: Seq<G>) -> Seq<u8> {
    commit_spec(exps_spec(p, c), gens).compress_spec()
}

/// Every encoding that the verifier decodes stands for a point.
pub open spec fn final_decodable<G: Group>(
    c: Seq<int>,
    gens: Seq<G>,
    gamma: G,
    ls: Seq<Seq<u8>>,
    rs: Seq<Seq<u8>>,
) -> bool {
    all_decode::<G>(seq![gens_hat_encoding(G::Scalar::modulus(), c, gens)]) && all_decode::<G>(ls)
        && all_decode::<G>(rs) && all_decode::<G>(seq![gamma.compress_spec()])
}

/// The folded accumulator: the left commitments scaled by the squared
/// challenges, the right ones by the squared inverses, plus `gamma`.
pub open spec fn final_lhs<G: Group>(c: Seq<int>, gamma: G, ls: Seq<Seq<u8>>, rs: Seq<Seq<u8>>) -> G {
    let p = G::Scalar::modulus();
    commit_spec(
        squares_spec(p, c) + squares_spec(p, inverses_spec(p, c)) + seq![1int],
        decoded::<G>(ls) + decoded::<G>(rs) + decoded::<G>(seq![gamma.compress_spec()]),
    )
}

/// The commitment to `x_hat` and `x_hat * a_hat` under the collapsed
/// generator and the generator of the inner product.
pub open spec fn final_rhs<G: Group>(
    c: Seq<int>,
    gens: Seq<G>,
    gens_y: Seq<G>,
    a: Seq<int>,
    x_hat: int,
) -> G {
    let p = G::Scalar::modulus();
    let a_hat = dot(a, exps_spec(p, c)) % p;
    commit_spec(
        seq![x_hat, (x_hat * a_hat) % p],
        decoded::<G>(seq![gens_hat_encoding(p, c, gens)]) + gens_y,
    )
}

/// A vector of one entry.
pub fn singleton<F: PrimeField>(x: F) -> (r: Vec<F>)
    ensures
        r@ == seq![x],
{
    let mut v: Vec<F> = Vec::new();
    v.push(x);
    proof {
        assert(v@ =~= seq![x]);
    }
    v
}

/// The generators that one commitment decodes to.
pub fn gens_of_commitment<G: Group>(c: CompressedCommitment) -> (r: Result<CommitGens<G>, NovaError>)
    ensures
        r is Ok <==> all_decode::<G>(seq![c.bytes@]),
        r matches Ok(g) ==> g.gens@ == decoded::<G>(seq![c.bytes@]),
        r matches Err(e) ==> e == NovaError::DecompressionError,
{
    let mut v: Vec<CompressedCommitment> = Vec::new();
    v.push(c);
    proof {
        assert(encodings(v@) =~= seq![c.bytes@]);
    }
    CommitGens::reinterpret_commitments_as_gens(v.as_slice())
}

/// What the verifier derives from the round challenges.
pub struct Coins<F> {
    pub squares: Vec<F>,
    pub inverse_squares: Vec<F>,
    pub exps: Vec<F>,
}

/// Replays the rounds and derives the squared challenges, the squared
/// inverses and the tensor.
///
/// Fails with `InvalidIPA` exactly when a round challenge is zero.
pub fn derive_coins<F: PrimeField>(
    n: usize,
    l_vec: &[CompressedCommitment],
    r_vec: &[CompressedCommitment],
    transcript: &mut merlin::Transcript,
) -> (r: Result<Coins<F>, NovaError>)
    requires
        l_vec@.len() == r_vec@.len(),
        n == two_to(l_vec@.len()),
        encodings_fit(encodings(l_vec@)),
        encodings_fit(encodings(r_vec@)),
    ensures
        transcript_state(*final(transcript)) == replay_state(
            transcript_state(*old(transcript)),
            encodings(l_vec@),
            encodings(r_vec@),
            l_vec@.len(),
        ),
        r is Ok <==> all_nonzero(
            replay_challenges::<F>(
                transcript_state(*old(transcript)),
                encodings(l_vec@),
                encodings(r_vec@),
            ),
        ),
        r matches Err(e) ==> e == NovaError::InvalidIPA,
        r matches Ok(k) ==> {
            let c = replay_challenges::<F>(
                transcript_state(*old(transcript)),
                encodings(l_vec@),
                encodings(r_vec@),
            );
            &&& values(k.squares@) == squares_spec(F::modulus(), c)
            &&& values(k.inverse_squares@) == squares_spec(
                F::modulus(),
                inverses_spec(F::modulus(), c),
            )
            &&& values(k.exps@) == exps_spec(F::modulus(), c)
            &&& all_nonzero(exps_spec(F::modulus(), c))
        },
{
    let c: Vec<F> = replay(l_vec, r_vec, transcript);
    match inverses(c.as_slice()) {
        Err(e) => Err(e),
        Ok(c_inv) => {
            let sq = squares(c.as_slice());
            let inv_sq = squares(c_inv.as_slice());
            let base = product(c_inv.as_slice());
            proof {
                assert(values(sq@).len() == l_vec@.len());
                assert(sq@.len() == values(sq@).len());
            }
            let exps = tensor(base, sq.as_slice(), n);
            proof {
                let cv = values(c@);
                assert forall|i: int| 0 <= i < cv.len() implies 0 <= #[trigger] cv[i]
                    < F::modulus() by {
                    c@[i].lemma_value_range();
                }
                assert forall|j: int| 0 <= j < values(exps@).len() implies values(exps@)[j]
                    != 0 by {
                    lemma_tensor_nonzero::<F>(cv, j as nat);
                }
            }
            Ok(Coins { squares: sq, inverse_squares: inv_sq, exps })
        },
    }
}

impl<G: Group> FinalInnerProductArgument<G> {
    pub fn protocol_name() -> (r: &'static [u8])
        ensures
            r@ == final_protocol_name_spec(),
    {
        "inner product argument (final)".as_bytes()
    }

    /// The inner product of two equally long vectors.
    pub fn inner_product(a: &[G::Scalar], b: &[G::Scalar]) -> (r: G::Scalar)
        requires
            a@.len() == b@.len(),
        ensures
            r.value() == dot(values(a@), values(b@)) % G::Scalar::modulus(),
    {
        crate::field::inner_product(a, b)
    }

    /// The inverse of every entry; `InvalidIPA` exactly when one is zero.
    pub fn batch_invert(v: &[G::Scalar]) -> (r: Result<Vec<G::Scalar>, NovaError>)
        ensures
            r is Ok <==> all_nonzero(values(v@)),
            r matches Err(e) ==> e == NovaError::InvalidIPA,
            r matches Ok(inv) ==> inv@.len() == v@.len() && forall|i: int|
                0 <= i < v@.len() ==> is_inverse_mod(
                    G::Scalar::modulus(),
                    #[trigger] values(v@)[i],
                    inv@[i].value(),
                ),
    {
        crate::field::batch_invert(v)
    }

    /// Absorbs the protocol name, the commitment and the claimed value, and
    /// derives the generator of the inner product.
    fn setup(comm_x_vec: &crate::commitments::Commitment<G>, y: &G::Scalar, transcript: &mut merlin::Transcript) -> (gens_y:
        CommitGens<G>)
        ensures
            gens_y.gens@ == final_gens_y::<G>(
                transcript_state(*old(transcript)),
                comm_x_vec.comm,
                y.value(),
            ),
            transcript_state(*final(transcript)) == final_rounds_state::<G>(
                transcript_state(*old(transcript)),
                comm_x_vec.comm,
                y.value(),
            ),
    {
        let name = Self::protocol_name();
        proof {
            reveal_strlit("inner product argument (final)");
            is_ascii_spec_bytes("inner product argument (final)");
        }
        append_message(transcript, "protocol-name", name);
        comm_x_vec.append_to_transcript("comm_x_vec", transcript);
        append_scalar(transcript, "y", y);
        let r: G::Scalar = challenge_scalar(transcript, "r");
        CommitGens::from_scalar(&r)
    }

    /// Proves that the witness has the claimed inner product with the
    /// public vector of the claim.
    ///
    /// Fails with `InvalidInputLength`, and leaves the transcript as it
    /// was, unless the three lengths agree and are a power of two; with
    /// `InvalidIPA` when a round draws the challenge zero.
    pub fn prove(
        u: &InnerProductInstance<G>,
        w: &InnerProductWitness<G>,
        gens: &CommitGens<G>,
        transcript: &mut merlin::Transcript,
    ) -> (r: Result<Self, NovaError>)
        ensures
            !prove_shape_ok(w.x_vec@.len(), u.a_vec@.len(), gens.gens@.len()) ==> (r matches Err(e)
                && e == NovaError::InvalidInputLength) && *final(transcript) == *old(transcript),
            prove_shape_ok(w.x_vec@.len(), u.a_vec@.len(), gens.gens@.len()) ==> match rounds_spec(
                (RoundState {
                    x: values(w.x_vec@),
                    a: u@.a,
                    gens: gens.gens@,
                    gens_aux: Seq::<G>::empty(),
                    ts: final_rounds_state::<G>(
                        transcript_state(*old(transcript)),
                        u@.comm,
                        u@.y,
                    ),
                    ls: Seq::<Seq<u8>>::empty(),
                    rs: Seq::<Seq<u8>>::empty(),
                }),
                final_gens_y::<G>(transcript_state(*old(transcript)), u@.comm, u@.y),
                false,
            ) {
                None => r matches Err(e) && e == NovaError::InvalidIPA,
                Some(st) => r matches Ok(pf) && encodings(pf.l_vec@) == st.ls && encodings(
                    pf.r_vec@,
                ) == st.rs && pf.x_hat.value() == st.x[0] && transcript_state(*final(transcript))
                    == st.ts,
            },
    {
        let n = w.x_vec.len();
        if u.a_vec.len() != n || gens.len() != n || !is_power_of_two(gens.len()) {
            return Err(NovaError::InvalidInputLength);
        }
        let gens_y = Self::setup(&u.comm_x_vec, &u.y, transcript);
        let none: CommitGens<G> = CommitGens { gens: Vec::new() };
        proof {
            assert(none.gens@ =~= Seq::<G>::empty());
        }
        match reduce(
            w.x_vec.as_slice(),
            u.a_vec.as_slice(),
            gens,
            &none,
            &gens_y,
            false,
            transcript,
        ) {
            Ok(out) => Ok(
                FinalInnerProductArgument { l_vec: out.l_vec, r_vec: out.r_vec, x_hat: out.x_hat },
            ),
            Err(e) => Err(e),
        }
    }

    /// Checks this proof against a claim of length `n`.
    ///
    /// The answer is `verdict` of: the shape of the inputs; whether all
    /// replayed challenges are non-zero; whether every encoding decodes;
    /// and whether the folded accumulator is the commitment to `x_hat` and
    /// `x_hat * a_hat`. On a bad shape the transcript is left as it was.
    pub fn verify(
        &self,
        n: usize,
        u: &InnerProductInstance<G>,
        gens: &CommitGens<G>,
        transcript: &mut merlin::Transcript,
    ) -> (r: Result<(), NovaError>)
        ensures
            ({
                let s0 = transcript_state(*old(transcript));
                let ls = encodings(self.l_vec@);
                let rs = encodings(self.r_vec@);
                let shape = verify_shape_ok(n as nat, gens.gens@.len(), u.a_vec@.len(), ls, rs);
                let gens_y = final_gens_y::<G>(s0, u@.comm, u@.y);
                let start = final_rounds_state::<G>(s0, u@.comm, u@.y);
                let c = replay_challenges::<G::Scalar>(start, ls, rs);
                let gamma = gamma_spec(u@.comm, u@.y, gens_y);
                &&& r == verdict(
                    shape,
                    all_nonzero(c),
                    final_decodable(c, gens.gens@, gamma, ls, rs),
                    final_lhs(c, gamma, ls, rs).same(
                        final_rhs(c, gens.gens@, gens_y, u@.a, self.x_hat.value()),
                    ),
                )
                &&& !shape ==> *final(transcript) == *old(transcript)
                &&& shape ==> transcript_state(*final(transcript)) == replay_state(
                    start,
                    ls,
                    rs,
                    ls.len(),
                )
            }),
    {
        let k = self.l_vec.len();
        if gens.len() != n || u.a_vec.len() != n || k >= 32 || !is_two_to(n, k) || k
            != self.r_vec.len() || !check_encodings_fit(self.l_vec.as_slice())
            || !check_encodings_fit(self.r_vec.as_slice()) {
            return Err(NovaError::InvalidInputLength);
        }
        let gens_y = Self::setup(&u.comm_x_vec, &u.y, transcript);
        let y_vec = singleton(u.y);
        proof {
            assert(values(y_vec@) =~= seq![u@.y]);
        }
        let comm_y = commit(y_vec.as_slice(), &gens_y);
        let gamma = u.comm_x_vec.add(&comm_y);
        let coins: Coins<G::Scalar> = match derive_coins(
            n,
            self.l_vec.as_slice(),
            self.r_vec.as_slice(),
            transcript,
        ) {
            Ok(k) => k,
            Err(e) => {
                return Err(e);
            },
        };
        let gens_hat = match gens_of_commitment::<G>(commit(coins.exps.as_slice(), gens).compress()) {
            Ok(g) => g,
            Err(e) => {
                return Err(e);
            },
        };
        let a_hat = Self::inner_product(u.a_vec.as_slice(), coins.exps.as_slice());
        let gens_l = match CommitGens::<G>::reinterpret_commitments_as_gens(self.l_vec.as_slice()) {
            Ok(g) => g,
            Err(e) => {
                return Err(e);
            },
        };
        let gens_r = match CommitGens::<G>::reinterpret_commitments_as_gens(self.r_vec.as_slice()) {
            Ok(g) => g,
            Err(e) => {
                return Err(e);
            },
        };
        let gens_gamma = match gens_of_commitment::<G>(gamma.compress()) {
            Ok(g) => g,
            Err(e) => {
                return Err(e);
            },
        };
        let gens_folded = gens_l.combine(&gens_r).combine(&gens_gamma);
        let mut scalars = concat(coins.squares.as_slice(), coins.inverse_squares.as_slice());
        scalars.push(G::Scalar::one());
        proof {
            let p = G::Scalar::modulus();
            let c = replay_challenges::<G::Scalar>(
                final_rounds_state::<G>(transcript_state(*old(transcript)), u@.comm, u@.y),
                encodings(self.l_vec@),
                encodings(self.r_vec@),
            );
            assert(values(scalars@) =~= squares_spec(p, c) + squares_spec(p, inverses_spec(p, c))
                + seq![1int]);
            assert(values(coins.squares@).len() == k);
            assert(values(coins.inverse_squares@).len() == k);
            assert(coins.squares@.len() == values(coins.squares@).len());
            assert(coins.inverse_squares@.len() == values(coins.inverse_squares@).len());
        }
        let lhs = commit(scalars.as_slice(), &gens_folded);
        let y_hat = self.x_hat.mul(&a_hat);
        let mut pair = singleton(self.x_hat);
        pair.push(y_hat);
        proof {
            assert(values(pair@) =~= seq![self.x_hat.value(), y_hat.value()]);
        }
        let rhs = commit(pair.as_slice(), &gens_hat.combine(&gens_y));
        if lhs.eq(&rhs) {
            Ok(())
        } else {
            Err(NovaError::InvalidIPA)
        }
    }
}

} // verus!
