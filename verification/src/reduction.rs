use vstd::prelude::*;
use vstd::string::*;
use vstd::arithmetic::div_mod::*;
use crate::commitments::{commit, commit_spec, encodings, fold_gens_spec, CommitGens, CompressedCommitment};
use crate::errors::NovaError;
use crate::field::{
    all_nonzero,
    batch_invert,
    dot,
    inner_product,
    is_inverse_mod,
    lemma_inverse_unique,
    lemma_no_zero_divisors,
    lemma_prod_zero,
    prod,
    values,
    PrimeField,
};
use crate::group::Group;
use crate::ipa::copy_range;
use crate::transcript::{absorbed, challenge_scalar, challenge_state, challenge_value, transcript_state};

verus! {

/// `2^k`.
pub open spec fn two_to(k: nat) -> nat
    decreases k,
{
    if k == 0 {
        1
    } else {
        2 * two_to((k - 1) as nat)
    }
}

/// `n` is a power of two.
pub open spec fn is_pow2(n: nat) -> bool
    decreases n,
{
    if n <= 1 {
        n == 1
    } else {
        n % 2 == 0 && is_pow2(n / 2)
    }
}

pub proof fn lemma_two_to_monotonic(i: nat, k: nat)
    requires
        i <= k,
    ensures
        1 <= two_to(i) <= two_to(k),
    decreases k,
{
    if i == k && k > 0 {
        lemma_two_to_monotonic((i - 1) as nat, (k - 1) as nat);
    }
    if i < k {
        lemma_two_to_monotonic(i, (k - 1) as nat);
    }
}

/// Whether `n` is a power of two.
pub fn is_power_of_two(n: usize) -> (b: bool)
    ensures
        b == is_pow2(n as nat),
{
    let mut m = n;
    while m > 1 && m % 2 == 0
        invariant
            is_pow2(m as nat) == is_pow2(n as nat),
        decreases m,
    {
        m = m / 2;
    }
    m == 1
}

/// Whether `n` is `2^k`.
pub fn is_two_to(n: usize, k: usize) -> (b: bool)
    ensures
        b == (n == two_to(k as nat)),
{
    let mut r: usize = 1;
    let mut i: usize = 0;
    while i < k
        invariant
            i <= k,
            r == two_to(i as nat),
            r <= n || n == 0,
        decreases k - i,
    {
        if r > n / 2 {
            proof {
                lemma_two_to_monotonic((i + 1) as nat, k as nat);
            }
            return false;
        }
        r = 2 * r;
        i += 1;
    }
    r == n
}

/// The canonical inverse of `a` modulo `p`, where there is one.
pub open spec fn inv_mod(p: int, a: int) -> int {
    choose|b: int| is_inverse_mod(p, a, b)
}

/// The left half of `v` scaled by `wl` plus the right half scaled by `wr`.
pub open spec fn fold_halves_spec(p: int, v: Seq<int>, wl: int, wr: int) -> Seq<int> {
    Seq::new((v.len() / 2) as nat, |i: int| (v[i] * wl + wr * v[i + v.len() / 2]) % p)
}

/// Folds a vector onto its left half: `v[i] * wl + wr * v[i + len / 2]`.
pub fn fold_halves<F: PrimeField>(v: &[F], wl: &F, wr: &F) -> (out: Vec<F>)
    ensures
        values(out@) == fold_halves_spec(F::modulus(), values(v@), wl.value(), wr.value()),
{
    let h = v.len() / 2;
    let mut out: Vec<F> = Vec::new();
    let mut i: usize = 0;
    proof {
        F::lemma_modulus();
    }
    while i < h
        invariant
            i <= h,
            h == v@.len() / 2,
            F::modulus() > 1,
            out@.len() == i,
            forall|j: int|
                0 <= j < i ==> (#[trigger] out@[j]).value() == (v@[j].value() * wl.value()
                    + wr.value() * v@[j + h].value()) % F::modulus(),
        decreases h - i,
    {
        let l = v[i].mul(wl);
        let r = wr.mul(&v[i + h]);
        let e = l.add(&r);
        proof {
            lemma_add_mod_noop(
                v@[i as int].value() * wl.value(),
                wr.value() * v@[i + h].value(),
                F::modulus(),
            );
        }
        out.push(e);
        i += 1;
    }
    proof {
        assert(values(out@) =~= fold_halves_spec(
            F::modulus(),
            values(v@),
            wl.value(),
            wr.value(),
        ));
    }
    out
}

/// `u` followed by `v`.
pub fn concat<F: PrimeField>(u: &[F], v: &[F]) -> (out: Vec<F>)
    ensures
        out@ == u@ + v@,
{
    let mut out = copy_range(u, 0, u.len());
    let mut i: usize = 0;
    proof {
        assert(u@.subrange(0, u@.len() as int) =~= u@);
        assert(out@ =~= u@ + v@.take(0));
    }
    while i < v.len()
        invariant
            i <= v@.len(),
            out@ == u@ + v@.take(i as int),
        decreases v@.len() - i,
    {
        out.push(v[i]);
        proof {
            assert(out@ =~= u@ + v@.take(i + 1));
        }
        i += 1;
    }
    proof {
        assert(v@.take(i as int) =~= v@);
    }
    out
}

/// What a prover holds between two rounds of the reduction: the vectors
/// and generators still to be folded, the transcript state, and the
/// encodings sent so far.
pub struct RoundState<G> {
    pub x: Seq<int>,
    pub a: Seq<int>,
    pub gens: Seq<G>,
    pub gens_aux: Seq<G>,
    pub ts: Seq<u8>,
    pub ls: Seq<Seq<u8>>,
    pub rs: Seq<Seq<u8>>,
}

/// The scalars that one side of a round commits to: its half of `x`, with
/// `aux` the opposite half of `a`, then the cross inner product.
pub open spec fn round_scalars(p: int, x_side: Seq<int>, a_opp: Seq<int>, aux: bool) -> Seq<int> {
    (if aux {
        x_side + a_opp
    } else {
        x_side
    }).push(dot(x_side, a_opp) % p)
}

/// The generators that one side of a round commits under: the opposite
/// half of `gens`, with `aux` its own half of `gens_aux`, then `gens_y`.
pub open spec fn round_gens<G: Group>(
    gens_opp: Seq<G>,
    gens_aux_own: Seq<G>,
    gens_y: Seq<G>,
    aux: bool,
) -> Seq<G> {
    (if aux {
        gens_opp + gens_aux_own
    } else {
        gens_opp
    }) + gens_y
}

/// The encoding of the left commitment of a round.
pub open spec fn round_left<G: Group>(st: RoundState<G>, gens_y: Seq<G>, aux: bool) -> Seq<u8> {
    let h = (st.x.len() / 2) as int;
    commit_spec(
        round_scalars(G::Scalar::modulus(), st.x.take(h), st.a.skip(h), aux),
        round_gens(st.gens.skip(h), st.gens_aux.take(h), gens_y, aux),
    ).compress_spec()
}

/// The encoding of the right commitment of a round.
pub open spec fn round_right<G: Group>(st: RoundState<G>, gens_y: Seq<G>, aux: bool) -> Seq<u8> {
    let h = (st.x.len() / 2) as int;
    commit_spec(
        round_scalars(G::Scalar::modulus(), st.x.skip(h), st.a.take(h), aux),
        round_gens(st.gens.take(h), st.gens_aux.skip(h), gens_y, aux),
    ).compress_spec()
}

/// The transcript state after both commitments of a round were absorbed.
pub open spec fn round_absorbed(ts: Seq<u8>, l: Seq<u8>, r: Seq<u8>) -> Seq<u8> {
    absorbed(absorbed(ts, "L".spec_bytes(), l), "R".spec_bytes(), r)
}

/// The challenge of a round.
pub open spec fn round_challenge<F: PrimeField>(ts: Seq<u8>, l: Seq<u8>, r: Seq<u8>) -> int {
    challenge_value::<F>(round_absorbed(ts, l, r), "challenge_r".spec_bytes())
}

/// The transcript state after the challenge of a round was drawn.
pub open spec fn round_next_state(ts: Seq<u8>, l: Seq<u8>, r: Seq<u8>) -> Seq<u8> {
    challenge_state(round_absorbed(ts, l, r), "challenge_r".spec_bytes())
}

/// The state after one round, for a non-zero challenge.
pub open spec fn round_step<G: Group>(st: RoundState<G>, gens_y: Seq<G>, aux: bool) -> RoundState<
    G,
> {
    let p = G::Scalar::modulus();
    let l = round_left(st, gens_y, aux);
    let r = round_right(st, gens_y, aux);
    let c = round_challenge::<G::Scalar>(st.ts, l, r);
    let ci = inv_mod(p, c);
    RoundState {
        x: fold_halves_spec(p, st.x, c, ci),
        a: fold_halves_spec(p, st.a, ci, c),
        gens: fold_gens_spec(st.gens, ci, c),
        gens_aux: if aux {
            fold_gens_spec(st.gens_aux, c, ci)
        } else {
            st.gens_aux
        },
        ts: round_next_state(st.ts, l, r),
        ls: st.ls.push(l),
        rs: st.rs.push(r),
    }
}

/// The state when the vectors have been folded down to one entry, or
/// `None` if a round drew the challenge zero.
pub open spec fn rounds_spec<G: Group>(st: RoundState<G>, gens_y: Seq<G>, aux: bool) -> Option<
    RoundState<G>,
>
    decreases st.x.len(),
{
    if st.x.len() <= 1 {
        Some(st)
    } else if round_challenge::<G::Scalar>(
        st.ts,
        round_left(st, gens_y, aux),
        round_right(st, gens_y, aux),
    ) == 0 {
        None
    } else {
        rounds_spec(round_step(st, gens_y, aux), gens_y, aux)
    }
}

/// The commitment of one side of a round.
fn round_commit<G: Group>(
    x_side: &[G::Scalar],
    a_opp: &[G::Scalar],
    gens_opp: &CommitGens<G>,
    gens_aux_own: &CommitGens<G>,
    gens_y: &CommitGens<G>,
    aux: bool,
) -> (r: CompressedCommitment)
    requires
        x_side@.len() == a_opp@.len(),
        x_side@.len() == gens_opp.gens@.len(),
        aux ==> x_side@.len() == gens_aux_own.gens@.len(),
        gens_y.gens@.len() == 1,
    ensures
        r.bytes@ == commit_spec(
            round_scalars(G::Scalar::modulus(), values(x_side@), values(a_opp@), aux),
            round_gens(gens_opp.gens@, gens_aux_own.gens@, gens_y.gens@, aux),
        ).compress_spec(),
        r.bytes@.len() <= u32::MAX,
{
    let c = inner_product(x_side, a_opp);
    if aux {
        let mut v = concat(x_side, a_opp);
        v.push(c);
        let g = gens_opp.combine(gens_aux_own).combine(gens_y);
        proof {
            assert(values(v@) =~= round_scalars(
                G::Scalar::modulus(),
                values(x_side@),
                values(a_opp@),
                aux,
            ));
        }
        commit(v.as_slice(), &g).compress()
    } else {
        let mut v = copy_range(x_side, 0, x_side.len());
        v.push(c);
        let g = gens_opp.combine(gens_y);
        proof {
            assert(values(v@) =~= round_scalars(
                G::Scalar::modulus(),
                values(x_side@),
                values(a_opp@),
                aux,
            ));
        }
        commit(v.as_slice(), &g).compress()
    }
}

/// What the reduction hands back: the left and right commitments of all
/// rounds, and the last entries of `x` and of `a`.
pub struct Reduced<F> {
    pub l_vec: Vec<CompressedCommitment>,
    pub r_vec: Vec<CompressedCommitment>,
    pub x_hat: F,
    pub a_hat: F,
}

/// Runs the rounds of the reduction: each round commits to both halves,
/// absorbs the commitments, draws a challenge and folds the vectors and
/// generators onto their left halves.
///
/// Fails with `InvalidIPA` exactly when some round draws the challenge zero.
pub fn reduce<G: Group>(
    x_vec: &[G::Scalar],
    a_vec: &[G::Scalar],
    gens: &CommitGens<G>,
    gens_aux: &CommitGens<G>,
    gens_y: &CommitGens<G>,
    aux: bool,
    transcript: &mut merlin::Transcript,
) -> (r: Result<Reduced<G::Scalar>, NovaError>)
    requires
        is_pow2(x_vec@.len()),
        a_vec@.len() == x_vec@.len(),
        gens.gens@.len() == x_vec@.len(),
        aux ==> gens_aux.gens@.len() == x_vec@.len(),
        gens_y.gens@.len() == 1,
    ensures
        match rounds_spec(
            (RoundState {
                x: values(x_vec@),
                a: values(a_vec@),
                gens: gens.gens@,
                gens_aux: gens_aux.gens@,
                ts: transcript_state(*old(transcript)),
                ls: Seq::<Seq<u8>>::empty(),
                rs: Seq::<Seq<u8>>::empty(),
            }),
            gens_y.gens@,
            aux,
        ) {
            None => r matches Err(e) && e == NovaError::InvalidIPA,
            Some(st) => r matches Ok(out) && encodings(out.l_vec@) == st.ls && encodings(
                out.r_vec@,
            ) == st.rs && out.x_hat.value() == st.x[0] && out.a_hat.value() == st.a[0]
                && transcript_state(*final(transcript)) == st.ts,
        },
{
    let mut x = copy_range(x_vec, 0, x_vec.len());
    let mut a = copy_range(a_vec, 0, a_vec.len());
    let mut g = gens.clone();
    let mut ga = gens_aux.clone();
    let mut l_vec: Vec<CompressedCommitment> = Vec::new();
    let mut r_vec: Vec<CompressedCommitment> = Vec::new();
    let ghost init = RoundState {
        x: values(x_vec@),
        a: values(a_vec@),
        gens: gens.gens@,
        gens_aux: gens_aux.gens@,
        ts: transcript_state(*old(transcript)),
        ls: Seq::<Seq<u8>>::empty(),
        rs: Seq::<Seq<u8>>::empty(),
    };
    proof {
        assert(x_vec@.subrange(0, x_vec@.len() as int) =~= x_vec@);
        assert(a_vec@.subrange(0, a_vec@.len() as int) =~= a_vec@);
        assert(encodings(l_vec@) =~= Seq::<Seq<u8>>::empty());
        G::Scalar::lemma_modulus();
    }
    while x.len() > 1
        invariant
            is_pow2(x@.len()),
            a@.len() == x@.len(),
            g.gens@.len() == x@.len(),
            aux ==> ga.gens@.len() == x@.len(),
            gens_y.gens@.len() == 1,
            G::Scalar::modulus() > 1,
            l_vec@.len() == r_vec@.len(),
            init == (RoundState {
                x: values(x_vec@),
                a: values(a_vec@),
                gens: gens.gens@,
                gens_aux: gens_aux.gens@,
                ts: transcript_state(*old(transcript)),
                ls: Seq::<Seq<u8>>::empty(),
                rs: Seq::<Seq<u8>>::empty(),
            }),
            rounds_spec(
                (RoundState {
                    x: values(x@),
                    a: values(a@),
                    gens: g.gens@,
                    gens_aux: ga.gens@,
                    ts: transcript_state(*transcript),
                    ls: encodings(l_vec@),
                    rs: encodings(r_vec@),
                }),
                gens_y.gens@,
                aux,
            ) == rounds_spec(init, gens_y.gens@, aux),
        decreases x@.len(),
    {
        let n = x.len();
        let h = n / 2;
        let ghost st = RoundState {
            x: values(x@),
            a: values(a@),
            gens: g.gens@,
            gens_aux: ga.gens@,
            ts: transcript_state(*transcript),
            ls: encodings(l_vec@),
            rs: encodings(r_vec@),
        };
        let x_l = copy_range(x.as_slice(), 0, h);
        let x_r = copy_range(x.as_slice(), h, n);
        let a_l = copy_range(a.as_slice(), 0, h);
        let a_r = copy_range(a.as_slice(), h, n);
        let (g_l, g_r) = g.split_at(h);
        let (ga_l, ga_r) = if aux {
            ga.split_at(h)
        } else {
            (ga.clone(), ga.clone())
        };
        proof {
            assert(values(x_l@) =~= st.x.take(h as int));
            assert(values(x_r@) =~= st.x.skip(h as int));
            assert(values(a_l@) =~= st.a.take(h as int));
            assert(values(a_r@) =~= st.a.skip(h as int));
        }
        let l = round_commit(x_l.as_slice(), a_r.as_slice(), &g_r, &ga_l, gens_y, aux);
        let r = round_commit(x_r.as_slice(), a_l.as_slice(), &g_l, &ga_r, gens_y, aux);
        proof {
            if !aux {
                // without the second generator vector neither side reads it
                assert(round_gens(g_r.gens@, ga_l.gens@, gens_y.gens@, aux) == round_gens(
                    st.gens.skip(h as int),
                    st.gens_aux.take(h as int),
                    gens_y.gens@,
                    aux,
                ));
                assert(round_gens(g_l.gens@, ga_r.gens@, gens_y.gens@, aux) == round_gens(
                    st.gens.take(h as int),
                    st.gens_aux.skip(h as int),
                    gens_y.gens@,
                    aux,
                ));
            }
            assert(l.bytes@ == round_left(st, gens_y.gens@, aux));
            assert(r.bytes@ == round_right(st, gens_y.gens@, aux));
        }
        l.append_to_transcript("L", transcript);
        r.append_to_transcript("R", transcript);
        let ghost lb = l.bytes@;
        let ghost rb = r.bytes@;
        l_vec.push(l);
        r_vec.push(r);
        proof {
            assert(encodings(l_vec@) =~= st.ls.push(lb));
            assert(encodings(r_vec@) =~= st.rs.push(rb));
        }
        let c: G::Scalar = challenge_scalar(transcript, "challenge_r");
        match c.inverse() {
            None => {
                proof {
                    assert(c.value() == round_challenge::<G::Scalar>(st.ts, lb, rb));
                    assert(rounds_spec(st, gens_y.gens@, aux) is None);
                }
                return Err(NovaError::InvalidIPA);
            },
            Some(ci) => {
                proof {
                    let p = G::Scalar::modulus();
                    lemma_inverse_unique(p, c.value(), ci.value(), inv_mod(p, c.value()));
                }
                x = fold_halves(x.as_slice(), &c, &ci);
                a = fold_halves(a.as_slice(), &ci, &c);
                g.fold(&ci, &c);
                if aux {
                    ga.fold(&c, &ci);
                }
            },
        }
    }
    Ok(Reduced { l_vec, r_vec, x_hat: x[0], a_hat: a[0] })
}

/// Every encoding is short enough to be absorbed into a transcript.
pub open spec fn encodings_fit(encs: Seq<Seq<u8>>) -> bool {
    forall|i: int| 0 <= i < encs.len() ==> (#[trigger] encs[i]).len() <= u32::MAX
}

/// Whether every encoding is short enough to be absorbed.
pub fn check_encodings_fit(cs: &[CompressedCommitment]) -> (b: bool)
    ensures
        b == encodings_fit(encodings(cs@)),
{
    let mut i: usize = 0;
    while i < cs.len()
        invariant
            i <= cs@.len(),
            forall|j: int| 0 <= j < i ==> (#[trigger] encodings(cs@)[j]).len() <= u32::MAX,
        decreases cs@.len() - i,
    {
        if cs[i].bytes.len() > 0xffff_ffff {
            proof {
                assert(encodings(cs@)[i as int].len() > u32::MAX);
            }
            return false;
        }
        i += 1;
    }
    true
}

/// The transcript state after the first `i` rounds were replayed.
pub open spec fn replay_state(ts: Seq<u8>, ls: Seq<Seq<u8>>, rs: Seq<Seq<u8>>, i: nat) -> Seq<u8>
    decreases i,
{
    if i == 0 {
        ts
    } else {
        round_next_state(replay_state(ts, ls, rs, (i - 1) as nat), ls[i - 1], rs[i - 1])
    }
}

/// The challenges of all rounds, replayed from the commitments sent.
pub open spec fn replay_challenges<F: PrimeField>(
    ts: Seq<u8>,
    ls: Seq<Seq<u8>>,
    rs: Seq<Seq<u8>>,
) -> Seq<int> {
    Seq::new(
        ls.len(),
        |i: int| round_challenge::<F>(replay_state(ts, ls, rs, i as nat), ls[i], rs[i]),
    )
}

/// Replays the rounds: absorbs each pair of commitments and draws the
/// challenge that the prover drew.
pub fn replay<F: PrimeField>(
    l_vec: &[CompressedCommitment],
    r_vec: &[CompressedCommitment],
    transcript: &mut merlin::Transcript,
) -> (out: Vec<F>)
    requires
        l_vec@.len() == r_vec@.len(),
        encodings_fit(encodings(l_vec@)),
        encodings_fit(encodings(r_vec@)),
    ensures
        values(out@) == replay_challenges::<F>(
            transcript_state(*old(transcript)),
            encodings(l_vec@),
            encodings(r_vec@),
        ),
        transcript_state(*final(transcript)) == replay_state(
            transcript_state(*old(transcript)),
            encodings(l_vec@),
            encodings(r_vec@),
            l_vec@.len(),
        ),
{
    let mut out: Vec<F> = Vec::new();
    let mut i: usize = 0;
    let ghost ts = transcript_state(*old(transcript));
    let ghost ls = encodings(l_vec@);
    let ghost rs = encodings(r_vec@);
    while i < l_vec.len()
        invariant
            i <= l_vec@.len(),
            l_vec@.len() == r_vec@.len(),
            ls == encodings(l_vec@),
            rs == encodings(r_vec@),
            encodings_fit(ls),
            encodings_fit(rs),
            out@.len() == i,
            transcript_state(*transcript) == replay_state(ts, ls, rs, i as nat),
            forall|j: int|
                0 <= j < i ==> (#[trigger] out@[j]).value() == round_challenge::<F>(
                    replay_state(ts, ls, rs, j as nat),
                    ls[j],
                    rs[j],
                ),
        decreases l_vec@.len() - i,
    {
        proof {
            assert(ls[i as int].len() <= u32::MAX);
            assert(rs[i as int].len() <= u32::MAX);
        }
        l_vec[i].append_to_transcript("L", transcript);
        r_vec[i].append_to_transcript("R", transcript);
        let c: F = challenge_scalar(transcript, "challenge_r");
        out.push(c);
        i += 1;
    }
    proof {
        assert(values(out@) =~= replay_challenges::<F>(ts, ls, rs));
    }
    out
}

/// The squares of the entries, modulo `p`.
pub open spec fn squares_spec(p: int, v: Seq<int>) -> Seq<int> {
    Seq::new(v.len(), |i: int| (v[i] * v[i]) % p)
}

/// The canonical inverses of the entries, modulo `p`.
pub open spec fn inverses_spec(p: int, v: Seq<int>) -> Seq<int> {
    Seq::new(v.len(), |i: int| inv_mod(p, v[i]))
}

/// The square of every entry.
pub fn squares<F: PrimeField>(v: &[F]) -> (out: Vec<F>)
    ensures
        values(out@) == squares_spec(F::modulus(), values(v@)),
{
    let mut out: Vec<F> = Vec::new();
    let mut i: usize = 0;
    while i < v.len()
        invariant
            i <= v@.len(),
            out@.len() == i,
            forall|j: int|
                0 <= j < i ==> (#[trigger] out@[j]).value() == (v@[j].value() * v@[j].value())
                    % F::modulus(),
        decreases v@.len() - i,
    {
        out.push(v[i].mul(&v[i]));
        i += 1;
    }
    proof {
        assert(values(out@) =~= squares_spec(F::modulus(), values(v@)));
    }
    out
}

/// The inverse of every entry, with one field inversion in all.
///
/// Fails with `InvalidIPA` exactly when an entry is zero.
pub fn inverses<F: PrimeField>(v: &[F]) -> (r: Result<Vec<F>, NovaError>)
    ensures
        r is Ok <==> all_nonzero(values(v@)),
        r matches Err(e) ==> e == NovaError::InvalidIPA,
        r matches Ok(out) ==> values(out@) == inverses_spec(F::modulus(), values(v@)),
{
    match batch_invert(v) {
        Ok(out) => {
            proof {
                let p = F::modulus();
                F::lemma_modulus();
                assert forall|i: int| 0 <= i < v@.len() implies out@[i].value() == inv_mod(
                    p,
                    values(v@)[i],
                ) by {
                    assert(is_inverse_mod(p, values(v@)[i], out@[i].value()));
                    lemma_inverse_unique(p, values(v@)[i], out@[i].value(), inv_mod(p, values(v@)[i]));
                }
                assert(values(out@) =~= inverses_spec(p, values(v@)));
            }
            Ok(out)
        },
        Err(e) => Err(e),
    }
}

/// The product of all entries.
pub fn product<F: PrimeField>(v: &[F]) -> (r: F)
    ensures
        r.value() == prod(values(v@)) % F::modulus(),
{
    let mut acc = F::one();
    let mut i: usize = 0;
    proof {
        F::lemma_modulus();
        lemma_small_mod(1, F::modulus() as nat);
    }
    while i < v.len()
        invariant
            i <= v@.len(),
            F::modulus() > 1,
            acc.value() == prod(values(v@).take(i as int)) % F::modulus(),
        decreases v@.len() - i,
    {
        acc = acc.mul(&v[i]);
        proof {
            let vs = values(v@);
            assert(vs.take(i + 1).drop_last() =~= vs.take(i as int));
            lemma_mul_mod_noop_left(prod(vs.take(i as int)), vs[i as int], F::modulus());
        }
        i += 1;
    }
    proof {
        assert(values(v@).take(i as int) =~= values(v@));
    }
    acc
}

/// The position of the highest set bit of `j`, and 0 for 0.
pub open spec fn highest_bit(j: nat) -> nat
    decreases j,
{
    if j <= 1 {
        0
    } else {
        1 + highest_bit(j / 2)
    }
}

pub proof fn lemma_highest_bit(j: nat, pos: nat)
    requires
        two_to(pos) <= j < two_to(pos + 1),
    ensures
        highest_bit(j) == pos,
    decreases pos,
{
    if pos > 0 {
        lemma_highest_bit(j / 2, (pos - 1) as nat);
    }
}

/// Entry `j` of the tensor of the round challenges: `base` for `j = 0`,
/// and else the entry with the highest bit of `j` cleared, times the
/// square that belongs to that bit (the last square to bit 0).
pub open spec fn tensor_entry(p: int, base: int, sq: Seq<int>, j: nat) -> int
    decreases j,
{
    let pos = highest_bit(j);
    let top = two_to(pos);
    if 1 <= top <= j {
        (tensor_entry(p, base, sq, (j - top) as nat) * sq[sq.len() - 1 - pos]) % p
    } else {
        base
    }
}

/// The tensor of `k` round challenges, of length `2^k`.
pub open spec fn tensor_spec(p: int, base: int, sq: Seq<int>) -> Seq<int> {
    Seq::new(two_to(sq.len()), |j: int| tensor_entry(p, base, sq, j as nat))
}

/// Builds the tensor from its first entry and the squared challenges.
pub fn tensor<F: PrimeField>(base: F, sq: &[F], n: usize) -> (out: Vec<F>)
    requires
        n == two_to(sq@.len()),
    ensures
        values(out@) == tensor_spec(F::modulus(), base.value(), values(sq@)),
{
    let k = sq.len();
    let mut out: Vec<F> = Vec::new();
    out.push(base);
    let mut pos: usize = 0;
    let mut pw: usize = 1;
    let mut i: usize = 1;
    let ghost p = F::modulus();
    let ghost sv = values(sq@);
    proof {
        lemma_two_to_monotonic(0, k as nat);
    }
    while i < n
        invariant
            1 <= i <= n,
            pos <= k,
            n == two_to(k as nat),
            k == sq@.len(),
            sv == values(sq@),
            p == F::modulus(),
            out@.len() == i,
            pw == two_to(pos as nat),
            i == 1 || (pw <= i - 1 && i - 1 < 2 * pw),
            i == 1 ==> pos == 0,
            forall|j: int|
                0 <= j < i ==> (#[trigger] out@[j]).value() == tensor_entry(
                    p,
                    base.value(),
                    sv,
                    j as nat,
                ),
        decreases n - i,
    {
        if i > 1 && i - pw == pw {
            proof {
                if pos + 1 > k {
                    lemma_two_to_monotonic(k as nat, (pos + 1) as nat);
                }
            }
            pw = i;
            pos += 1;
        }
        proof {
            lemma_highest_bit(i as nat, pos as nat);
            if pos >= k {
                lemma_two_to_monotonic(k as nat, pos as nat);
            }
            lemma_two_to_monotonic(pos as nat, pos as nat);
        }
        let e = out[i - pw].mul(&sq[k - 1 - pos]);
        out.push(e);
        i += 1;
    }
    proof {
        assert(values(out@) =~= tensor_spec(p, base.value(), sv));
    }
    out
}

/// The highest set bit of a number below `2^k` is below `k`.
pub proof fn lemma_highest_bit_bound(j: nat, k: nat)
    requires
        1 <= j < two_to(k),
    ensures
        highest_bit(j) < k,
    decreases j,
{
    if j > 1 {
        lemma_highest_bit_bound(j / 2, (k - 1) as nat);
    }
}

/// The tensor of non-zero challenges has no zero entry.
pub proof fn lemma_tensor_nonzero<F: PrimeField>(c: Seq<int>, j: nat)
    requires
        all_nonzero(c),
        forall|i: int| 0 <= i < c.len() ==> 0 <= #[trigger] c[i] < F::modulus(),
        j < two_to(c.len()),
    ensures
        0 < tensor_entry(
            F::modulus(),
            prod(inverses_spec(F::modulus(), c)) % F::modulus(),
            squares_spec(F::modulus(), c),
            j,
        ) < F::modulus(),
    decreases j,
{
    let p = F::modulus();
    F::lemma_modulus();
    let inv = inverses_spec(p, c);
    let sq = squares_spec(p, c);
    let base = prod(inv) % p;
    let pos = highest_bit(j);
    let top = two_to(pos);
    if 1 <= top <= j {
        lemma_highest_bit_bound(j, c.len());
        lemma_tensor_nonzero::<F>(c, (j - top) as nat);
        let before = tensor_entry(p, base, sq, (j - top) as nat);
        let i = c.len() - 1 - pos;
        assert(c[i] != 0);
        lemma_mod_bound(c[i] * c[i], p);
        if sq[i] == 0 {
            lemma_no_zero_divisors::<F>(c[i], c[i]);
        }
        lemma_mod_bound(before * sq[i], p);
        if (before * sq[i]) % p == 0 {
            lemma_no_zero_divisors::<F>(before, sq[i]);
        }
    } else {
        assert forall|i: int| 0 <= i < inv.len() implies 0 < #[trigger] inv[i] < p by {
            assert(c[i] != 0);
            F::lemma_invertible(c[i]);
            assert(is_inverse_mod(p, c[i], inv[i]));
            if inv[i] == 0 {
                assert(c[i] * 0 == 0);
                lemma_small_mod(0, p as nat);
            }
        }
        lemma_prod_zero::<F>(inv);
        lemma_mod_bound(prod(inv), p);
    }
}

/// Replaying the first `i` rounds reads only the first `i` commitments.
pub proof fn lemma_replay_prefix(
    ts: Seq<u8>,
    ls: Seq<Seq<u8>>,
    rs: Seq<Seq<u8>>,
    ls2: Seq<Seq<u8>>,
    rs2: Seq<Seq<u8>>,
    i: nat,
)
    requires
        i <= ls.len(),
        i <= rs.len(),
        ls2.take(i as int) == ls.take(i as int),
        rs2.take(i as int) == rs.take(i as int),
        i <= ls2.len(),
        i <= rs2.len(),
    ensures
        replay_state(ts, ls2, rs2, i) == replay_state(ts, ls, rs, i),
    decreases i,
{
    if i > 0 {
        assert(ls2.take(i - 1) =~= ls2.take(i as int).take(i - 1));
        assert(ls.take(i - 1) =~= ls.take(i as int).take(i - 1));
        assert(rs2.take(i - 1) =~= rs2.take(i as int).take(i - 1));
        assert(rs.take(i - 1) =~= rs.take(i as int).take(i - 1));
        lemma_replay_prefix(ts, ls, rs, ls2, rs2, (i - 1) as nat);
        assert(ls2[i - 1] == ls2.take(i as int)[i - 1]);
        assert(ls[i - 1] == ls.take(i as int)[i - 1]);
        assert(rs2[i - 1] == rs2.take(i as int)[i - 1]);
        assert(rs[i - 1] == rs.take(i as int)[i - 1]);
    }
}

/// The commitments sent so far, replayed from `start`, lead to the
/// transcript state that the prover is in.
pub open spec fn in_step<G>(start: Seq<u8>, st: RoundState<G>) -> bool {
    st.ls.len() == st.rs.len() && replay_state(start, st.ls, st.rs, st.ls.len()) == st.ts
}

/// The verifier follows the prover: when the reduction of vectors of
/// length `2^k` ends, it has sent `k` more pairs of commitments; replaying
/// all pairs leads to the transcript state in which the prover ends; and
/// none of the challenges replayed for the new pairs is zero.
pub proof fn lemma_verifier_follows_prover<G: Group>(
    start: Seq<u8>,
    st: RoundState<G>,
    gens_y: Seq<G>,
    aux: bool,
)
    requires
        in_step(start, st),
        is_pow2(st.x.len()),
        rounds_spec(st, gens_y, aux) is Some,
    ensures
        ({
            let end = rounds_spec(st, gens_y, aux).unwrap();
            &&& in_step(start, end)
            &&& end.ls.len() >= st.ls.len()
            &&& st.x.len() == two_to((end.ls.len() - st.ls.len()) as nat)
            &&& end.ls.take(st.ls.len() as int) == st.ls
            &&& end.rs.take(st.rs.len() as int) == st.rs
            &&& forall|i: int|
                st.ls.len() <= i < end.ls.len() ==> #[trigger] replay_challenges::<G::Scalar>(
                    start,
                    end.ls,
                    end.rs,
                )[i] != 0
        }),
    decreases st.x.len(),
{
    let n = st.ls.len() as int;
    if st.x.len() > 1 {
        let l = round_left(st, gens_y, aux);
        let r = round_right(st, gens_y, aux);
        let next = round_step(st, gens_y, aux);
        assert(next.ls.take(n) =~= st.ls);
        assert(next.rs.take(n) =~= st.rs);
        assert(st.ls.take(n) =~= st.ls);
        assert(st.rs.take(n) =~= st.rs);
        lemma_replay_prefix(start, st.ls, st.rs, next.ls, next.rs, n as nat);
        lemma_verifier_follows_prover(start, next, gens_y, aux);
        let end = rounds_spec(st, gens_y, aux).unwrap();
        assert(end.ls.take(n) =~= end.ls.take(n + 1).take(n));
        assert(end.rs.take(n) =~= end.rs.take(n + 1).take(n));
        assert(next.ls.take(n) =~= next.ls.take(n + 1).take(n));
        assert(next.rs.take(n) =~= next.rs.take(n + 1).take(n));
        // the challenge replayed for the pair of this round is the one drawn in it
        lemma_replay_prefix(start, st.ls, st.rs, end.ls, end.rs, n as nat);
        assert(end.ls[n] == end.ls.take(n + 1)[n] && next.ls[n] == l);
        assert(end.rs[n] == end.rs.take(n + 1)[n] && next.rs[n] == r);
        assert(replay_challenges::<G::Scalar>(start, end.ls, end.rs)[n] == round_challenge::<
            G::Scalar,
        >(st.ts, l, r));
    } else {
        assert(st.ls.take(n) =~= st.ls);
        assert(st.rs.take(n) =~= st.rs);
    }
}

} // verus!
