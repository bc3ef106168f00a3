use vstd::prelude::*;
use vstd::string::*;
use crate::errors::NovaError;
use crate::field::{values, PrimeField};
use crate::group::Group;
use crate::transcript::{absorbed, append_message, transcript_state};

verus! {

/// An ordered sequence of independent generators.
pub struct CommitGens<G: Group> {
    pub gens: Vec<G>,
}

/// A commitment to a vector of scalars: a single group element.
#[derive(Clone, Copy)]
pub struct Commitment<G: Group> {
    pub comm: G,
}

/// The compressed encoding of a commitment.
#[derive(Clone, Debug, PartialEq, Eq)]
pub struct CompressedCommitment {
    pub bytes: Vec<u8>,
}

/// The sum of `scalars[i] * gens[i]` over the common prefix of both.
pub open spec fn commit_spec<G: Group>(scalars: Seq<int>, gens: Seq<G>) -> G
    decreases scalars.len(),
{
    if scalars.len() == 0 || gens.len() == 0 {
        G::identity_spec()
    } else {
        commit_spec(scalars.drop_last(), gens.drop_last()).add_spec(
            gens.last().mul_spec(scalars.last()),
        )
    }
}

/// Each generator of the left half combined with its partner of the right
/// half: `w1 * left[i] + w2 * right[i]`.
pub open spec fn fold_gens_spec<G: Group>(gens: Seq<G>, w1: int, w2: int) -> Seq<G> {
    Seq::new(
        (gens.len() / 2) as nat,
        |i: int| gens[i].mul_spec(w1).add_spec(gens[i + gens.len() / 2].mul_spec(w2)),
    )
}

/// The encodings that a sequence of compressed commitments holds.
pub open spec fn encodings(cs: Seq<CompressedCommitment>) -> Seq<Seq<u8>> {
    Seq::new(cs.len(), |i: int| cs[i].bytes@)
}

/// Every encoding stands for a point.
pub open spec fn all_decode<G: Group>(encs: Seq<Seq<u8>>) -> bool {
    forall|i: int| 0 <= i < encs.len() ==> (#[trigger] G::decompress_spec(encs[i])) is Some
}

/// The points that the encodings stand for.
pub open spec fn decoded<G: Group>(encs: Seq<Seq<u8>>) -> Seq<G> {
    Seq::new(encs.len(), |i: int| G::decompress_spec(encs[i]).unwrap())
}

impl<G: Group> CommitGens<G> {
    pub fn len(&self) -> (n: usize)
        ensures
            n == self.gens@.len(),
    {
        self.gens.len()
    }

    /// A copy of these generators.
    pub fn clone(&self) -> (r: Self)
        ensures
            r.gens@ == self.gens@,
    {
        let mut out: Vec<G> = Vec::new();
        let mut i: usize = 0;
        while i < self.gens.len()
            invariant
                i <= self.gens@.len(),
                out@ == self.gens@.take(i as int),
            decreases self.gens@.len() - i,
        {
            out.push(self.gens[i]);
            proof {
                assert(out@ =~= self.gens@.take(i + 1));
            }
            i += 1;
        }
        proof {
            assert(self.gens@.take(i as int) =~= self.gens@);
        }
        CommitGens { gens: out }
    }

    /// The single generator derived from a scalar.
    pub fn from_scalar(s: &G::Scalar) -> (r: Self)
        ensures
            r.gens@ == seq![G::from_scalar_spec(s.value())],
    {
        let mut out: Vec<G> = Vec::new();
        out.push(G::from_scalar(s));
        proof {
            assert(out@ =~= seq![G::from_scalar_spec(s.value())]);
        }
        CommitGens { gens: out }
    }

    /// The generators before `mid`, and those from `mid` on.
    pub fn split_at(&self, mid: usize) -> (r: (Self, Self))
        requires
            mid <= self.gens@.len(),
        ensures
            r.0.gens@ == self.gens@.take(mid as int),
            r.1.gens@ == self.gens@.skip(mid as int),
    {
        let mut left: Vec<G> = Vec::new();
        let mut right: Vec<G> = Vec::new();
        let mut i: usize = 0;
        while i < self.gens.len()
            invariant
                i <= self.gens@.len(),
                mid <= self.gens@.len(),
                i <= mid ==> left@ == self.gens@.take(i as int) && right@.len() == 0,
                i > mid ==> left@ == self.gens@.take(mid as int) && right@
                    == self.gens@.subrange(mid as int, i as int),
            decreases self.gens@.len() - i,
        {
            if i < mid {
                left.push(self.gens[i]);
                proof {
                    assert(left@ =~= self.gens@.take(i + 1));
                }
            } else {
                right.push(self.gens[i]);
                proof {
                    assert(right@ =~= self.gens@.subrange(mid as int, i + 1));
                    assert(left@ =~= self.gens@.take(mid as int));
                }
            }
            i += 1;
        }
        proof {
            assert(left@ =~= self.gens@.take(mid as int));
            assert(right@ =~= self.gens@.skip(mid as int));
        }
        (CommitGens { gens: left }, CommitGens { gens: right })
    }

    /// These generators followed by those of `other`.
    pub fn combine(&self, other: &Self) -> (r: Self)
        ensures
            r.gens@ == self.gens@ + other.gens@,
    {
        let mut out = self.clone().gens;
        let mut i: usize = 0;
        while i < other.gens.len()
            invariant
                i <= other.gens@.len(),
                out@ == self.gens@ + other.gens@.take(i as int),
            decreases other.gens@.len() - i,
        {
            out.push(other.gens[i]);
            proof {
                assert(out@ =~= self.gens@ + other.gens@.take(i + 1));
            }
            i += 1;
        }
        proof {
            assert(other.gens@.take(i as int) =~= other.gens@);
        }
        CommitGens { gens: out }
    }

    /// Halves the generators in place: entry `i` becomes
    /// `w1 * left[i] + w2 * right[i]`.
    pub fn fold(&mut self, w1: &G::Scalar, w2: &G::Scalar)
        ensures
            final(self).gens@ == fold_gens_spec(old(self).gens@, w1.value(), w2.value()),
    {
        let n = self.gens.len();
        let half = n / 2;
        let mut out: Vec<G> = Vec::new();
        let mut i: usize = 0;
        while i < half
            invariant
                i <= half,
                half == n / 2,
                n == self.gens@.len(),
                out@.len() == i,
                forall|j: int|
                    0 <= j < i ==> out@[j] == self.gens@[j].mul_spec(w1.value()).add_spec(
                        self.gens@[j + half].mul_spec(w2.value()),
                    ),
            decreases half - i,
        {
            let l = self.gens[i].mul(w1);
            let r = self.gens[i + half].mul(w2);
            out.push(l.add(&r));
            i += 1;
        }
        proof {
            assert(out@ =~= fold_gens_spec(self.gens@, w1.value(), w2.value()));
        }
        self.gens = out;
    }

    /// Decodes each commitment and takes the points as generators.
    ///
    /// Fails with `DecompressionError` exactly when some encoding stands for
    /// no point.
    pub fn reinterpret_commitments_as_gens(c: &[CompressedCommitment]) -> (r: Result<
        Self,
        NovaError,
    >)
        ensures
            r is Ok <==> all_decode::<G>(encodings(c@)),
            r is Ok ==> r.unwrap().gens@ == decoded::<G>(encodings(c@)),
            r matches Err(e) ==> e == NovaError::DecompressionError,
    {
        let mut out: Vec<G> = Vec::new();
        let mut i: usize = 0;
        let ghost encs = encodings(c@);
        while i < c.len()
            invariant
                i <= c@.len(),
                encs == encodings(c@),
                out@.len() == i,
                forall|j: int| 0 <= j < i ==> (#[trigger] G::decompress_spec(encs[j])) is Some,
                forall|j: int| 0 <= j < i ==> out@[j] == G::decompress_spec(encs[j]).unwrap(),
            decreases c@.len() - i,
        {
            match G::decompress(c[i].bytes.as_slice()) {
                Some(g) => {
                    out.push(g);
                },
                None => {
                    proof {
                        assert(G::decompress_spec(encs[i as int]) is None);
                    }
                    return Err(NovaError::DecompressionError);
                },
            }
            i += 1;
        }
        proof {
            assert(out@ =~= decoded::<G>(encs));
        }
        Ok(CommitGens { gens: out })
    }
}

/// Commits to `scalars` under `gens`.
pub fn commit<G: Group>(scalars: &[G::Scalar], gens: &CommitGens<G>) -> (r: Commitment<G>)
    requires
        scalars@.len() == gens.gens@.len(),
    ensures
        r.comm == commit_spec(values(scalars@), gens.gens@),
{
    let mut acc = G::identity();
    let mut i: usize = 0;
    let ghost vs = values(scalars@);
    while i < scalars.len()
        invariant
            i <= scalars@.len(),
            scalars@.len() == gens.gens@.len(),
            vs == values(scalars@),
            acc == commit_spec(vs.take(i as int), gens.gens@.take(i as int)),
        decreases scalars@.len() - i,
    {
        let term = gens.gens[i].mul(&scalars[i]);
        acc = acc.add(&term);
        proof {
            assert(vs.take(i + 1).drop_last() =~= vs.take(i as int));
            assert(gens.gens@.take(i + 1).drop_last() =~= gens.gens@.take(i as int));
        }
        i += 1;
    }
    proof {
        assert(vs.take(i as int) =~= vs);
        assert(gens.gens@.take(i as int) =~= gens.gens@);
    }
    Commitment { comm: acc }
}

impl<G: Group> Commitment<G> {
    pub fn compress(&self) -> (r: CompressedCommitment)
        ensures
            r.bytes@ == self.comm.compress_spec(),
            r.bytes@.len() <= u32::MAX,
    {
        CompressedCommitment { bytes: self.comm.compress() }
    }

    pub fn add(&self, rhs: &Self) -> (r: Self)
        ensures
            r.comm == self.comm.add_spec(rhs.comm),
    {
        Commitment { comm: self.comm.add(&rhs.comm) }
    }

    pub fn mul(&self, s: &G::Scalar) -> (r: Self)
        ensures
            r.comm == self.comm.mul_spec(s.value()),
    {
        Commitment { comm: self.comm.mul(s) }
    }

    pub fn eq(&self, rhs: &Self) -> (r: bool)
        ensures
            r == self.comm.same(rhs.comm),
    {
        self.comm.eq(&rhs.comm)
    }

    /// Absorbs the compressed encoding of this commitment.
    pub fn append_to_transcript(&self, label: &'static str, t: &mut merlin::Transcript)
        ensures
            transcript_state(*final(t)) == absorbed(
                transcript_state(*old(t)),
                label.spec_bytes(),
                self.comm.compress_spec(),
            ),
    {
        let bytes = self.comm.compress();
        append_message(t, label, bytes.as_slice());
    }
}

impl CompressedCommitment {
    /// The commitment that this encoding stands for.
    pub fn decompress<G: Group>(&self) -> (r: Result<Commitment<G>, NovaError>)
        ensures
            r is Ok <==> G::decompress_spec(self.bytes@) is Some,
            r is Ok ==> r.unwrap().comm == G::decompress_spec(self.bytes@).unwrap(),
            r matches Err(e) ==> e == NovaError::DecompressionError,
    {
        match G::decompress(self.bytes.as_slice()) {
            Some(g) => Ok(Commitment { comm: g }),
            None => Err(NovaError::DecompressionError),
        }
    }

    /// Absorbs this encoding, if it is short enough for a transcript.
    pub fn append_to_transcript(&self, label: &'static str, t: &mut merlin::Transcript)
        requires
            self.bytes@.len() <= u32::MAX,
        ensures
            transcript_state(*final(t)) == absorbed(
                transcript_state(*old(t)),
                label.spec_bytes(),
                self.bytes@,
            ),
    {
        append_message(t, label, self.bytes.as_slice());
    }
}

} // verus!
