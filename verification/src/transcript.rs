use vstd::prelude::*;
use vstd::string::*;
use crate::field::{PrimeField, CHALLENGE_BYTES};

verus! {

#[verifier::external_type_specification]
#[verifier::external_body]
pub struct ExTranscript(merlin::Transcript);

/// The bytes of the sponge state that a transcript holds.
pub uninterp spec fn transcript_state(t: merlin::Transcript) -> Seq<u8>;

/// The sponge state after a labelled message was absorbed into `state`.
pub uninterp spec fn absorbed(state: Seq<u8>, label: Seq<u8>, message: Seq<u8>) -> Seq<u8>;

/// What drawing `n` challenge bytes under `label` from `state` gives: the
/// sponge state afterwards, then the bytes drawn.
pub uninterp spec fn squeezed(state: Seq<u8>, label: Seq<u8>, n: nat) -> (Seq<u8>, Seq<u8>);

/// `merlin::Transcript::append_message`. The new state depends on the old
/// state, the label and the message alone. Messages longer than `u32::MAX`
/// bytes make the outside function panic and are left out.
#[verifier::external_body]
pub(crate) fn append_message(t: &mut merlin::Transcript, label: &'static str, message: &[u8])
    requires
        message@.len() <= u32::MAX,
    ensures
        transcript_state(*final(t)) == absorbed(
            transcript_state(*old(t)),
            label.spec_bytes(),
            message@,
        ),
{
    t.append_message(label.as_bytes(), message)
}

/// `merlin::Transcript::challenge_bytes` into a fresh buffer of `n` bytes.
/// The bytes and the new state depend on the old state, the label and `n`
/// alone. More than `u32::MAX` bytes make the outside function panic.
#[verifier::external_body]
pub(crate) fn challenge_bytes(t: &mut merlin::Transcript, label: &'static str, n: usize) -> (r: Vec<u8>)
    requires
        n <= u32::MAX,
    ensures
        r@ == squeezed(transcript_state(*old(t)), label.spec_bytes(), n as nat).1,
        transcript_state(*final(t)) == squeezed(
            transcript_state(*old(t)),
            label.spec_bytes(),
            n as nat,
        ).0,
{
    let mut dest = vec![0u8; n];
    t.challenge_bytes(label.as_bytes(), &mut dest);
    dest
}

/// The state after the encoding of the residue `v` was absorbed.
pub open spec fn absorbed_scalar<F: PrimeField>(state: Seq<u8>, label: Seq<u8>, v: int) -> Seq<
    u8,
> {
    absorbed(state, label, F::encode_spec(v))
}

/// The state after one challenge scalar was drawn.
pub open spec fn challenge_state(state: Seq<u8>, label: Seq<u8>) -> Seq<u8> {
    squeezed(state, label, CHALLENGE_BYTES as nat).0
}

/// The residue of the challenge scalar drawn from `state` under `label`.
pub open spec fn challenge_value<F: PrimeField>(state: Seq<u8>, label: Seq<u8>) -> int {
    F::reduce_spec(squeezed(state, label, CHALLENGE_BYTES as nat).1)
}

/// Absorbs the canonical encoding of a scalar.
pub fn append_scalar<F: PrimeField>(t: &mut merlin::Transcript, label: &'static str, s: &F)
    ensures
        transcript_state(*final(t)) == absorbed_scalar::<F>(
            transcript_state(*old(t)),
            label.spec_bytes(),
            s.value(),
        ),
{
    let bytes = s.to_bytes();
    append_message(t, label, bytes.as_slice());
}

/// Draws a challenge scalar: uniform bytes reduced into the field.
pub fn challenge_scalar<F: PrimeField>(t: &mut merlin::Transcript, label: &'static str) -> (r: F)
    ensures
        r.value() == challenge_value::<F>(transcript_state(*old(t)), label.spec_bytes()),
        transcript_state(*final(t)) == challenge_state(
            transcript_state(*old(t)),
            label.spec_bytes(),
        ),
{
    let bytes = challenge_bytes(t, label, CHALLENGE_BYTES);
    F::from_uniform_bytes(bytes.as_slice())
}

/// A transcript is deterministic: from equal states, absorbing the same
/// labelled messages and then drawing under the same label gives the same
/// challenge and leaves equal states.
pub proof fn lemma_transcript_deterministic<F: PrimeField>(
    s1: Seq<u8>,
    s2: Seq<u8>,
    labels: Seq<Seq<u8>>,
    messages: Seq<Seq<u8>>,
    challenge_label: Seq<u8>,
)
    requires
        s1 == s2,
        labels.len() == messages.len(),
    ensures
        challenge_value::<F>(absorbed_all(s1, labels, messages), challenge_label)
            == challenge_value::<F>(absorbed_all(s2, labels, messages), challenge_label),
        challenge_state(absorbed_all(s1, labels, messages), challenge_label) == challenge_state(
            absorbed_all(s2, labels, messages),
            challenge_label,
        ),
{
}

/// The state after a sequence of labelled messages was absorbed in order.
pub open spec fn absorbed_all(state: Seq<u8>, labels: Seq<Seq<u8>>, messages: Seq<Seq<u8>>) -> Seq<
    u8,
>
    decreases labels.len(),
{
    if labels.len() == 0 || messages.len() == 0 {
        state
    } else {
        absorbed(
            absorbed_all(state, labels.drop_last(), messages.drop_last()),
            labels.last(),
            messages.last(),
        )
    }
}

} // verus!
