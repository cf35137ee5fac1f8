//! Defines a `TranscriptProtocol` trait for using a Merlin transcript.

use merlin::Transcript;
use vstd::prelude::*;
use vstd::utf8::{encode_utf8, is_ascii_chars_encode_utf8};
use crate::bytes::{le_bytes, le_value, write_u64};
use crate::group::{Field, Group};
use crate::modular::md;

verus! {

/// What has been done with a transcript: for each operation its label, the
/// bytes that it absorbed and the number of bytes that it squeezed out.
pub type Log = Seq<(Seq<char>, Seq<u8>, nat)>;

#[verifier::external_type_specification]
#[verifier::external_body]
pub struct ExTranscript(merlin::Transcript);

/// The operations that a `merlin::Transcript` has been through.
pub uninterp spec fn transcript_log(t: merlin::Transcript) -> Seq<(Seq<char>, Seq<u8>, nat)>;

/// The `n` bytes that `merlin::Transcript::challenge_bytes` gives for a label
/// after the operations of `log`.
pub uninterp spec fn merlin_challenge(
    log: Seq<(Seq<char>, Seq<u8>, nat)>,
    label: Seq<char>,
    n: nat,
) -> Seq<u8>;

/// The log after a message was appended.
pub open spec fn append(log: Log, label: Seq<char>, message: Seq<u8>) -> Log {
    log.push((label, message, 0nat))
}

/// The log after an integer was appended, as eight little-endian bytes.
pub open spec fn append_number(log: Log, label: Seq<char>, n: int) -> Log {
    append(log, label, le_bytes(n, 8))
}

/// The log after a text was appended.
pub open spec fn append_text(log: Log, label: Seq<char>, text: Seq<char>) -> Log {
    append(log, label, encode_utf8(text))
}

/// The log after a scalar was appended, in its canonical encoding.
pub open spec fn append_scalar(log: Log, label: Seq<char>, value: int) -> Log {
    append(log, label, le_bytes(value, 32))
}

/// The log after a challenge was drawn.
pub open spec fn challenged(log: Log, label: Seq<char>) -> Log {
    log.push((label, Seq::empty(), 64nat))
}

/// The challenge scalar that is drawn after the operations of `log`.
pub open spec fn challenge<F: Field>(log: Log, label: Seq<char>) -> int {
    md(le_value(merlin_challenge(log, label, 64)), F::modulus())
}

/// `merlin::Transcript::append_message` absorbs the label and the message. It
/// panics on messages whose length does not fit into 32 bits.
#[verifier::external_body]
pub(crate) fn append_message(t: &mut Transcript, label: &'static str, message: &[u8])
    requires
        message@.len() <= u32::MAX,
    ensures
        transcript_log(*final(t)) == append(transcript_log(*old(t)), label@, message@),
{
    t.append_message(label.as_bytes(), message);
}

/// `merlin::Transcript::challenge_bytes` fills the buffer with bytes that
/// depend on the label, the number of bytes and all that the transcript has
/// been through, and records the draw in the transcript.
#[verifier::external_body]
pub(crate) fn challenge_bytes(t: &mut Transcript, label: &'static str) -> (r: [u8; 64])
    ensures
        r@ == merlin_challenge(transcript_log(*old(t)), label@, 64),
        transcript_log(*final(t)) == challenged(transcript_log(*old(t)), label@),
{
    let mut buf = [0u8; 64];
    t.challenge_bytes(label.as_bytes(), &mut buf);
    buf
}

/// Appends a text.
pub(crate) fn commit_text(t: &mut Transcript, label: &'static str, text: &'static str)
    requires
        encode_utf8(text@).len() <= u32::MAX,
    ensures
        transcript_log(*final(t)) == append_text(transcript_log(*old(t)), label@, text@),
{
    append_message(t, label, text.as_bytes());
}

/// Appends an integer, as eight little-endian bytes.
pub(crate) fn commit_number(t: &mut Transcript, label: &'static str, n: u64)
    ensures
        transcript_log(*final(t)) == append_number(transcript_log(*old(t)), label@, n as int),
{
    append_message(t, label, &le_u64(n));
}

/// Extension trait for Merlin transcripts to work with scalars and points of
/// a group.
pub trait TranscriptProtocol<G: Group> {
    /// The operations that the transcript has been through.
    spec fn log(&self) -> Log;

    /// Commit a domain separator for a length-`n` inner product proof.
    fn innerproduct_domain_sep(&mut self, n: u64)
        ensures
            final(self).log() == append_number(
                append_text(old(self).log(), "dom-sep"@, "ipp v1"@),
                "n"@,
                n as int,
            ),
    ;

    /// Commit a domain separator for a constraint system.
    fn r1cs_domain_sep(&mut self)
        ensures
            final(self).log() == append_text(old(self).log(), "dom-sep"@, "r1cs v1"@),
    ;

    /// Commit a 64-bit integer.
    fn commit_u64(&mut self, label: &'static str, n: u64)
        ensures
            final(self).log() == append_number(old(self).log(), label@, n as int),
    ;

    /// Commit a scalar with the given label.
    fn commit_scalar(&mut self, label: &'static str, scalar: &G::Scalar)
        ensures
            final(self).log() == append_scalar(old(self).log(), label@, scalar.value()),
    ;

    /// Commit a compressed point with the given label.
    fn commit_point(&mut self, label: &'static str, point: &G::Encoding)
        requires
            G::bytes(*point).len() <= u32::MAX,
        ensures
            final(self).log() == append(old(self).log(), label@, G::bytes(*point)),
    ;

    /// Compute a labeled challenge variable.
    fn challenge_scalar(&mut self, label: &'static str) -> (r: G::Scalar)
        ensures
            r.value() == challenge::<G::Scalar>(old(self).log(), label@),
            final(self).log() == challenged(old(self).log(), label@),
    ;
}

fn le_u64(value: u64) -> (r: [u8; 8])
    ensures
        r@ == le_bytes(value as int, 8),
{
    write_u64(value)
}

impl<G: Group> TranscriptProtocol<G> for Transcript {
    open spec fn log(&self) -> Log {
        transcript_log(*self)
    }

    fn innerproduct_domain_sep(&mut self, n: u64) {
        proof {
            reveal_strlit("ipp v1");
            is_ascii_chars_encode_utf8("ipp v1"@);
        }
        append_message(self, "dom-sep", "ipp v1".as_bytes());
        append_message(self, "n", &le_u64(n));
    }

    fn r1cs_domain_sep(&mut self) {
        proof {
            reveal_strlit("r1cs v1");
            is_ascii_chars_encode_utf8("r1cs v1"@);
        }
        append_message(self, "dom-sep", "r1cs v1".as_bytes());
    }

    fn commit_u64(&mut self, label: &'static str, n: u64) {
        append_message(self, label, &le_u64(n));
    }

    fn commit_scalar(&mut self, label: &'static str, scalar: &G::Scalar) {
        append_message(self, label, &scalar.to_bytes());
    }

    fn commit_point(&mut self, label: &'static str, point: &G::Encoding) {
        append_message(self, label, G::as_bytes(point));
    }

    fn challenge_scalar(&mut self, label: &'static str) -> (r: G::Scalar) {
        let ghost before = transcript_log(*self);
        let buf: [u8; 64] = challenge_bytes(self, label);
        assert(<Transcript as TranscriptProtocol<G>>::log(self) == challenged(before, label@));
        // The 512-bit value is reduced modulo the order of the group.
        G::Scalar::from_wide_bytes(&buf)
    }
}

/// Serializes a point to compressed bytes.
pub fn point_to_bytes<G: Group>(point: &G::Point) -> (r: G::Encoding)
    ensures
        crate::group::encodes::<G>(r, G::index(*point)),
{
    G::encode(*point)
}

} // verus!
