//! Admission control and content validation.
//!
//! The storage engine invokes this check per candidate record before the
//! record is considered part of the index. Three outcomes exist: `Valid`,
//! `Invalid(reason)` (terminal), and `UnresolvedDependency` (retryable: the
//! caller must try again once the named dependency has replicated).
//!
//! Record decoding and signature verification happen in the engine; the
//! validator receives their outcomes as plain values and decides from those
//! alone.

use vstd::prelude::*;
use crate::types::{IdentityKey, Message};

verus! {

/// Why a candidate record was rejected. Terminal for that record.
#[derive(PartialEq, Eq, Structural, Clone, Copy, Debug)]
pub enum InvalidReason {
    /// The membrane proof could not be deserialized into a record.
    ProofUndecodable,
    /// The membrane proof was authored by someone other than the issuer.
    UnexpectedAuthor,
    /// The membrane proof record carries no entry payload.
    MissingEntry,
    /// The issuer's signature over the proof's header does not verify.
    IncorrectSignature,
    /// No membrane proof was supplied at all.
    NoMembraneProof,
    /// The header preceding a new identity record is not an admission package.
    NoValidationPackage,
    /// A new identity record with no preceding header at all.
    MissingPrevHeader,
    /// Message content exceeds the 1024-byte limit.
    MessageTooLong,
}

/// Outcome of validating one candidate record.
#[derive(PartialEq, Eq, Structural, Clone, Copy, Debug)]
pub enum ValidationOutcome {
    Valid,
    Invalid(InvalidReason),
    /// Retry once the record with this header hash has replicated.
    UnresolvedDependency(u64),
}

/// What the engine read out of a membrane proof record: its author, whether
/// an entry payload is present, and whether the configured issuer's signature
/// over the record's header verifies (the engine's crypto verdict).
pub struct ProofElement {
    pub author: IdentityKey,
    pub has_entry: bool,
    pub signature_ok: bool,
}

/// A supplied membrane proof, after the engine tried to deserialize it.
pub enum MembraneProof {
    Undecodable,
    Decoded(ProofElement),
}

/// The admission decision as a mathematical function of the proof.
pub open spec fn joining_verdict(issuer: IdentityKey, mp: Option<MembraneProof>)
    -> ValidationOutcome {
    match mp {
        Option::None => ValidationOutcome::Invalid(InvalidReason::NoMembraneProof),
        Option::Some(MembraneProof::Undecodable) => ValidationOutcome::Invalid(
            InvalidReason::ProofUndecodable,
        ),
        Option::Some(MembraneProof::Decoded(e)) => {
            if e.author != issuer {
                ValidationOutcome::Invalid(InvalidReason::UnexpectedAuthor)
            } else if !e.has_entry {
                ValidationOutcome::Invalid(InvalidReason::MissingEntry)
            } else if e.signature_ok {
                ValidationOutcome::Valid
            } else {
                ValidationOutcome::Invalid(InvalidReason::IncorrectSignature)
            }
        },
    }
}

/// Admission check for a joining code carried in a membrane proof.
///
/// `Valid` iff the proof decodes, is authored by the configured issuer,
/// carries an entry, and the issuer's signature over its header verifies;
/// each failure yields its specific terminal reason.
pub fn joining_code(issuer: IdentityKey, membrane_proof: &Option<MembraneProof>) -> (r:
    ValidationOutcome)
    ensures
        r == joining_verdict(issuer, *membrane_proof),
{
    match membrane_proof {
        Option::None => ValidationOutcome::Invalid(InvalidReason::NoMembraneProof),
        Option::Some(MembraneProof::Undecodable) => ValidationOutcome::Invalid(
            InvalidReason::ProofUndecodable,
        ),
        Option::Some(MembraneProof::Decoded(e)) => {
            if e.author != issuer {
                ValidationOutcome::Invalid(InvalidReason::UnexpectedAuthor)
            } else if !e.has_entry {
                ValidationOutcome::Invalid(InvalidReason::MissingEntry)
            } else if e.signature_ok {
                ValidationOutcome::Valid
            } else {
                ValidationOutcome::Invalid(InvalidReason::IncorrectSignature)
            }
        },
    }
}

/// Startup self-check: the same admission decision, run against the proof the
/// local identity itself joined with.
pub fn genesis_self_check(issuer: IdentityKey, membrane_proof: &Option<MembraneProof>) -> (r:
    ValidationOutcome)
    ensures
        r == joining_verdict(issuer, *membrane_proof),
{
    joining_code(issuer, membrane_proof)
}

/// A membrane proof not authored by the configured issuer is rejected as
/// `UnexpectedAuthor`, whatever its signature or payload looks like.
pub proof fn lemma_foreign_author_always_invalid(issuer: IdentityKey, e: ProofElement)
    requires
        e.author != issuer,
    ensures
        joining_verdict(issuer, Option::Some(MembraneProof::Decoded(e)))
            == ValidationOutcome::Invalid(InvalidReason::UnexpectedAuthor),
{
}

/// The entry payload of a candidate record, as the engine decoded it.
pub enum CandidateEntry {
    /// No entry present on the record: nothing to constrain.
    NotPresent,
    /// The record introduces a new identity key.
    AgentKey,
    /// The record decodes as a chat message.
    Msg(Message),
    /// Any other record kind the validator does not recognize.
    OtherEntry,
}

/// A candidate record under validation: its entry and, for identity records,
/// the hash of the header immediately preceding it in the writer's history.
pub struct CandidateRecord {
    pub entry: CandidateEntry,
    pub prev_header: Option<u64>,
}

/// What looking up the preceding header returned.
pub enum PrevHeaderLookup {
    /// The data has not replicated yet; validation must be retried.
    Unavailable,
    /// The preceding header is an admission package with this membrane proof.
    AdmissionPackage(Option<MembraneProof>),
    /// The preceding header is of some other kind.
    OtherHeader,
}

/// Largest admissible message content, in bytes.
pub const MAX_MESSAGE_BYTES: usize = 1024;

/// The validator's decision as a mathematical function of the candidate record
/// and, for identity records, the preceding-header lookup.
pub open spec fn validation_verdict(
    issuer: IdentityKey,
    record: CandidateRecord,
    prev: PrevHeaderLookup,
) -> ValidationOutcome {
    match record.entry {
        CandidateEntry::NotPresent => ValidationOutcome::Valid,
        CandidateEntry::AgentKey => match record.prev_header {
            Option::None => ValidationOutcome::Invalid(InvalidReason::MissingPrevHeader),
            Option::Some(h) => match prev {
                PrevHeaderLookup::Unavailable => ValidationOutcome::UnresolvedDependency(h),
                PrevHeaderLookup::AdmissionPackage(mp) => joining_verdict(issuer, mp),
                PrevHeaderLookup::OtherHeader => ValidationOutcome::Invalid(
                    InvalidReason::NoValidationPackage,
                ),
            },
        },
        CandidateEntry::Msg(m) => {
            if m.content@.len() <= MAX_MESSAGE_BYTES {
                ValidationOutcome::Valid
            } else {
                ValidationOutcome::Invalid(InvalidReason::MessageTooLong)
            }
        },
        CandidateEntry::OtherEntry => ValidationOutcome::Valid,
    }
}

/// Validation of any candidate record.
///
/// New identity records recurse into the admission check through the header
/// that precedes them; a not-yet-replicated predecessor is reported as a
/// retryable `UnresolvedDependency`, never as terminal. Messages are `Valid`
/// iff their content fits in [`MAX_MESSAGE_BYTES`]; unrecognized record kinds
/// default to `Valid`.
pub fn common_validation(issuer: IdentityKey, record: &CandidateRecord, prev: &PrevHeaderLookup)
    -> (r: ValidationOutcome)
    ensures
        r == validation_verdict(issuer, *record, *prev),
{
    match &record.entry {
        CandidateEntry::NotPresent => ValidationOutcome::Valid,
        CandidateEntry::AgentKey => match record.prev_header {
            Option::None => ValidationOutcome::Invalid(InvalidReason::MissingPrevHeader),
            Option::Some(h) => match prev {
                PrevHeaderLookup::Unavailable => ValidationOutcome::UnresolvedDependency(h),
                PrevHeaderLookup::AdmissionPackage(mp) => joining_code(issuer, mp),
                PrevHeaderLookup::OtherHeader => ValidationOutcome::Invalid(
                    InvalidReason::NoValidationPackage,
                ),
            },
        },
        CandidateEntry::Msg(m) => {
            if m.content.len() <= MAX_MESSAGE_BYTES {
                ValidationOutcome::Valid
            } else {
                ValidationOutcome::Invalid(InvalidReason::MessageTooLong)
            }
        },
        CandidateEntry::OtherEntry => ValidationOutcome::Valid,
    }
}

} // verus!
