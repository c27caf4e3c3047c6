use chat::message::create_message;
use chat::store::Store;
use chat::types::{Channel, ChatError, Message};
use chat::validation::{
    common_validation, genesis_self_check, joining_code, CandidateEntry, CandidateRecord,
    InvalidReason, MembraneProof, PrevHeaderLookup, ProofElement, ValidationOutcome,
    MAX_MESSAGE_BYTES,
};

const ISSUER: u64 = 9001;

fn proof_by(author: u64, has_entry: bool, signature_ok: bool) -> Option<MembraneProof> {
    Some(MembraneProof::Decoded(ProofElement { author, has_entry, signature_ok }))
}

#[test]
fn message_at_limit_is_valid_and_one_past_is_not() {
    let ok = CandidateRecord {
        entry: CandidateEntry::Msg(Message { content: vec![0u8; 1024] }),
        prev_header: None,
    };
    let too_long = CandidateRecord {
        entry: CandidateEntry::Msg(Message { content: vec![0u8; 1025] }),
        prev_header: None,
    };
    assert_eq!(MAX_MESSAGE_BYTES, 1024);
    assert_eq!(
        common_validation(ISSUER, &ok, &PrevHeaderLookup::Unavailable),
        ValidationOutcome::Valid
    );
    assert_eq!(
        common_validation(ISSUER, &too_long, &PrevHeaderLookup::Unavailable),
        ValidationOutcome::Invalid(InvalidReason::MessageTooLong)
    );
}

#[test]
fn oversized_message_never_enters_the_store() {
    let mut store = Store::new();
    let c = Channel { category: b"general".to_vec(), channel_id: b"intro".to_vec() };
    let r = create_message(&mut store, &c, 0, vec![0u8; 1025], 1, 10);
    assert_eq!(r.unwrap_err(), ChatError::ContentTooLarge);
    let r = create_message(&mut store, &c, 0, vec![0u8; 1024], 1, 10);
    assert!(r.is_ok());
}

#[test]
fn foreign_author_is_rejected_whatever_the_signature_says() {
    for signature_ok in [false, true] {
        for has_entry in [false, true] {
            assert_eq!(
                joining_code(ISSUER, &proof_by(12, has_entry, signature_ok)),
                ValidationOutcome::Invalid(InvalidReason::UnexpectedAuthor)
            );
        }
    }
}

#[test]
fn joining_code_failure_reasons_are_specific() {
    assert_eq!(
        joining_code(ISSUER, &None),
        ValidationOutcome::Invalid(InvalidReason::NoMembraneProof)
    );
    assert_eq!(
        joining_code(ISSUER, &Some(MembraneProof::Undecodable)),
        ValidationOutcome::Invalid(InvalidReason::ProofUndecodable)
    );
    assert_eq!(
        joining_code(ISSUER, &proof_by(ISSUER, false, true)),
        ValidationOutcome::Invalid(InvalidReason::MissingEntry)
    );
    assert_eq!(
        joining_code(ISSUER, &proof_by(ISSUER, true, false)),
        ValidationOutcome::Invalid(InvalidReason::IncorrectSignature)
    );
    assert_eq!(joining_code(ISSUER, &proof_by(ISSUER, true, true)), ValidationOutcome::Valid);
    assert_eq!(
        genesis_self_check(ISSUER, &proof_by(ISSUER, true, true)),
        ValidationOutcome::Valid
    );
}

#[test]
fn identity_records_recurse_through_their_admission_package() {
    let agent = CandidateRecord { entry: CandidateEntry::AgentKey, prev_header: Some(77) };
    // Not yet replicated: retryable, naming the dependency.
    assert_eq!(
        common_validation(ISSUER, &agent, &PrevHeaderLookup::Unavailable),
        ValidationOutcome::UnresolvedDependency(77)
    );
    // Wrong predecessor kind: terminal.
    assert_eq!(
        common_validation(ISSUER, &agent, &PrevHeaderLookup::OtherHeader),
        ValidationOutcome::Invalid(InvalidReason::NoValidationPackage)
    );
    // Admission package present: the joining-code verdict decides.
    assert_eq!(
        common_validation(
            ISSUER,
            &agent,
            &PrevHeaderLookup::AdmissionPackage(proof_by(ISSUER, true, true))
        ),
        ValidationOutcome::Valid
    );
    assert_eq!(
        common_validation(
            ISSUER,
            &agent,
            &PrevHeaderLookup::AdmissionPackage(proof_by(5, true, true))
        ),
        ValidationOutcome::Invalid(InvalidReason::UnexpectedAuthor)
    );
    // An identity record with no predecessor at all is impossible.
    let orphan = CandidateRecord { entry: CandidateEntry::AgentKey, prev_header: None };
    assert_eq!(
        common_validation(ISSUER, &orphan, &PrevHeaderLookup::Unavailable),
        ValidationOutcome::Invalid(InvalidReason::MissingPrevHeader)
    );
}

#[test]
fn unrecognized_and_entryless_records_default_to_valid() {
    let other = CandidateRecord { entry: CandidateEntry::OtherEntry, prev_header: None };
    let empty = CandidateRecord { entry: CandidateEntry::NotPresent, prev_header: Some(3) };
    assert_eq!(
        common_validation(ISSUER, &other, &PrevHeaderLookup::Unavailable),
        ValidationOutcome::Valid
    );
    assert_eq!(
        common_validation(ISSUER, &empty, &PrevHeaderLookup::Unavailable),
        ValidationOutcome::Valid
    );
}
