use rustlibraries::evidence::{
    tally_winners, validate_evidence, CaseRecord, ChecksumStatus, SourcePin, UnsupportedCase, ValidationError, Winner,
};

fn case(name: &str, source: &str, timing_valid: bool, checksum: ChecksumStatus) -> CaseRecord {
    CaseRecord { name: name.to_string(), source_id: source.to_string(), timing_valid, checksum }
}

#[test]
fn accepts_a_complete_ledger() {
    let sources = vec![SourcePin::new("numpy-asv", "https://example.invalid/asv.py", "abc123")];
    let cases = vec![case("sum", "numpy-asv", true, ChecksumStatus::Passed), case("dot", "numpy-asv", true, ChecksumStatus::NotApplicable)];
    let unsupported = vec![UnsupportedCase::new("array-api-tests", "needs a Python namespace")];
    assert_eq!(validate_evidence("claim", &sources, &cases, &unsupported), Ok(()));
    assert_eq!(sources[0].url, "https://example.invalid/asv.py");
}

#[test]
fn reports_first_failing_check() {
    let src = vec![SourcePin::new("source", "https://example.invalid", "abc123")];
    assert_eq!(validate_evidence("  \t", &src, &[], &[]), Err(ValidationError::EmptyClaim));
    assert_eq!(
        validate_evidence("c", &[SourcePin::new(" ", "u", "h")], &[], &[]),
        Err(ValidationError::EmptySourceId)
    );
    let twice = vec![src[0].clone(), src[0].clone()];
    assert_eq!(validate_evidence("c", &twice, &[], &[]), Err(ValidationError::DuplicateSource("source".to_string())));
    let dup = vec![case("case", "source", true, ChecksumStatus::Passed), case("case", "missing", false, ChecksumStatus::Failed)];
    assert_eq!(validate_evidence("c", &src, &dup, &[]), Err(ValidationError::DuplicateCase("case".to_string())));
    assert_eq!(
        validate_evidence("c", &src, &[case("bad", "missing", true, ChecksumStatus::Passed)], &[]),
        Err(ValidationError::MissingCaseSource { case: "bad".to_string(), source_id: "missing".to_string() })
    );
    assert_eq!(
        validate_evidence("c", &src, &[case("bad", "source", false, ChecksumStatus::Failed)], &[]),
        Err(ValidationError::InvalidTiming("bad".to_string()))
    );
    assert_eq!(
        validate_evidence("c", &src, &[case("bad", "source", true, ChecksumStatus::Failed)], &[]),
        Err(ValidationError::ChecksumFailed("bad".to_string()))
    );
    assert_eq!(
        validate_evidence("c", &src, &[], &[UnsupportedCase::new("case", " ")]),
        Err(ValidationError::EmptyUnsupportedReason("case".to_string()))
    );
}

#[test]
fn global_claim_needs_more_wins_and_no_unsupported_cases() {
    let winners = [Winner::Candidate, Winner::Baseline, Winner::Candidate, Winner::Tie];
    let t = tally_winners(&winners, 1);
    assert_eq!((t.candidate_wins, t.baseline_wins, t.ties), (2, 1, 1));
    assert!(t.ranked_higher_by_wins);
    assert!(!t.global_claim_allowed);
    assert!(tally_winners(&winners, 0).global_claim_allowed);
    assert!(!tally_winners(&[Winner::Tie], 0).global_claim_allowed);
}

#[test]
fn evidence_error_messages() {
    assert_eq!(ValidationError::EmptyClaim.message(), "claim cannot be empty");
    assert_eq!(ValidationError::DuplicateSource("s".to_string()).message(), "duplicate source id `s`");
    assert_eq!(
        ValidationError::MissingCaseSource { case: "c".to_string(), source_id: "m".to_string() }.message(),
        "case `c` references missing source `m`"
    );
    assert_eq!(
        ValidationError::EmptyUnsupportedReason("u".to_string()).message(),
        "unsupported case `u` needs a reason"
    );
}
