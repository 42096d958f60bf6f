//! Signal identifiers and registry statuses.
use hft_research::signals::{parse_status, RegistryStatus, SignalError, SignalId};

#[test]
fn test_signal_id_format() {
    assert!(SignalId::parse("S-001-obi-asym").is_ok());
    assert!(SignalId::parse("S-042-mean-rev-2").is_ok());
    for bad in [
        "",
        "obi",
        "S-1-obi",
        "S-001",
        "s-001-obi",
        "S-001-ОБИ",
        "S-001-obi asym",
    ] {
        assert!(SignalId::parse(bad).is_err(), "`{bad}` must be rejected");
    }
    assert_eq!(SignalId::parse("S-001-obi-asym").unwrap().as_str(), "S-001-obi-asym");
}

#[test]
fn signal_id_slug_hyphens() {
    for bad in ["S-001--obi", "S-001-obi-", "S-001--", "S-0a1-obi"] {
        assert!(matches!(SignalId::parse(bad), Err(SignalError::InvalidId(s)) if s == bad));
    }
    assert!(SignalId::parse("S-999-a").is_ok());
}

#[test]
fn registry_status_names() {
    assert_eq!(parse_status("candidate").unwrap(), RegistryStatus::Candidate);
    assert_eq!(parse_status("paper").unwrap(), RegistryStatus::Paper);
    assert_eq!(parse_status("live").unwrap(), RegistryStatus::Live);
    assert_eq!(parse_status("retired").unwrap(), RegistryStatus::Retired);
    assert!(matches!(parse_status("Live"), Err(SignalError::Parse(_))));
}

#[test]
fn signal_id_text_parses_back() {
    for text in ["S-001-obi-asym", "S-042-a", "S-999-x1-y2-z3"] {
        let id = SignalId::parse(text).expect("valid id");
        assert_eq!(id.as_str(), text);
        let again = SignalId::parse(id.as_str()).expect("its own text parses");
        assert_eq!(again, id);
        assert_eq!(id.clone(), id);
    }
}
