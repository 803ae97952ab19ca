use gandalfd::domain::{validate_domain, DomainError, DomainName, DomainRef};
use std::borrow::Borrow;

#[test]
fn domain_validation() {
    assert!(validate_domain("google.com").is_ok());
    assert!(validate_domain("").is_err());
    assert!(validate_domain("invalid_char!").is_err());
    // RFC restrictions
    assert!(validate_domain("-invalid.com").is_err());
    assert!(validate_domain("invalid-.com").is_err());
    // Underscores are valid in DNS (RFC 8552) for SRV/TXT records
    assert!(validate_domain("_sip._tcp.example.com").is_ok());
}

#[test]
fn domain_ref_parse() {
    assert!(DomainRef::parse("Google.com").is_err());
    assert_eq!(
        DomainRef::parse("google.com").map(|d| d.as_str().to_string()),
        Ok("google.com".to_string())
    );
}

#[test]
fn domain_name_try_from() {
    let name = DomainName::try_from("Google.Com");
    assert_eq!(name, DomainName::try_from("google.com"));
    let stored: &str = name.as_ref().unwrap().borrow();
    assert_eq!(stored, "google.com");
    assert!(DomainName::try_from("invalid!").is_err());
}

#[test]
fn each_error_variant() {
    assert_eq!(DomainRef::parse("Google.com"), Err(DomainError::NotLowercase));
    assert_eq!(validate_domain(""), Err(DomainError::InvalidLength));
    let too_long = "a.".repeat(126) + "ab";
    assert_eq!(too_long.len(), 254);
    assert_eq!(validate_domain(&too_long), Err(DomainError::InvalidLength));
    assert_eq!(validate_domain("a..b"), Err(DomainError::InvalidLabelLength));
    let long_label = "a".repeat(64) + ".com";
    assert_eq!(validate_domain(&long_label), Err(DomainError::InvalidLabelLength));
    assert_eq!(validate_domain("-invalid.com"), Err(DomainError::InvalidHyphen));
    assert_eq!(validate_domain("invalid-.com"), Err(DomainError::InvalidHyphen));
    assert_eq!(validate_domain("invalid_char!"), Err(DomainError::InvalidCharacter));
}

#[test]
fn limits_are_inclusive() {
    let label = "a".repeat(63);
    assert!(validate_domain(&label).is_ok());
    let longest = "a.".repeat(126) + "a";
    assert_eq!(longest.len(), 253);
    assert!(validate_domain(&longest).is_ok());
}

#[test]
fn first_failing_label_decides() {
    // The second label is too long, the third has a bad character.
    let name = format!("ok.{}.b!d", "x".repeat(64));
    assert_eq!(validate_domain(&name), Err(DomainError::InvalidLabelLength));
    assert_eq!(validate_domain("a.-b.c!"), Err(DomainError::InvalidHyphen));
}

#[test]
fn trailing_dot_is_an_empty_label() {
    assert_eq!(validate_domain("example.com."), Err(DomainError::InvalidLabelLength));
    assert_eq!(validate_domain("."), Err(DomainError::InvalidLabelLength));
}

#[test]
fn lengths_count_bytes() {
    // 127 two-byte characters: 254 bytes, so the length check fails first.
    let wide = "é".repeat(127);
    assert_eq!(validate_domain(&wide), Err(DomainError::InvalidLength));
    // 10 such characters: short enough, but not allowed in a label.
    let short = "é".repeat(10);
    assert_eq!(validate_domain(&short), Err(DomainError::InvalidCharacter));
    // A 32-character label of two-byte characters is 64 bytes.
    let label = format!("{}.com", "é".repeat(32));
    assert_eq!(validate_domain(&label), Err(DomainError::InvalidLabelLength));
}

#[test]
fn query_is_never_lowercased() {
    assert_eq!(DomainRef::parse("EXAMPLE.com"), Err(DomainError::NotLowercase));
    // Upper case is reported before any other fault.
    assert_eq!(DomainRef::parse("-A"), Err(DomainError::NotLowercase));
    assert_eq!(DomainRef::parse("-a"), Err(DomainError::InvalidHyphen));
}

#[test]
fn stored_name_is_lowercased() {
    let name = DomainName::try_from("WWW.Example.ORG").unwrap();
    let stored: &str = name.borrow();
    assert_eq!(stored, "www.example.org");
    // A stored name is accepted as a query by its own text.
    assert_eq!(
        DomainRef::parse(stored).map(|d| d.as_str().to_string()),
        Ok("www.example.org".to_string())
    );
    // And storing it again gives it back.
    assert_eq!(DomainName::try_from(stored), Ok(name.clone()));
    assert_eq!(DomainName::try_from("Bad!.com"), Err(DomainError::InvalidCharacter));
}

#[test]
fn error_messages() {
    assert_eq!(DomainError::NotLowercase.message(), "must be lowercase for zero-cost query");
    assert_eq!(DomainError::InvalidLength.message(), "invalid domain length");
    assert_eq!(DomainError::InvalidLabelLength.message(), "invalid label length");
    assert_eq!(
        DomainError::InvalidHyphen.message(),
        "label cannot start or end with a hyphen"
    );
    assert_eq!(DomainError::InvalidCharacter.message(), "invalid character in label");
}
