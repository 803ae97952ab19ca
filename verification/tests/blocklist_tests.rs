use gandalfd::blocklist::Blocklist;
use gandalfd::domain::DomainRef;

fn blocked(bl: &Blocklist, name: &str) -> bool {
    bl.is_blocked(DomainRef::parse(name).unwrap())
}

#[test]
fn blocklist_hit_miss() {
    let raw = "0.0.0.0 ad.com\n127.0.0.1 tracker.org\n# comment\nclean.com";
    let bl = Blocklist::parse_list(raw);

    let blocked1 = DomainRef::parse("ad.com").unwrap();
    let blocked2 = DomainRef::parse("tracker.org").unwrap();
    let clean = DomainRef::parse("safe.com").unwrap(); // not in list

    assert!(bl.is_blocked(blocked1));
    assert!(bl.is_blocked(blocked2));
    assert!(!bl.is_blocked(clean));
}

#[test]
fn ignores_localhost() {
    let raw = "0.0.0.0 localhost\n127.0.0.1 broadcasthost";
    let bl = Blocklist::parse_list(raw);
    assert!(!bl.is_blocked(DomainRef::parse("localhost").unwrap()));
}

#[test]
fn bare_domain_lines_count() {
    let bl = Blocklist::parse_list("clean.com\n");
    assert!(blocked(&bl, "clean.com"));
}

#[test]
fn broadcasthost_is_ignored() {
    let bl = Blocklist::parse_list("0.0.0.0 broadcasthost\n0.0.0.0 other.com");
    assert!(!blocked(&bl, "broadcasthost"));
    assert!(blocked(&bl, "other.com"));
}

#[test]
fn localhost_check_is_case_sensitive() {
    // Only the exact text is skipped; other spellings are stored lower-cased.
    let bl = Blocklist::parse_list("0.0.0.0 LocalHost");
    assert!(blocked(&bl, "localhost"));
}

#[test]
fn matching_is_exact() {
    let bl = Blocklist::parse_list("0.0.0.0 ad.com");
    assert!(!blocked(&bl, "sub.ad.com"));
    assert!(!blocked(&bl, "com"));
}

#[test]
fn whitespace_and_case_in_lists() {
    let raw = "  \t0.0.0.0\tADS.Example.com  \r\n\u{3000}0.0.0.0\u{3000}wide.org\u{3000}\r\n   # 0.0.0.0 hidden.com\n\n";
    let bl = Blocklist::parse_list(raw);
    assert!(blocked(&bl, "ads.example.com"));
    assert!(blocked(&bl, "wide.org"));
    assert!(!blocked(&bl, "hidden.com"));
}

#[test]
fn invalid_entries_are_skipped() {
    let raw = "0.0.0.0 bad!name.com\n0.0.0.0 -bad.com\n0.0.0.0 good.com\n0.0.0.0 0.0.0.0 last.org";
    let bl = Blocklist::parse_list(raw);
    assert!(blocked(&bl, "good.com"));
    assert!(blocked(&bl, "last.org"));
    assert!(!blocked(&bl, "bad.com"));
}

#[test]
fn comment_only_when_first() {
    // A `#` later in the line does not make it a comment; the last field counts.
    let bl = Blocklist::parse_list("0.0.0.0 x.com #note");
    assert!(!blocked(&bl, "x.com"));
    let bl = Blocklist::parse_list("0.0.0.0 x.com");
    assert!(blocked(&bl, "x.com"));
}

#[test]
fn empty_list_blocks_nothing() {
    let bl = Blocklist::parse_list("");
    assert!(!blocked(&bl, "ad.com"));
}

#[test]
fn joined_lists_block_both() {
    let a = "0.0.0.0 ads.com\n127.0.0.1 tracker.com";
    let b = "0.0.0.0 malware.org\n#comment\n";
    let joined = format!("{}\n{}", a, b);
    let bl = Blocklist::parse_list(&joined);
    assert!(blocked(&bl, "ads.com"));
    assert!(blocked(&bl, "tracker.com"));
    assert!(blocked(&bl, "malware.org"));
    assert!(!blocked(&bl, "safe.com"));
}

#[test]
fn fetched_lists_are_merged() {
    let sources = vec![
        Some("0.0.0.0 ads.com\n127.0.0.1 tracker.com".to_string()),
        Some("0.0.0.0 malware.org\n#comment\n".to_string()),
        None,
    ];
    let (bl, loaded) = Blocklist::from_fetched(&sources);
    assert_eq!(loaded, 2);
    assert!(blocked(&bl, "ads.com"));
    assert!(blocked(&bl, "tracker.com"));
    assert!(blocked(&bl, "malware.org"));
    assert!(!blocked(&bl, "safe.com"));
}

#[test]
fn all_sources_failed() {
    let sources: Vec<Option<String>> = vec![None, None];
    let (bl, loaded) = Blocklist::from_fetched(&sources);
    assert_eq!(loaded, 0);
    assert!(!blocked(&bl, "ads.com"));
}

#[test]
fn source_without_final_newline_is_separated() {
    let sources = vec![Some("a.com".to_string()), Some("b.com".to_string())];
    let (bl, loaded) = Blocklist::from_fetched(&sources);
    assert_eq!(loaded, 2);
    assert!(blocked(&bl, "a.com"));
    assert!(blocked(&bl, "b.com"));
    assert!(!blocked(&bl, "a.comb.com"));
}

fn entry(line: &str) -> Option<String> {
    Blocklist::parse_line(line).map(|d| {
        let s: &str = std::borrow::Borrow::borrow(&d);
        s.to_string()
    })
}

#[test]
fn parse_line_reads_last_field() {
    assert_eq!(entry("  0.0.0.0  Ads.com \t"), Some("ads.com".to_string()));
    assert_eq!(entry("tracker.org"), Some("tracker.org".to_string()));
    assert_eq!(entry("   "), None);
    assert_eq!(entry(""), None);
    assert_eq!(entry("  # 0.0.0.0 ads.com"), None);
    assert_eq!(entry("0.0.0.0 localhost"), None);
    assert_eq!(entry("127.0.0.1 broadcasthost"), None);
    assert_eq!(entry("0.0.0.0 bad!.com"), None);
}
