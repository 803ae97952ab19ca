use gandalfd::blocklist::Blocklist;
use gandalfd::fetcher::{FetchAction, FetchStep, Fetcher};
use gandalfd::handler::{decide, is_query_blocked, trim_trailing_dots, Action, Event, Reply};
use gandalfd::settings::AppSettings;

#[test]
fn trailing_dots_are_removed() {
    assert_eq!(trim_trailing_dots("blocked.com."), "blocked.com");
    assert_eq!(trim_trailing_dots("blocked.com..."), "blocked.com");
    assert_eq!(trim_trailing_dots("blocked.com"), "blocked.com");
    assert_eq!(trim_trailing_dots("..."), "");
}

#[test]
fn blocked_query_gets_nxdomain() {
    let bl = Blocklist::parse_list("blocked.com");
    assert_eq!(
        decide(&bl, Event::Request(Some("blocked.com."))),
        Action::Respond(Reply::NxDomain)
    );
    assert_eq!(
        decide(&bl, Event::Request(Some("blocked.com"))),
        Action::Respond(Reply::NxDomain)
    );
}

#[test]
fn clean_query_is_forwarded() {
    let bl = Blocklist::parse_list("blocked.com");
    assert_eq!(decide(&bl, Event::Request(Some("allowed.com."))), Action::Forward);
    // Upper case queries are not valid lookups, so they are forwarded.
    assert_eq!(decide(&bl, Event::Request(Some("BLOCKED.com."))), Action::Forward);
    assert!(!is_query_blocked(&bl, "BLOCKED.com."));
    assert!(is_query_blocked(&bl, "blocked.com."));
}

#[test]
fn unreadable_request_gets_formerr() {
    let bl = Blocklist::parse_list("");
    assert_eq!(decide(&bl, Event::Request(None)), Action::Respond(Reply::FormErr));
}

#[test]
fn upstream_outcome() {
    let bl = Blocklist::parse_list("");
    assert_eq!(decide(&bl, Event::Upstream(true)), Action::Respond(Reply::Answer));
    assert_eq!(decide(&bl, Event::Upstream(false)), Action::Respond(Reply::NxDomain));
    assert_eq!(decide(&bl, Event::SendFailed), Action::Respond(Reply::ServFail));
}

#[test]
fn fetcher_keeps_url_and_path() {
    let f = Fetcher::new("http://invalid", "hosts.txt");
    assert_eq!(f.url(), "http://invalid");
    assert_eq!(f.cache_path(), "hosts.txt");
}

#[test]
fn cache_comes_first() {
    assert_eq!(Fetcher::first_step(), FetchStep::ReadCache);
    assert_eq!(Fetcher::next_action(FetchStep::ReadCache, true), FetchAction::ReturnData);
    assert_eq!(
        Fetcher::next_action(FetchStep::ReadCache, false),
        FetchAction::Perform(FetchStep::Download)
    );
    assert_eq!(
        Fetcher::next_action(FetchStep::Download, true),
        FetchAction::Perform(FetchStep::ReadDownloaded)
    );
    assert_eq!(Fetcher::next_action(FetchStep::Download, false), FetchAction::ReturnError);
    assert_eq!(Fetcher::next_action(FetchStep::ReadDownloaded, true), FetchAction::ReturnData);
    assert_eq!(Fetcher::next_action(FetchStep::ReadDownloaded, false), FetchAction::ReturnError);
}

#[test]
fn settings_hold_values() {
    let config = AppSettings {
        port: 0,
        upstream_dns: vec!["127.0.0.1:53".to_string(), "1.1.1.1:53".to_string()],
        blocklist_urls: vec![],
    };
    let copy = config.clone();
    assert_eq!(copy.port, 0);
    assert_eq!(copy.upstream_dns.len(), 2);
    assert!(copy.blocklist_urls.is_empty());
}
