use web_api_cat::document::{install, Window};
use web_api_cat::location::{
    clear_pending_navigation, decode_pending_nav_string, encode_pending_nav, read_pending_navigation,
    set_location_href, NavigationIntent,
};
use web_api_cat::markup::parse_page;

fn window_at(href: &str) -> Window {
    let mut w = install(&parse_page("<html></html>"));
    set_location_href(&mut w.location, href);
    w
}

#[test]
fn location_default_href_is_empty() {
    let w = install(&parse_page("<html></html>"));
    assert_eq!(w.location.href(), "");
}

#[test]
fn location_href_reflects_seeded_url() {
    let w = window_at("https://example.com/path?q=1#frag");
    assert_eq!(w.location.href(), "https://example.com/path?q=1#frag");
}

#[test]
fn location_protocol_host_pathname_search_hash() {
    let w = window_at("https://example.com:8080/about?lang=en#top");
    let l = &w.location;
    let s = [
        l.protocol(),
        l.host(),
        l.hostname(),
        l.port(),
        l.pathname(),
        l.search(),
        l.hash(),
        l.origin(),
    ]
    .join("|");
    assert_eq!(s, "https:|example.com:8080|example.com|8080|/about|?lang=en|#top|https://example.com:8080");
}

#[test]
fn location_href_setter_records_assign_intent() {
    let mut w = install(&parse_page("<html></html>"));
    w.location.assign("/next");
    assert_eq!(read_pending_navigation(&w.location), Some(NavigationIntent::Assign("/next".to_owned())));
    assert_eq!(w.location.href(), "/next");
}

#[test]
fn location_assign_records_assign_intent() {
    let mut w = install(&parse_page("<html></html>"));
    w.location.assign("/x");
    assert_eq!(read_pending_navigation(&w.location), Some(NavigationIntent::Assign("/x".to_owned())));
}

#[test]
fn location_replace_records_replace_intent() {
    let mut w = install(&parse_page("<html></html>"));
    w.location.replace("/y");
    assert_eq!(read_pending_navigation(&w.location), Some(NavigationIntent::Replace("/y".to_owned())));
}

#[test]
fn location_reload_records_reload_intent() {
    let mut w = install(&parse_page("<html></html>"));
    w.location.reload();
    assert_eq!(read_pending_navigation(&w.location), Some(NavigationIntent::Reload));
}

#[test]
fn no_pending_nav_when_script_does_not_navigate() {
    let w = install(&parse_page("<html></html>"));
    let _ = w.location.href();
    assert_eq!(read_pending_navigation(&w.location), None);
}

#[test]
fn clear_pending_navigation_resets_intent() {
    let mut w = install(&parse_page("<html></html>"));
    w.location.assign("/x");
    clear_pending_navigation(&mut w.location);
    assert_eq!(read_pending_navigation(&w.location), None);
}

#[test]
fn window_location_is_same_object_as_global_location() {
    let mut w = install(&parse_page("<html></html>"));
    w.location.assign("/same");
    let through_window = &w.location;
    assert_eq!(through_window.href(), "/same");
}

#[test]
fn location_to_string_returns_href() {
    let w = window_at("https://example.com/");
    assert_eq!(w.location.href(), "https://example.com/");
}

#[test]
fn parsed_fields_are_empty_for_invalid_url() {
    let w = window_at("not a valid url");
    let s = [w.location.protocol(), w.location.host(), w.location.pathname()].join("|");
    assert_eq!(s, "||");
}

#[test]
fn navigation_intents_round_trip_through_their_encoding() {
    for intent in [
        NavigationIntent::Assign("/a|b".to_owned()),
        NavigationIntent::Replace(String::new()),
        NavigationIntent::Reload,
    ] {
        let encoded = encode_pending_nav(&intent);
        assert_eq!(decode_pending_nav_string(&encoded), Some(intent));
    }
}

#[test]
fn decoding_unknown_kinds_and_bare_kinds() {
    assert_eq!(decode_pending_nav_string("jump|/x"), None);
    assert_eq!(decode_pending_nav_string("reload"), Some(NavigationIntent::Reload));
    assert_eq!(decode_pending_nav_string("assign"), Some(NavigationIntent::Assign(String::new())));
    assert_eq!(encode_pending_nav(&NavigationIntent::Reload), "reload|");
}

#[test]
fn origin_is_empty_without_a_host_and_default_ports_are_dropped() {
    let w = window_at("file:///tmp/x.html");
    assert_eq!(w.location.origin(), "");
    assert_eq!(w.location.protocol(), "file:");
    let w = window_at("http://example.com:80/");
    assert_eq!(w.location.port(), "");
    assert_eq!(w.location.host(), "example.com");
}
