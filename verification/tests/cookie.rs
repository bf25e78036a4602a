use web_api_cat::cookie::{get_document_cookie, read_cookie_writes, set_document_cookie};
use web_api_cat::document::{install, Window};
use web_api_cat::markup::parse_page;

fn window(html: &str) -> Window {
    install(&parse_page(html))
}

#[test]
fn default_cookie_is_empty_string() {
    let w = window("<html><body></body></html>");
    assert_eq!(get_document_cookie(&w.document.cookies), "");
}

#[test]
fn set_document_cookie_then_read_back() {
    let mut w = window("<html><body></body></html>");
    set_document_cookie(&mut w.document.cookies, "session=abc; theme=dark");
    assert_eq!(get_document_cookie(&w.document.cookies), "session=abc; theme=dark");
}

#[test]
fn js_can_read_document_cookie() {
    let mut w = window("<html></html>");
    set_document_cookie(&mut w.document.cookies, "session=abc");
    assert_eq!(w.document.cookies.read_cookie(), "session=abc");
}

#[test]
fn js_write_merges_into_visible_jar() {
    let mut w = window("<html></html>");
    set_document_cookie(&mut w.document.cookies, "old=1");
    w.document.cookies.write_cookie("new=2");
    assert_eq!(w.document.cookies.read_cookie(), "old=1; new=2");
    assert_eq!(get_document_cookie(&w.document.cookies), "old=1; new=2");
}

#[test]
fn js_write_with_same_name_replaces_by_name() {
    let mut w = window("<html></html>");
    set_document_cookie(&mut w.document.cookies, "session=old");
    w.document.cookies.write_cookie("session=new");
    assert_eq!(w.document.cookies.read_cookie(), "session=new");
}

#[test]
fn js_write_with_attributes_logged_for_host() {
    let mut w = window("<html></html>");
    set_document_cookie(&mut w.document.cookies, "");
    w.document.cookies.write_cookie("session=abc; Max-Age=600; Path=/admin");
    let writes = read_cookie_writes(&w.document.cookies);
    assert_eq!(writes, vec!["session=abc; Max-Age=600; Path=/admin".to_owned()]);
    assert_eq!(get_document_cookie(&w.document.cookies), "session=abc");
}

#[test]
fn multiple_writes_log_in_order() {
    let mut w = window("<html></html>");
    set_document_cookie(&mut w.document.cookies, "");
    w.document.cookies.write_cookie("a=1; Path=/");
    w.document.cookies.write_cookie("b=2; Max-Age=600");
    let writes = read_cookie_writes(&w.document.cookies);
    assert_eq!(writes, vec!["a=1; Path=/".to_owned(), "b=2; Max-Age=600".to_owned()]);
    assert_eq!(w.document.cookies.read_cookie(), "a=1; b=2");
}

#[test]
fn pre_eval_set_clears_previous_write_log() {
    let mut w = window("<html></html>");
    set_document_cookie(&mut w.document.cookies, "");
    w.document.cookies.write_cookie("a=1");
    set_document_cookie(&mut w.document.cookies, "fresh=2");
    assert!(read_cookie_writes(&w.document.cookies).is_empty());
}

#[test]
fn cookie_name_match_ignores_ascii_case() {
    let mut w = window("<html></html>");
    set_document_cookie(&mut w.document.cookies, "Session=old; other=1");
    w.document.cookies.write_cookie("SESSION=new");
    assert_eq!(w.document.cookies.read_cookie(), "other=1; SESSION=new");
}
