use web_api_cat::document::{build, Page};
use web_api_cat::markup::parse_page;

fn load(html: &str) -> Page {
    build(&parse_page(html))
}

fn element(page: &Page, id: &str) -> usize {
    page.get_element_by_id(id).expect("element with that id")
}

fn id_of(page: &Page, el: Option<usize>) -> Option<String> {
    el.map(|i| page.dom.elements[i].id.clone())
}

fn text_of(page: &Page, el: Option<usize>) -> Option<String> {
    el.map(|i| page.dom.elements[i].text_content.clone())
}

#[test]
fn matches_positive_tag() {
    let page = load("<html><body><p id='host'>x</p></body></html>");
    assert!(page.dom.matches(element(&page, "host"), "p"));
}

#[test]
fn matches_negative_tag() {
    let page = load("<html><body><p id='host'>x</p></body></html>");
    assert!(!page.dom.matches(element(&page, "host"), "div"));
}

#[test]
fn matches_with_class_compound() {
    let page = load("<html><body><div id='host' class='alpha beta'>x</div></body></html>");
    assert!(page.dom.matches(element(&page, "host"), "div.alpha.beta"));
}

#[test]
fn matches_with_attribute_selector() {
    let page = load("<html><body><a id='host' href='/x'>x</a></body></html>");
    assert!(page.dom.matches(element(&page, "host"), "a[href]"));
}

#[test]
fn matches_with_selector_list() {
    let page = load("<html><body><h2 id='host'>x</h2></body></html>");
    assert!(page.dom.matches(element(&page, "host"), "h1, h2, h3"));
}

#[test]
fn closest_returns_self_when_self_matches() {
    let page = load("<html><body><div id='host' class='target'>x</div></body></html>");
    let host = element(&page, "host");
    assert_eq!(id_of(&page, page.dom.closest(host, ".target")).as_deref(), Some("host"));
}

#[test]
fn closest_walks_up_to_ancestor() {
    let page = load(
        "<html><body>
            <section id='outer' class='target'>
                <article>
                    <p id='deep'>x</p>
                </article>
            </section>
        </body></html>",
    );
    let deep = element(&page, "deep");
    assert_eq!(id_of(&page, page.dom.closest(deep, ".target")).as_deref(), Some("outer"));
}

#[test]
fn closest_returns_null_when_no_match() {
    let page = load("<html><body><div id='host'>x</div></body></html>");
    assert_eq!(page.dom.closest(element(&page, "host"), ".never"), None);
}

#[test]
fn closest_picks_nearest_when_multiple_ancestors_match() {
    let page = load(
        "<html><body>
            <section class='wrap' id='outer'>
                <section class='wrap' id='inner'>
                    <p id='leaf'>x</p>
                </section>
            </section>
        </body></html>",
    );
    let leaf = element(&page, "leaf");
    assert_eq!(id_of(&page, page.dom.closest(leaf, ".wrap")).as_deref(), Some("inner"));
}

#[test]
fn first_child_pseudo_class() {
    let page = load("<html><body><div id='host'><p>a</p><p>b</p><p>c</p></div></body></html>");
    assert_eq!(text_of(&page, page.query_selector("p:first-child")).as_deref(), Some("a"));
}

#[test]
fn last_child_pseudo_class() {
    let page = load("<html><body><div id='host'><p>a</p><p>b</p><p>c</p></div></body></html>");
    assert_eq!(text_of(&page, page.query_selector("p:last-child")).as_deref(), Some("c"));
}

#[test]
fn only_child_pseudo_class() {
    let page = load(
        "<html><body>
            <div id='solo-host'><p>solo</p></div>
            <div id='multi-host'><p>first</p><p>second</p></div>
        </body></html>",
    );
    assert_eq!(text_of(&page, page.query_selector("p:only-child")).as_deref(), Some("solo"));
}

#[test]
fn pseudo_class_combines_with_class() {
    let page = load("<html><body><div><p class='lead'>x</p><p>y</p></div></body></html>");
    assert!(page.query_selector("p.lead:first-child").is_some());
}

#[test]
fn pseudo_class_with_query_selector_all() {
    let page = load(
        "<html><body>
            <section><p>a</p></section>
            <section><p>b</p><p>c</p></section>
            <section><p>d</p></section>
        </body></html>",
    );
    assert_eq!(page.dom.query_selector_all(page.root, "p:first-child").len(), 3);
}

#[test]
fn not_pseudo_class_excludes_class_match() {
    let page = load(
        "<html><body>
            <p class='skip'>x</p>
            <p id='want'>y</p>
            <p class='skip'>z</p>
        </body></html>",
    );
    assert_eq!(id_of(&page, page.query_selector("p:not(.skip)")).as_deref(), Some("want"));
}

#[test]
fn not_pseudo_class_accepts_selector_list() {
    let page = load(
        "<html><body>
            <p>a</p>
            <h2>b</h2>
            <h3>c</h3>
            <div id='want'>d</div>
        </body></html>",
    );
    let found = page.query_selector(":not(p, h2, h3)").expect("a match");
    let tag = &page.dom.elements[found].tag_name;
    assert!(tag.eq_ignore_ascii_case("body") || tag.eq_ignore_ascii_case("div"));
}

#[test]
fn not_pseudo_class_with_query_selector_all() {
    let page = load(
        "<html><body>
            <p>a</p>
            <p class='skip'>b</p>
            <p>c</p>
            <p class='skip'>d</p>
        </body></html>",
    );
    assert_eq!(page.dom.query_selector_all(page.root, "p:not(.skip)").len(), 2);
}

#[test]
fn not_pseudo_class_with_tag_argument() {
    let page = load(
        "<html><body>
            <section>
                <p>a</p>
                <h2 id='want'>b</h2>
            </section>
        </body></html>",
    );
    assert_eq!(id_of(&page, page.query_selector("section :not(p)")).as_deref(), Some("want"));
}

#[test]
fn not_pseudo_class_via_matches() {
    let page = load(
        "<html><body>
            <p id='plain'>x</p>
            <p id='special' class='special'>y</p>
        </body></html>",
    );
    let plain = element(&page, "plain");
    let special = element(&page, "special");
    assert!(page.dom.matches(plain, ":not(.special)") && !page.dom.matches(special, ":not(.special)"));
}

#[test]
fn not_pseudo_class_nested() {
    let page = load(
        "<html><body>
            <p>a</p>
            <p class='foo' id='want'>b</p>
            <p>c</p>
        </body></html>",
    );
    assert_eq!(id_of(&page, page.query_selector("p:not(:not(.foo))")).as_deref(), Some("want"));
}

#[test]
fn not_pseudo_class_combines_with_other_constraints() {
    let page = load(
        "<html><body>
            <a class='ext' href='/x'>x</a>
            <a class='int' id='want' href='/y'>y</a>
            <a class='ext' href='/z'>z</a>
        </body></html>",
    );
    assert_eq!(id_of(&page, page.query_selector("a[href]:not(.ext)")).as_deref(), Some("want"));
}

#[test]
fn matches_with_pseudo_class() {
    let page = load(
        "<html><body><div><p id='first'>a</p><p id='middle'>b</p><p id='last'>c</p></div></body></html>",
    );
    let first = element(&page, "first");
    let middle = element(&page, "middle");
    let last = element(&page, "last");
    assert!(page.dom.matches(first, ":first-child"));
    assert!(!page.dom.matches(middle, ":first-child"));
    assert!(page.dom.matches(last, ":last-child"));
}

#[test]
fn structural_pseudo_classes_need_a_parent() {
    let mut page = load("<html><body></body></html>");
    let el = page.create_element("p");
    assert!(!page.dom.matches(el, ":first-child"));
    assert!(!page.dom.matches(el, ":only-child"));
    assert!(page.dom.matches(el, ":not(:first-child)"));
    assert!(!page.dom.matches(page.root, ":last-child"));
}
