use web_api_cat::document::{build, Page};
use web_api_cat::markup::parse_page;

fn load(html: &str) -> Page {
    build(&parse_page(html))
}

fn ids(page: &Page, found: &[usize]) -> String {
    found.iter().map(|&i| page.dom.elements[i].id.clone()).collect::<Vec<_>>().join(",")
}

#[test]
fn query_selector_all_returns_node_list_with_length() {
    let page = load(
        "<html><body>
            <p id='a'>x</p>
            <p id='b'>y</p>
            <p id='c'>z</p>
        </body></html>",
    );
    assert_eq!(page.query_selector_all("p").len(), 3);
}

#[test]
fn query_selector_all_entries_indexed_in_document_order() {
    let page = load(
        "<html><body>
            <p id='one'>x</p>
            <p id='two'>y</p>
            <p id='three'>z</p>
        </body></html>",
    );
    let found = page.query_selector_all("p");
    assert_eq!(ids(&page, &found), "one,two,three");
}

#[test]
fn query_selector_all_no_match_yields_empty_node_list() {
    let page = load("<html><body><div></div></body></html>");
    assert_eq!(page.query_selector_all(".never").len(), 0);
}

#[test]
fn query_selector_all_respects_class_filter() {
    let page = load(
        "<html><body>
            <p class='want'>x</p>
            <p class='skip'>y</p>
            <p class='want'>z</p>
            <span class='want'>q</span>
        </body></html>",
    );
    assert_eq!(page.query_selector_all("p.want").len(), 2);
}

#[test]
fn query_selector_all_supports_descendant_combinator() {
    let page = load(
        "<html><body>
            <section>
                <article><p>nested</p></article>
                <p>direct</p>
            </section>
            <section>
                <p>second-section</p>
            </section>
        </body></html>",
    );
    assert_eq!(page.query_selector_all("section p").len(), 3);
}

#[test]
fn query_selector_all_supports_selector_list() {
    let page = load(
        "<html><body>
            <h1>a</h1>
            <h2>b</h2>
            <h3>c</h3>
            <p>d</p>
        </body></html>",
    );
    assert_eq!(page.query_selector_all("h1, h3").len(), 2);
}

#[test]
fn element_query_selector_all_scopes_to_subtree() {
    let page = load(
        "<html><body>
            <div id='scope'>
                <p>scoped</p>
                <p>scoped2</p>
            </div>
            <p>outside</p>
        </body></html>",
    );
    let scope = page.get_element_by_id("scope").expect("scope");
    assert_eq!(page.dom.query_selector_all(scope, "p").len(), 2);
}

#[test]
fn query_selector_all_iteration_via_length_index_loop() {
    let page = load(
        "<html><body>
            <p>a</p>
            <p>b</p>
            <p>c</p>
        </body></html>",
    );
    let ps = page.query_selector_all("p");
    let mut acc = String::new();
    for i in 0..ps.len() {
        acc.push_str(&page.dom.elements[ps[i]].text_content);
    }
    assert_eq!(acc, "abc");
}

#[test]
fn query_selector_all_attribute_selector() {
    let page = load(
        "<html><body>
            <a href='/a'>a</a>
            <a>plain</a>
            <a href='/b'>b</a>
        </body></html>",
    );
    assert_eq!(page.query_selector_all("a[href]").len(), 2);
}

#[test]
fn query_selector_all_on_document_walks_root() {
    let page = load(
        "<html><body>
            <p>x</p>
            <div><p>y</p></div>
        </body></html>",
    );
    assert_eq!(page.query_selector_all("p").len(), 2);
}
