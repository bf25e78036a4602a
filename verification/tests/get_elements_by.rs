use web_api_cat::document::{build, Page};
use web_api_cat::markup::parse_page;

fn load(html: &str) -> Page {
    build(&parse_page(html))
}

#[test]
fn get_elements_by_tag_name_returns_all_descendants() {
    let page = load(
        "<html><body>
            <p>a</p>
            <p>b</p>
            <div><p>c</p></div>
        </body></html>",
    );
    assert_eq!(page.get_elements_by_tag_name("p").len(), 3);
}

#[test]
fn get_elements_by_tag_name_universal_matches_all() {
    let page = load(
        "<html><body>
            <div></div>
            <p></p>
            <span></span>
        </body></html>",
    );
    assert!(page.get_elements_by_tag_name("*").len() >= 3);
}

#[test]
fn get_elements_by_tag_name_is_case_insensitive() {
    let page = load("<html><body><p>a</p><p>b</p></body></html>");
    assert_eq!(page.get_elements_by_tag_name("P").len(), 2);
}

#[test]
fn get_elements_by_tag_name_empty_returns_empty() {
    let page = load("<html><body><p>a</p></body></html>");
    assert_eq!(page.get_elements_by_tag_name("").len(), 0);
}

#[test]
fn get_elements_by_tag_name_indexed_in_document_order() {
    let page = load(
        "<html><body>
            <p id='one'>a</p>
            <p id='two'>b</p>
            <p id='three'>c</p>
        </body></html>",
    );
    let ps = page.get_elements_by_tag_name("p");
    let s: Vec<String> = ps.iter().map(|&i| page.dom.elements[i].id.clone()).collect();
    assert_eq!(s.join(","), "one,two,three");
}

#[test]
fn element_get_elements_by_tag_name_scopes_to_subtree() {
    let page = load(
        "<html><body>
            <section id='scope'><p>a</p><p>b</p></section>
            <p>outside</p>
        </body></html>",
    );
    let scope = page.get_element_by_id("scope").expect("scope");
    assert_eq!(page.dom.get_elements_by_tag_name(scope, "p").len(), 2);
}

#[test]
fn get_elements_by_class_name_single_class() {
    let page = load(
        "<html><body>
            <div class='target'>a</div>
            <div class='other'>b</div>
            <p class='target'>c</p>
        </body></html>",
    );
    assert_eq!(page.get_elements_by_class_name("target").len(), 2);
}

#[test]
fn get_elements_by_class_name_requires_all_classes() {
    let page = load(
        "<html><body>
            <div class='alpha'>a</div>
            <div class='alpha beta'>b</div>
            <div class='alpha beta gamma'>c</div>
            <div class='beta'>d</div>
        </body></html>",
    );
    assert_eq!(page.get_elements_by_class_name("alpha beta").len(), 2);
}

#[test]
fn get_elements_by_class_name_empty_returns_empty() {
    let page = load(
        "<html><body>
            <div class='foo'>a</div>
            <div>b</div>
        </body></html>",
    );
    assert_eq!(page.get_elements_by_class_name("").len(), 0);
}

#[test]
fn get_elements_by_class_name_whitespace_only_returns_empty() {
    let page = load("<html><body><div class='foo'>x</div></body></html>");
    assert_eq!(page.get_elements_by_class_name("   ").len(), 0);
}

#[test]
fn element_get_elements_by_class_name_scopes_to_subtree() {
    let page = load(
        "<html><body>
            <div id='scope'>
                <p class='want'>a</p>
                <p class='want'>b</p>
            </div>
            <p class='want'>c</p>
        </body></html>",
    );
    let scope = page.get_element_by_id("scope").expect("scope");
    assert_eq!(page.dom.get_elements_by_class_name(scope, "want").len(), 2);
}

#[test]
fn get_elements_by_tag_name_iteration_via_for_loop() {
    let page = load("<html><body><p>a</p><p>b</p><p>c</p></body></html>");
    let ps = page.get_elements_by_tag_name("p");
    let acc: String = ps.iter().map(|&i| page.dom.elements[i].text_content.clone()).collect();
    assert_eq!(acc, "abc");
}
