use web_api_cat::document::{build, Page};
use web_api_cat::markup::parse_page;
use web_api_cat::selector::{find_balanced_close_paren, parse_selector, AttrOperator, Combinator};

fn load(html: &str) -> Page {
    build(&parse_page(html))
}

#[test]
fn multiple_classes_in_one_compound_must_all_match() {
    let page = load(
        "<html><body>
            <div class='a' id='only-a'>x</div>
            <div class='a b' id='ab'>x</div>
            <div class='b c' id='bc'>x</div>
        </body></html>",
    );
    let found = page.query_selector("div.a.b").expect("a match");
    assert_eq!(page.dom.elements[found].id, "ab");
}

#[test]
fn universal_selector_matches_first_descendant() {
    let page = load(
        "<html><body><div id='host'>x</div></body></html>",
    );
    let found = page.query_selector("*").expect("a match");
    assert!(page.dom.elements[found].tag_name.eq_ignore_ascii_case("body"));
}

#[test]
fn descendant_combinator_walks_through_intermediates() {
    let page = load(
        "<html><body>
            <section><article><p id='target'>x</p></article></section>
        </body></html>",
    );
    let found = page.query_selector("section p").expect("a match");
    assert_eq!(page.dom.elements[found].id, "target");
}

#[test]
fn child_combinator_requires_direct_parent() {
    let page = load(
        "<html><body>
            <section>
                <article><p id='nested'>x</p></article>
                <p id='direct'>y</p>
            </section>
        </body></html>",
    );
    let found = page.query_selector("section > p").expect("a match");
    assert_eq!(page.dom.elements[found].id, "direct");
}

#[test]
fn child_combinator_skips_indirect_descendants() {
    let page = load(
        "<html><body><div><span><i id='deep'>x</i></span></div></body></html>",
    );
    assert_eq!(page.query_selector("div > i"), None);
}

#[test]
fn attribute_existence_selector() {
    let page = load(
        "<html><body>
            <a id='plain'>x</a>
            <a id='linked' href='/x'>y</a>
        </body></html>",
    );
    let found = page.query_selector("a[href]").expect("a match");
    assert_eq!(page.dom.elements[found].id, "linked");
}

#[test]
fn attribute_equals_selector() {
    let page = load(
        "<html><body>
            <input id='a' type='checkbox'/>
            <input id='b' type='radio'/>
        </body></html>",
    );
    let found = page.query_selector("input[type=\"radio\"]").expect("a match");
    assert_eq!(page.dom.elements[found].id, "b");
}

#[test]
fn attribute_starts_with_selector() {
    let page = load(
        "<html><body>
            <a id='internal' href='/about'>x</a>
            <a id='external' href='https://example.com'>y</a>
        </body></html>",
    );
    let found = page.query_selector("a[href^=\"https\"]").expect("a match");
    assert_eq!(page.dom.elements[found].id, "external");
}

#[test]
fn attribute_ends_with_selector() {
    let page = load(
        "<html><body>
            <img id='png' src='cat.png'/>
            <img id='jpg' src='dog.jpg'/>
        </body></html>",
    );
    let found = page.query_selector("img[src$=\".png\"]").expect("a match");
    assert_eq!(page.dom.elements[found].id, "png");
}

#[test]
fn attribute_contains_selector() {
    let page = load(
        "<html><body>
            <div id='top' data-tag='headline-large'>x</div>
            <div id='mid' data-tag='caption'>y</div>
        </body></html>",
    );
    let found = page.query_selector("[data-tag*=\"line\"]").expect("a match");
    assert_eq!(page.dom.elements[found].id, "top");
}

#[test]
fn selector_list_matches_either_branch() {
    let page = load(
        "<html><body>
            <h2 id='h2'>x</h2>
            <h3 id='h3'>y</h3>
        </body></html>",
    );
    let found = page.query_selector("h2, h3").expect("a match");
    assert!(page.dom.elements[found].tag_name.eq_ignore_ascii_case("h2"));
}

#[test]
fn selector_list_picks_second_when_first_misses() {
    let page = load(
        "<html><body>
            <p id='one'>x</p>
            <h2 id='two'>y</h2>
        </body></html>",
    );
    let found = page.query_selector("header, p").expect("a match");
    assert_eq!(page.dom.elements[found].id, "one");
}

#[test]
fn compound_with_class_and_attribute() {
    let page = load(
        "<html><body>
            <a id='one' class='link'>x</a>
            <a id='two' class='link' href='/x'>y</a>
        </body></html>",
    );
    let found = page.query_selector("a.link[href]").expect("a match");
    assert_eq!(page.dom.elements[found].id, "two");
}

#[test]
fn nested_combinator_with_id_anchor() {
    let page = load(
        "<html><body>
            <section id='outer'>
                <article>
                    <p id='target'>x</p>
                </article>
            </section>
            <section><p id='other'>y</p></section>
        </body></html>",
    );
    let found = page.query_selector("#outer p").expect("a match");
    assert_eq!(page.dom.elements[found].id, "target");
}

#[test]
fn adjacent_sibling_matches_immediately_following() {
    let page = load(
        "<html><body>
            <h2 id='heading'>Title</h2>
            <p id='lead'>Lead paragraph</p>
            <p id='body'>Body paragraph</p>
        </body></html>",
    );
    let found = page.query_selector("h2 + p").expect("a match");
    assert_eq!(page.dom.elements[found].id, "lead");
}

#[test]
fn adjacent_sibling_skips_non_adjacent() {
    let page = load(
        "<html><body>
            <h2>heading</h2>
            <div>spacer</div>
            <p id='not-adjacent'>p that's not adjacent</p>
        </body></html>",
    );
    assert_eq!(page.query_selector("h2 + p"), None);
}

#[test]
fn adjacent_sibling_with_class_filter() {
    let page = load(
        "<html><body>
            <h2>heading</h2>
            <p class='other'>x</p>
            <h3>another</h3>
            <p class='target' id='want'>y</p>
        </body></html>",
    );
    let found = page.query_selector("h3 + p.target").expect("a match");
    assert_eq!(page.dom.elements[found].id, "want");
}

#[test]
fn general_sibling_matches_non_adjacent_following() {
    let page = load(
        "<html><body>
            <h2>heading</h2>
            <div>spacer1</div>
            <div>spacer2</div>
            <p id='target'>finally a p</p>
        </body></html>",
    );
    let found = page.query_selector("h2 ~ p").expect("a match");
    assert_eq!(page.dom.elements[found].id, "target");
}

#[test]
fn general_sibling_does_not_cross_parent_boundary() {
    let page = load(
        "<html><body>
            <h2>heading</h2>
            <section><p id='nested'>nested p</p></section>
        </body></html>",
    );
    assert_eq!(page.query_selector("h2 ~ p"), None);
}

#[test]
fn general_sibling_picks_first_match_in_document_order() {
    let page = load(
        "<html><body>
            <h2>heading</h2>
            <p id='first'>first</p>
            <p id='second'>second</p>
            <p id='third'>third</p>
        </body></html>",
    );
    let found = page.query_selector("h2 ~ p").expect("a match");
    assert_eq!(page.dom.elements[found].id, "first");
}

#[test]
fn query_selector_all_with_general_sibling() {
    let page = load(
        "<html><body>
            <h2>heading</h2>
            <p>a</p>
            <p>b</p>
            <p>c</p>
        </body></html>",
    );
    assert_eq!(page.dom.query_selector_all(page.root, "h2 ~ p").len(), 3);
}

#[test]
fn query_selector_all_with_adjacent_sibling() {
    let page = load(
        "<html><body>
            <h2>h1</h2>
            <p>p1</p>
            <h2>h2</h2>
            <p>p2</p>
            <h2>h3</h2>
            <p>p3</p>
        </body></html>",
    );
    assert_eq!(page.dom.query_selector_all(page.root, "h2 + p").len(), 3);
}

#[test]
fn sibling_combinator_chains_with_descendant() {
    let page = load(
        "<html><body>
            <section>
                <h2>title</h2>
                <p id='want'>scoped</p>
            </section>
            <h2>other</h2>
            <p>not-scoped</p>
        </body></html>",
    );
    let found = page.query_selector("section h2 + p").expect("a match");
    assert_eq!(page.dom.elements[found].id, "want");
}

#[test]
fn no_match_returns_null() {
    let page = load(
        "<html><body><div></div></body></html>",
    );
    assert_eq!(page.query_selector(".never"), None);
}

#[test]
fn selector_on_an_element_searches_only_below_it() {
    let page = load("<html><body><p id='outside'>x</p><div id='host'><p id='inside'>y</p></div></body></html>");
    let host = page.get_element_by_id("host").expect("host");
    let found = page.dom.query_selector(host, "p").expect("a p");
    assert_eq!(page.dom.elements[found].id, "inside");
    assert_eq!(page.dom.query_selector(host, "div"), None);
}

#[test]
fn attribute_value_without_operator_quotes_and_unclosed_brackets() {
    let page = load("<html><body><a id='one' rel='x y'>1</a><a id='two' rel='z'>2</a></body></html>");
    let found = page.query_selector("a[rel='z']").expect("a match");
    assert_eq!(page.dom.elements[found].id, "two");
    let found = page.query_selector("a[rel=\"x y\"]").expect("a match");
    assert_eq!(page.dom.elements[found].id, "one");
}

#[test]
fn parse_selector_reads_compounds_and_combinators() {
    let chars = |s: &str| s.chars().collect::<Vec<char>>();
    let list = parse_selector("div#main > p.a.b[data-x^='y'], span");
    assert_eq!(list.selectors.len(), 2);
    let first = &list.selectors[0];
    assert_eq!(first.compounds.len(), 2);
    assert_eq!(first.combinators, vec![Combinator::Child]);
    assert_eq!(first.compounds[0].tag, Some(chars("div")));
    assert_eq!(first.compounds[0].id, Some(chars("main")));
    assert_eq!(first.compounds[1].classes, vec![chars("a"), chars("b")]);
    assert_eq!(first.compounds[1].attributes.len(), 1);
    assert_eq!(first.compounds[1].attributes[0].name, chars("data-x"));
    assert_eq!(first.compounds[1].attributes[0].operator, AttrOperator::StartsWith);
    assert_eq!(first.compounds[1].attributes[0].value, Some(chars("y")));
    assert_eq!(list.selectors[1].compounds[0].tag, Some(chars("span")));
}

#[test]
fn descendant_combinator_tries_every_ancestor() {
    let page = load(
        "<html><body><div><ul><li><ul><li id='s'>x</li></ul></li></ul></div></body></html>",
    );
    let s = page.get_element_by_id("s").expect("li#s");
    // The nearest `ul` is not a child of the `div`, the outer one is.
    assert!(page.dom.matches(s, "div > ul li"));
    assert!(!page.dom.matches(s, "p > ul li"));
    assert_eq!(page.query_selector_all("div > ul li").len(), 2);
}

#[test]
fn general_sibling_combinator_tries_every_earlier_sibling() {
    let page = load(
        "<html><body><div><h1>a</h1><p class='k'>b</p><p>c</p><span id='t'>d</span></div></body></html>",
    );
    let t = page.get_element_by_id("t").expect("span#t");
    // The nearest earlier `p` has no earlier `h1 + `; the one before it does.
    assert!(page.dom.matches(t, "h1 + p ~ span"));
    assert!(page.dom.matches(t, "h1 ~ p.k ~ span"));
}

#[test]
fn balanced_close_paren_counts_the_open_depth() {
    let chars = |s: &str| s.chars().collect::<Vec<char>>();
    assert_eq!(find_balanced_close_paren(&chars("(x))"), 0, 1), 3);
    assert_eq!(find_balanced_close_paren(&chars("a)b)"), 0, 2), 3);
    assert_eq!(find_balanced_close_paren(&chars("abc"), 0, 1), 3);
    assert_eq!(find_balanced_close_paren(&chars(":not(.a))"), 5, 1), 7);
    assert_eq!(find_balanced_close_paren(&chars("x"), 9, 1), 1);
}
