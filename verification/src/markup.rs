//! Markup parsing through `html_cat`.  The parser's tree is read out as
//! its nodes in document order, each element with the number of its child
//! nodes; that list is named by the source text, and the tree is rebuilt
//! from it here.  Fragments assigned to `innerHTML` are wrapped in
//! `<html><body>...</body></html>`, parsed as a document, and the element
//! children of its `body` become new detached elements.

use vstd::prelude::*;
use crate::dom::Dom;
use crate::html::{body_in, built_roots, find_html_body, HtmlElement, HtmlNode};
use crate::strmap::pair_views;
use crate::text::{append_chars, chars_of, string_of};
use html_cat::Node::{Element as ParsedElement, Text as ParsedText};
use self::FlatNode::{CommentLeaf, ElementStart, TextLeaf};

verus! {

#[verifier::external_type_specification]
#[verifier::external_body]
pub struct ExParsedDocument(html_cat::Document);

/// One node of a parsed tree, in document order: an element with its
/// name, its attributes in source order and the number of its child
/// nodes (which follow it), a text node, or a comment.
pub enum FlatNode {
    ElementStart(String, Vec<(String, String)>, usize),
    TextLeaf(String),
    CommentLeaf,
}

pub enum FlatView {
    ElementStart(Seq<char>, Seq<(Seq<char>, Seq<char>)>, nat),
    TextLeaf(Seq<char>),
    CommentLeaf,
}

impl View for FlatNode {
    type V = FlatView;

    open spec fn view(&self) -> FlatView {
        match self {
            FlatNode::ElementStart(n, a, k) => FlatView::ElementStart(n@, pair_views(a@), *k as nat),
            FlatNode::TextLeaf(t) => FlatView::TextLeaf(t@),
            FlatNode::CommentLeaf => FlatView::CommentLeaf,
        }
    }
}

pub open spec fn flat_views(v: Seq<FlatNode>) -> Seq<FlatView> {
    v.map_values(|n: FlatNode| n@)
}

/// The nodes, in document order, of the tree that `html_cat::parse` makes
/// of `source`.
pub uninterp spec fn parsed_nodes(source: Seq<char>) -> Seq<FlatView>;

/// Calls `html_cat::parse` (which returns `Ok` on every input) and reads
/// the tree out in document order: each element, with its name,
/// attributes and child count, is followed by its child nodes; the
/// remaining node kind, a comment, is read as a bare comment.  The
/// contract claims that a list comes back and that it depends on `source`
/// alone.
#[verifier::external_body]
fn parse_flat(source: &str) -> (r: Option<Vec<FlatNode>>)
    ensures
        match r {
            Some(v) => flat_views(v@) == parsed_nodes(source@),
            None => false,
        },
{
    let (top, mut out) = (ParsedElement(html_cat::parse(source).ok()?.root().clone()), Vec::new());
    let mut stack = vec![&top];
    while let Some(n) = stack.pop() {
        out.push(match n {
            ParsedElement(e) => {
                stack.extend(e.children().iter().rev());
                let a = e.attributes().iter().map(|a| (a.name().into(), a.value().into())).collect();
                ElementStart(e.name().into(), a, e.children().len())
            },
            ParsedText(t) => TextLeaf(t.content().into()),
            _ => CommentLeaf,
        });
    }
    Some(out)
}

/// The nodes, in document order, of an already parsed `html_cat`
/// document: what its root element and the elements under it hold.
pub uninterp spec fn document_nodes(doc: html_cat::Document) -> Seq<FlatView>;

/// Reads an already parsed `html_cat` document out in document order
/// through `Document::root` and `Element::children`, as [`parse_flat`]
/// does.  The contract claims that the list is the document's nodes in
/// that order, a function of the document alone.
#[verifier::external_body]
fn flatten_document(doc: &html_cat::Document) -> (r: Vec<FlatNode>)
    ensures
        flat_views(r@) == document_nodes(*doc),
{
    let (top, mut out) = (ParsedElement(doc.root().clone()), Vec::new());
    let mut stack = vec![&top];
    while let Some(n) = stack.pop() {
        out.push(match n {
            ParsedElement(e) => {
                stack.extend(e.children().iter().rev());
                let a = e.attributes().iter().map(|a| (a.name().into(), a.value().into())).collect();
                ElementStart(e.name().into(), a, e.children().len())
            },
            ParsedText(t) => TextLeaf(t.content().into()),
            _ => CommentLeaf,
        });
    }
    out
}

/// A parsed tree as a mathematical value.
pub enum PNode {
    Elem(Seq<char>, Seq<(Seq<char>, Seq<char>)>, Seq<PNode>),
    Text(Seq<char>),
    Comment,
}

/// An element as a tree value: name, attributes and child nodes.
pub open spec fn elem_view(e: HtmlElement) -> PNode
    decreases e,
{
    PNode::Elem(e.name@, pair_views(e.attributes@), nodes_view(e.children@))
}

pub open spec fn node_view(n: HtmlNode) -> PNode
    decreases n,
{
    match n {
        HtmlNode::ElementNode(e) => elem_view(e),
        HtmlNode::TextNode(t) => PNode::Text(t@),
        HtmlNode::CommentNode(_) => PNode::Comment,
    }
}

pub open spec fn nodes_view(ns: Seq<HtmlNode>) -> Seq<PNode>
    decreases ns,
{
    if ns.len() == 0 {
        Seq::empty()
    } else {
        nodes_view(ns.drop_last()).push(node_view(ns.last()))
    }
}

/// The element whose node stands at `pos` of `items`, with the position
/// after its last descendant; `None` when `items` do not hold one there
/// (`fuel` bounds the nesting).
pub open spec fn decode_elem(items: Seq<FlatView>, pos: int, fuel: nat) -> Option<(PNode, int)>
    decreases fuel, 0nat, 0nat,
{
    if fuel == 0 || !(0 <= pos < items.len()) {
        None
    } else {
        match items[pos] {
            FlatView::ElementStart(name, attrs, k) => match decode_nodes(items, pos + 1, k, (fuel - 1) as nat) {
                Some((kids, next)) => Some((PNode::Elem(name, attrs, kids), next)),
                None => None,
            },
            _ => None,
        }
    }
}

/// The node at `pos` of `items`, with the position after it.
pub open spec fn decode_node(items: Seq<FlatView>, pos: int, fuel: nat) -> Option<(PNode, int)>
    decreases fuel, 1nat, 0nat,
{
    if !(0 <= pos < items.len()) {
        None
    } else {
        match items[pos] {
            FlatView::ElementStart(_, _, _) => decode_elem(items, pos, fuel),
            FlatView::TextLeaf(t) => Some((PNode::Text(t), pos + 1)),
            FlatView::CommentLeaf => Some((PNode::Comment, pos + 1)),
        }
    }
}

/// `k` nodes one after another from `pos`.
pub open spec fn decode_nodes(items: Seq<FlatView>, pos: int, k: nat, fuel: nat) -> Option<(Seq<PNode>, int)>
    decreases fuel, 2nat, k,
{
    if k == 0 {
        Some((Seq::empty(), pos))
    } else {
        match decode_nodes(items, pos, (k - 1) as nat, fuel) {
            Some((ns, p)) => match decode_node(items, p, fuel) {
                Some((n, q)) => Some((ns.push(n), q)),
                None => None,
            },
            None => None,
        }
    }
}

/// The tree that `html_cat::parse` makes of `source`, rooted at the
/// document's root element.
pub open spec fn parsed_tree(source: Seq<char>) -> Option<PNode> {
    match decode_elem(parsed_nodes(source), 0, parsed_nodes(source).len()) {
        Some((t, _)) => Some(t),
        None => None,
    }
}

fn copy_pairs(v: &Vec<(String, String)>) -> (r: Vec<(String, String)>)
    ensures
        pair_views(r@) == pair_views(v@),
{
    let mut r: Vec<(String, String)> = Vec::new();
    let mut i: usize = 0;
    while i < v.len()
        invariant
            i <= v@.len(),
            pair_views(r@) == pair_views(v@).take(i as int),
        decreases v@.len() - i,
    {
        let ghost before = r@;
        r.push((v[i].0.clone(), v[i].1.clone()));
        assert(pair_views(r@) =~= pair_views(before).push((v@[i as int].0@, v@[i as int].1@)));
        assert(pair_views(v@).take(i + 1) =~= pair_views(v@).take(i as int).push(pair_views(v@)[i as int]));
        i = i + 1;
    }
    assert(pair_views(v@).take(v@.len() as int) =~= pair_views(v@));
    r
}

fn decode_elem_exec(items: &Vec<FlatNode>, pos: usize, fuel: usize) -> (r: Option<(HtmlElement, usize)>)
    ensures
        match r {
            Some((e, next)) => decode_elem(flat_views(items@), pos as int, fuel as nat) == Some((elem_view(e), next as int)),
            None => decode_elem(flat_views(items@), pos as int, fuel as nat) is None,
        },
    decreases fuel, 0nat, 0nat,
{
    if fuel == 0 || pos >= items.len() {
        return None;
    }
    assert(flat_views(items@)[pos as int] == items@[pos as int]@);
    match &items[pos] {
        FlatNode::ElementStart(name, attrs, k) => {
            match decode_nodes_exec(items, pos + 1, *k, fuel - 1) {
                Some((kids, next)) => {
                    let e = HtmlElement { name: name.clone(), attributes: copy_pairs(attrs), children: kids };
                    assert(e.name@ == name@);
                    assert(pair_views(e.attributes@) == pair_views(attrs@));
                    Some((e, next))
                },
                None => None,
            }
        },
        _ => None,
    }
}

fn decode_node_exec(items: &Vec<FlatNode>, pos: usize, fuel: usize) -> (r: Option<(HtmlNode, usize)>)
    ensures
        match r {
            Some((n, next)) => decode_node(flat_views(items@), pos as int, fuel as nat) == Some((node_view(n), next as int)),
            None => decode_node(flat_views(items@), pos as int, fuel as nat) is None,
        },
    decreases fuel, 1nat, 0nat,
{
    if pos >= items.len() {
        return None;
    }
    assert(flat_views(items@)[pos as int] == items@[pos as int]@);
    match &items[pos] {
        FlatNode::ElementStart(_, _, _) => match decode_elem_exec(items, pos, fuel) {
            Some((e, next)) => Some((HtmlNode::ElementNode(e), next)),
            None => None,
        },
        FlatNode::TextLeaf(t) => Some((HtmlNode::TextNode(t.clone()), pos + 1)),
        FlatNode::CommentLeaf => Some((HtmlNode::CommentNode(String::new()), pos + 1)),
    }
}

fn decode_nodes_exec(items: &Vec<FlatNode>, pos: usize, k: usize, fuel: usize) -> (r: Option<(Vec<HtmlNode>, usize)>)
    ensures
        match r {
            Some((ns, next)) => decode_nodes(flat_views(items@), pos as int, k as nat, fuel as nat) == Some((nodes_view(ns@), next as int)),
            None => decode_nodes(flat_views(items@), pos as int, k as nat, fuel as nat) is None,
        },
    decreases fuel, 2nat, k,
{
    let mut out: Vec<HtmlNode> = Vec::new();
    let mut p = pos;
    let mut j: usize = 0;
    assert(nodes_view(out@) =~= Seq::<PNode>::empty());
    while j < k
        invariant
            j <= k,
            decode_nodes(flat_views(items@), pos as int, j as nat, fuel as nat) == Some((nodes_view(out@), p as int)),
        decreases k - j,
    {
        match decode_node_exec(items, p, fuel) {
            Some((n, q)) => {
                let ghost before = out@;
                out.push(n);
                assert(out@.drop_last() == before);
                assert(nodes_view(out@) == nodes_view(before).push(node_view(n)));
                p = q;
            },
            None => {
                proof {
                    lemma_decode_nodes_fail(flat_views(items@), pos as int, j as nat, k as nat, fuel as nat);
                }
                return None;
            },
        }
        j = j + 1;
    }
    Some((out, p))
}

/// Once `j` nodes decode and the next fails, no longer run decodes.
proof fn lemma_decode_nodes_fail(items: Seq<FlatView>, pos: int, j: nat, k: nat, fuel: nat)
    requires
        j < k,
        decode_nodes(items, pos, j, fuel) matches Some((_, p)) && decode_node(items, p, fuel) is None,
    ensures
        decode_nodes(items, pos, k, fuel) is None,
    decreases k - j,
{
    if k == j + 1 {
    } else {
        lemma_decode_nodes_fail(items, pos, j, (k - 1) as nat, fuel);
    }
}

/// The root element of a parsed list; an empty element when the list
/// holds none.
fn decode_root(items: &Vec<FlatNode>) -> (r: HtmlElement)
    ensures
        match decode_elem(flat_views(items@), 0, items@.len() as nat) {
            Some((t, _)) => elem_view(r) == t,
            None => r.name@.len() == 0 && r.attributes@.len() == 0 && r.children@.len() == 0,
        },
{
    match decode_elem_exec(items, 0, items.len()) {
        Some((e, _)) => e,
        None => HtmlElement { name: String::new(), attributes: Vec::new(), children: Vec::new() },
    }
}

/// The document that a fragment is parsed as.
pub open spec fn fragment_source(html: Seq<char>) -> Seq<char> {
    seq!['<', 'h', 't', 'm', 'l', '>', '<', 'b', 'o', 'd', 'y', '>'] + html + seq![
        '<',
        '/',
        'b',
        'o',
        'd',
        'y',
        '>',
        '<',
        '/',
        'h',
        't',
        'm',
        'l',
        '>',
    ]
}

fn fragment_source_exec(html: &str) -> (r: Vec<char>)
    ensures
        r@ == fragment_source(html@),
{
    let open: [char; 12] = ['<', 'h', 't', 'm', 'l', '>', '<', 'b', 'o', 'd', 'y', '>'];
    let close: [char; 14] = ['<', '/', 'b', 'o', 'd', 'y', '>', '<', '/', 'h', 't', 'm', 'l', '>'];
    let mut out: Vec<char> = Vec::new();
    append_chars(&mut out, &open);
    let h = chars_of(html);
    append_chars(&mut out, &h);
    append_chars(&mut out, &close);
    assert(out@ =~= fragment_source(html@));
    out
}

/// Parses a whole page into an [`HtmlElement`] tree rooted at the
/// document's root element: the tree `html_cat::parse` makes of `source`.
pub fn parse_page(source: &str) -> (r: HtmlElement)
    ensures
        match parsed_tree(source@) {
            Some(t) => elem_view(r) == t,
            None => r.name@.len() == 0 && r.attributes@.len() == 0 && r.children@.len() == 0,
        },
{
    match parse_flat(source) {
        Some(items) => decode_root(&items),
        None => HtmlElement { name: String::new(), attributes: Vec::new(), children: Vec::new() },
    }
}

/// The tree of an already parsed document, rooted at its root element.
pub open spec fn document_tree(doc: html_cat::Document) -> Option<PNode> {
    match decode_elem(document_nodes(doc), 0, document_nodes(doc).len()) {
        Some((t, _)) => Some(t),
        None => None,
    }
}

/// Copies an already parsed document into an [`HtmlElement`] tree rooted
/// at the document's root element, by the same reading-out as
/// [`parse_page`]: the tree of the document's nodes.
pub fn import_document(doc: &html_cat::Document) -> (r: HtmlElement)
    ensures
        match document_tree(*doc) {
            Some(t) => elem_view(r) == t,
            None => r.name@.len() == 0 && r.attributes@.len() == 0 && r.children@.len() == 0,
        },
{
    let items = flatten_document(doc);
    assert(flat_views(items@).len() == items@.len());
    decode_root(&items)
}

/// The nodes that a parsed fragment contributes: the children of its
/// `body`, or of its root element when it has none.
pub open spec fn fragment_roots(tree: HtmlElement) -> Seq<HtmlNode> {
    match body_in(tree) {
        Some(b) => b.children@,
        None => tree.children@,
    }
}

/// What parsing `html` as a fragment did to `before`, giving `after` and
/// the new elements `r`: when the fragment parses to a tree, `r` are the
/// elements built from its fragment roots (see [`fragment_roots`]),
/// detached, from the end of `before` on; when it does not, nothing.
/// Every element of `before` stays as it was.
pub open spec fn fragment_built(before: Dom, after: Dom, html: Seq<char>, r: Seq<usize>) -> bool {
    &&& after.wf()
    &&& after.len() >= before.len()
    &&& forall|j: int| 0 <= j < before.len() ==> #[trigger] after.node(j) == before.node(j)
    &&& match parsed_tree(fragment_source(html)) {
        Some(t) => exists|b: HtmlElement|
            elem_view(b) == t && #[trigger] built_roots(after, r, fragment_roots(b), before.len() as int),
        None => r.len() == 0 && after == before,
    }
}

impl Dom {
    /// Parses `html` as a fragment and builds the element children of its
    /// `body` (of its root element when it has none) as new detached
    /// elements; returns their indices in order.
    pub fn parse_fragment_children(&mut self, html: &str) -> (r: Vec<usize>)
        requires
            old(self).wf(),
        ensures
            fragment_built(*old(self), *final(self), html@, r@),
    {
        let chars = fragment_source_exec(html);
        let source = string_of(&chars);
        let items = match parse_flat(source.as_str()) {
            Some(v) => v,
            None => Vec::new(),
        };
        match decode_elem_exec(&items, 0, items.len()) {
            Some((tree, _)) => {
                assert(flat_views(items@).len() == items@.len());
                let r = match find_html_body(&tree) {
                    Some(b) => self.build_children(&b.children),
                    None => self.build_children(&tree.children),
                };
                assert(built_roots(*self, r@, fragment_roots(tree), old(self).len() as int));
                r
            },
            None => {
                assert(flat_views(items@).len() == items@.len());
                Vec::new()
            },
        }
    }
}

} // verus!
