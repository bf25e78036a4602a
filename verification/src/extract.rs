//! Reading the element tree back out after a script has run, for layout:
//! each element with its tag, its attributes in key order (the inline style
//! rendered back into `style`) and its element
//! children; an element without element children but with text gets that
//! text as its one text child.

use vstd::prelude::*;
use crate::document::Page;
use crate::dom::{Dom, DomElement};
use crate::html::style_name;
use crate::inline_style::{serialize_inline_style, spec_serialize_inline_style};
use crate::text::{chars_of, eq_chars, string_of};
use crate::strmap::{key_seq, lookup, pair_views, sorted_keys};

verus! {

/// A node of the extracted tree.
pub enum ExtractedNode {
    ElementNode(ExtractedElement),
    TextNode(String),
}

/// An element of the extracted tree.
pub struct ExtractedElement {
    pub name: String,
    pub attributes: Vec<(String, String)>,
    pub children: Vec<ExtractedNode>,
}

/// The value an element extracts with under attribute name `k`: under
/// `style`, its inline style rendered back to text (nothing when the inline
/// style is empty); under any other name, its own attribute.
pub open spec fn extracted_attribute(n: DomElement, k: Seq<char>) -> Option<Seq<char>> {
    if k == style_name() {
        if n.style@.len() > 0 {
            Some(spec_serialize_inline_style(n.style@))
        } else {
            None
        }
    } else {
        lookup(n.attributes@, k)
    }
}

/// `pairs` are the attributes an element extracts with, in key order: one
/// pair per name, sorted by name, each holding `extracted_attribute`.
pub open spec fn extracts_attributes(n: DomElement, pairs: Seq<(Seq<char>, Seq<char>)>) -> bool {
    &&& sorted_keys(key_seq(pairs))
    &&& forall|k: Seq<char>| #[trigger] lookup(pairs, k) == extracted_attribute(n, k)
}

fn extract_attributes(e: &DomElement) -> (r: Vec<(String, String)>)
    requires
        e.attributes.wf(),
    ensures
        extracts_attributes(*e, pair_views(r@)),
{
    let mut m = e.attributes.duplicate();
    let style_key = "style";
    proof {
        reveal_strlit("style");
    }
    assert(style_key@ =~= style_name());
    if e.style.len() > 0 {
        let props = e.style.to_pairs();
        assert(pair_views(props@) =~= e.style@);
        let text = serialize_inline_style(&props);
        assert(text@ == spec_serialize_inline_style(e.style@));
        m.insert(style_key, text.as_str());
    } else {
        m.remove(style_key);
    }
    let r = m.to_pairs();
    assert(pair_views(r@) =~= m@);
    proof {
        assert forall|k: Seq<char>| #[trigger] lookup(pair_views(r@), k) == extracted_attribute(*e, k) by {
            assert(m.get_spec(k) == lookup(m@, k));
            assert(e.attributes.get_spec(k) == lookup(e.attributes@, k));
        }
    }
    r
}

/// `x` is what element `id` extracts to, going at most `depth` levels
/// further down.
pub open spec fn extracted(dom: Dom, id: int, depth: nat, x: ExtractedElement) -> bool
    decreases depth,
{
    let n = dom.node(id);
    let kids = if depth == 0 {
        Seq::<usize>::empty()
    } else {
        n.children@
    };
    &&& 0 <= id < dom.len()
    &&& x.name@ == n.tag_name@
    &&& extracts_attributes(n, pair_views(x.attributes@))
    &&& if kids.len() == 0 {
        if n.text_content@.len() == 0 {
            x.children@.len() == 0
        } else {
            &&& x.children@.len() == 1
            &&& x.children@[0] matches ExtractedNode::TextNode(t) && t@ == n.text_content@
        }
    } else {
        &&& x.children@.len() == kids.len()
        &&& forall|i: int|
            0 <= i < kids.len() ==> match #[trigger] x.children@[i] {
                ExtractedNode::ElementNode(y) => extracted(dom, kids[i] as int, (depth - 1) as nat, y),
                ExtractedNode::TextNode(_) => false,
            }
    }
}

fn extract_element(dom: &Dom, id: usize, depth: usize) -> (x: ExtractedElement)
    requires
        dom.wf(),
        id < dom.len(),
    ensures
        extracted(*dom, id as int, depth as nat, x),
    decreases depth,
{
    assert(dom.elements@[id as int].wf(dom.len()));
    let e = &dom.elements[id];
    let attributes = extract_attributes(e);
    let mut children: Vec<ExtractedNode> = Vec::new();
    if depth > 0 {
        let mut i: usize = 0;
        while i < e.children.len()
            invariant
                dom.wf(),
                id < dom.len(),
                depth > 0,
                *e == dom.node(id as int),
                e.wf(dom.len()),
                i <= e.children@.len(),
                children@.len() == i,
                forall|k: int|
                    0 <= k < i ==> match #[trigger] children@[k] {
                        ExtractedNode::ElementNode(y) => extracted(*dom, e.children@[k] as int, (depth - 1) as nat, y),
                        ExtractedNode::TextNode(_) => false,
                    },
            decreases e.children@.len() - i,
        {
            let y = extract_element(dom, e.children[i], depth - 1);
            children.push(ExtractedNode::ElementNode(y));
            i = i + 1;
        }
    }
    let text = chars_of(e.text_content.as_str());
    if children.len() == 0 && text.len() > 0 {
        children.push(ExtractedNode::TextNode(e.text_content.clone()));
    }
    ExtractedElement { name: e.tag_name.clone(), attributes, children }
}

impl Page {
    /// The tree under `documentElement`, as layout reads it.  The walk goes
    /// at most as many levels down as there are elements, which reaches
    /// every descendant whenever the child lists form no cycle.
    pub fn extract(&self) -> (x: ExtractedElement)
        requires
            self.wf(),
        ensures
            extracted(self.dom, self.root as int, self.dom.len(), x),
    {
        extract_element(&self.dom, self.root, self.dom.elements.len())
    }
}

} // verus!
