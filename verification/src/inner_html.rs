//! `innerHTML` and `outerHTML`.  An element serialises as
//! `<tag attrs>inner</tag>`, its attributes in key order as
//! ` name="value"` with `<`, `>`, `&` and `"` escaped in the value; its
//! inner markup is that of its children in order or, when it has none,
//! its `textContent` with `<`, `>` and `&` escaped.  Assigning `innerHTML`
//! parses the markup as a fragment and makes the parsed elements the
//! element's children.

use vstd::prelude::*;
use crate::dom::Dom;
use crate::element::same_fields;
use crate::html::{built_roots, HtmlElement};
use crate::markup::{elem_view, fragment_built, fragment_roots, parsed_tree, fragment_source};
use crate::text::{append_chars, chars_of, string_of};

verus! {

pub open spec fn lt_entity() -> Seq<char> {
    seq!['&', 'l', 't', ';']
}

pub open spec fn gt_entity() -> Seq<char> {
    seq!['&', 'g', 't', ';']
}

pub open spec fn amp_entity() -> Seq<char> {
    seq!['&', 'a', 'm', 'p', ';']
}

pub open spec fn quot_entity() -> Seq<char> {
    seq!['&', 'q', 'u', 'o', 't', ';']
}

/// How text content writes `c`.
pub open spec fn text_char_html(c: char) -> Seq<char> {
    if c == '<' {
        lt_entity()
    } else if c == '>' {
        gt_entity()
    } else if c == '&' {
        amp_entity()
    } else {
        seq![c]
    }
}

/// How an attribute value writes `c`.
pub open spec fn attribute_char_html(c: char) -> Seq<char> {
    if c == '"' {
        quot_entity()
    } else {
        text_char_html(c)
    }
}

pub open spec fn text_html(s: Seq<char>) -> Seq<char>
    decreases s.len(),
{
    if s.len() == 0 {
        Seq::empty()
    } else {
        text_html(s.drop_last()) + text_char_html(s.last())
    }
}

pub open spec fn attribute_html(s: Seq<char>) -> Seq<char>
    decreases s.len(),
{
    if s.len() == 0 {
        Seq::empty()
    } else {
        attribute_html(s.drop_last()) + attribute_char_html(s.last())
    }
}

/// Escaped text holds no `<` and no `>`, so it cannot open or close a tag.
pub proof fn law_escaped_text_has_no_angle_brackets(s: Seq<char>)
    ensures
        !text_html(s).contains('<'),
        !text_html(s).contains('>'),
    decreases s.len(),
{
    if s.len() > 0 {
        law_escaped_text_has_no_angle_brackets(s.drop_last());
        let r = text_html(s.drop_last());
        let e = text_char_html(s.last());
        assert forall|c: char| (c == '<' || c == '>') implies !(r + e).contains(c) by {
            if (r + e).contains(c) {
                let k = choose|k: int| 0 <= k < (r + e).len() && (r + e)[k] == c;
                if k < r.len() {
                    assert(r[k] == c);
                } else {
                    assert(e[k - r.len()] == c);
                }
            }
        }
    }
}

/// An escaped attribute value holds no `"`, so it cannot end the quoted
/// value early, and no `<` or `>`.
pub proof fn law_escaped_attribute_stays_quoted(s: Seq<char>)
    ensures
        !attribute_html(s).contains('"'),
        !attribute_html(s).contains('<'),
        !attribute_html(s).contains('>'),
    decreases s.len(),
{
    if s.len() > 0 {
        law_escaped_attribute_stays_quoted(s.drop_last());
        let r = attribute_html(s.drop_last());
        let e = attribute_char_html(s.last());
        assert forall|c: char| (c == '"' || c == '<' || c == '>') implies !(r + e).contains(c) by {
            if (r + e).contains(c) {
                let k = choose|k: int| 0 <= k < (r + e).len() && (r + e)[k] == c;
                if k < r.len() {
                    assert(r[k] == c);
                } else {
                    assert(e[k - r.len()] == c);
                }
            }
        }
    }
}

fn push_entity(out: &mut Vec<char>, c: char)
    ensures
        final(out)@ == old(out)@ + text_char_html(c),
{
    if c == '<' {
        let e: [char; 4] = ['&', 'l', 't', ';'];
        append_chars(out, &e);
        assert(e@ == lt_entity());
    } else if c == '>' {
        let e: [char; 4] = ['&', 'g', 't', ';'];
        append_chars(out, &e);
        assert(e@ == gt_entity());
    } else if c == '&' {
        let e: [char; 5] = ['&', 'a', 'm', 'p', ';'];
        append_chars(out, &e);
        assert(e@ == amp_entity());
    } else {
        out.push(c);
    }
}

/// How text content writes `c`.
pub fn escape_text_char(c: char) -> (r: String)
    ensures
        r@ == text_char_html(c),
{
    let mut out: Vec<char> = Vec::new();
    push_entity(&mut out, c);
    string_of(&out)
}

/// How an attribute value writes `c`.
pub fn escape_attribute_char(c: char) -> (r: String)
    ensures
        r@ == attribute_char_html(c),
{
    let mut out: Vec<char> = Vec::new();
    if c == '"' {
        let e: [char; 6] = ['&', 'q', 'u', 'o', 't', ';'];
        append_chars(&mut out, &e);
        assert(e@ == quot_entity());
    } else {
        push_entity(&mut out, c);
    }
    string_of(&out)
}

fn append_escaped(out: &mut Vec<char>, s: &[char], attribute: bool)
    ensures
        final(out)@ == old(out)@ + (if attribute {
            attribute_html(s@)
        } else {
            text_html(s@)
        }),
{
    let mut i: usize = 0;
    while i < s.len()
        invariant
            i <= s@.len(),
            out@ == old(out)@ + (if attribute {
                attribute_html(s@.take(i as int))
            } else {
                text_html(s@.take(i as int))
            }),
        decreases s@.len() - i,
    {
        proof {
            let t = s@.take(i + 1);
            assert(t.drop_last() == s@.take(i as int));
            assert(t.last() == s@[i as int]);
        }
        let c = s[i];
        if attribute && c == '"' {
            let e: [char; 6] = ['&', 'q', 'u', 'o', 't', ';'];
            append_chars(out, &e);
            assert(e@ == quot_entity());
        } else {
            push_entity(out, c);
        }
        i = i + 1;
    }
    assert(s@.take(s@.len() as int) == s@);
}

/// Text content with `<`, `>` and `&` escaped.
pub fn escape_text(s: &str) -> (r: String)
    ensures
        r@ == text_html(s@),
{
    let cs = chars_of(s);
    let mut out: Vec<char> = Vec::new();
    append_escaped(&mut out, &cs, false);
    string_of(&out)
}

/// An attribute value with `<`, `>`, `&` and `"` escaped.
pub fn escape_attribute(s: &str) -> (r: String)
    ensures
        r@ == attribute_html(s@),
{
    let cs = chars_of(s);
    let mut out: Vec<char> = Vec::new();
    append_escaped(&mut out, &cs, true);
    string_of(&out)
}

/// The attributes, each as ` name="value"`.
pub open spec fn attributes_html(entries: Seq<(Seq<char>, Seq<char>)>) -> Seq<char>
    decreases entries.len(),
{
    if entries.len() == 0 {
        Seq::empty()
    } else {
        attributes_html(entries.drop_last()) + seq![' '] + entries.last().0 + seq!['=', '"']
            + attribute_html(entries.last().1) + seq!['"']
    }
}

/// The markup of element `id`, its own tags included, going at most
/// `depth` levels further down.
pub open spec fn outer_html(dom: Dom, id: usize, depth: nat) -> Seq<char>
    decreases depth, 1int,
{
    let tag = dom.node(id as int).tag_name@;
    seq!['<'] + tag + attributes_html(dom.node(id as int).attributes@) + seq!['>'] + inner_html(dom, id, depth)
        + seq!['<', '/'] + tag + seq!['>']
}

/// The markup inside element `id`: its children's, or its escaped text
/// when it has none; at most `depth` levels further down.
pub open spec fn inner_html(dom: Dom, id: usize, depth: nat) -> Seq<char>
    decreases depth, 0int,
{
    let cs = dom.children_of(id as int);
    if cs.len() == 0 {
        if dom.valid(id as int) {
            text_html(dom.node(id as int).text_content@)
        } else {
            Seq::empty()
        }
    } else if depth == 0 {
        Seq::empty()
    } else {
        children_html(dom, cs, (depth - 1) as nat)
    }
}

/// The markup of the elements `cs`, one after the other.
pub open spec fn children_html(dom: Dom, cs: Seq<usize>, depth: nat) -> Seq<char>
    decreases depth, cs.len() + 2,
{
    if cs.len() == 0 {
        Seq::empty()
    } else {
        children_html(dom, cs.drop_last(), depth) + outer_html(dom, cs.last(), depth)
    }
}

fn append_attributes(out: &mut Vec<char>, dom: &Dom, id: usize)
    requires
        dom.wf(),
        id < dom.len(),
    ensures
        final(out)@ == old(out)@ + attributes_html(dom.node(id as int).attributes@),
{
    let pairs = dom.elements[id].attributes.to_pairs();
    let ghost entries = dom.node(id as int).attributes@;
    let mut i: usize = 0;
    while i < pairs.len()
        invariant
            i <= pairs@.len(),
            pairs@.map_values(|p: (String, String)| (p.0@, p.1@)) == entries,
            entries == dom.node(id as int).attributes@,
            out@ == old(out)@ + attributes_html(entries.take(i as int)),
        decreases pairs@.len() - i,
    {
        proof {
            let t = entries.take(i + 1);
            assert(t.drop_last() == entries.take(i as int));
            assert(t.last() == entries[i as int]);
            assert(entries[i as int] == (pairs@[i as int].0@, pairs@[i as int].1@));
        }
        out.push(' ');
        let k = chars_of(pairs[i].0.as_str());
        append_chars(out, &k);
        out.push('=');
        out.push('"');
        let v = chars_of(pairs[i].1.as_str());
        append_escaped(out, &v, true);
        out.push('"');
        i = i + 1;
    }
    assert(entries.take(entries.len() as int) == entries);
}

fn append_outer(out: &mut Vec<char>, dom: &Dom, id: usize, depth: usize)
    requires
        dom.wf(),
        id < dom.len(),
    ensures
        final(out)@ == old(out)@ + outer_html(*dom, id, depth as nat),
    decreases depth, 1int,
{
    let tag = chars_of(dom.elements[id].tag_name.as_str());
    out.push('<');
    append_chars(out, &tag);
    append_attributes(out, dom, id);
    out.push('>');
    append_inner(out, dom, id, depth);
    out.push('<');
    out.push('/');
    append_chars(out, &tag);
    out.push('>');
}

fn append_inner(out: &mut Vec<char>, dom: &Dom, id: usize, depth: usize)
    requires
        dom.wf(),
        id < dom.len(),
    ensures
        final(out)@ == old(out)@ + inner_html(*dom, id, depth as nat),
    decreases depth, 0int,
{
    assert(dom.elements@[id as int].wf(dom.len()));
    let n = dom.elements[id].children.len();
    if n == 0 {
        let t = chars_of(dom.elements[id].text_content.as_str());
        append_escaped(out, &t, false);
    } else if depth > 0 {
        append_children(out, dom, &dom.elements[id].children, depth - 1);
    }
}

fn append_children(out: &mut Vec<char>, dom: &Dom, cs: &Vec<usize>, depth: usize)
    requires
        dom.wf(),
        forall|j: int| 0 <= j < cs@.len() ==> #[trigger] cs@[j] < dom.len(),
    ensures
        final(out)@ == old(out)@ + children_html(*dom, cs@, depth as nat),
    decreases depth, cs@.len() + 2,
{
    let mut i: usize = 0;
    while i < cs.len()
        invariant
            i <= cs@.len(),
            dom.wf(),
            forall|j: int| 0 <= j < cs@.len() ==> #[trigger] cs@[j] < dom.len(),
            out@ == old(out)@ + children_html(*dom, cs@.take(i as int), depth as nat),
        decreases cs@.len() - i,
    {
        proof {
            let t = cs@.take(i + 1);
            assert(t.drop_last() == cs@.take(i as int));
            assert(t.last() == cs@[i as int]);
        }
        append_outer(out, dom, cs[i], depth);
        i = i + 1;
    }
    assert(cs@.take(cs@.len() as int) == cs@);
}

proof fn lemma_take_push_contains(s: Seq<usize>, i: int, j: usize)
    requires
        0 <= i < s.len(),
    ensures
        s.take(i + 1).contains(j) <==> (s.take(i).contains(j) || s[i] == j),
{
    let t1 = s.take(i + 1);
    let t0 = s.take(i);
    if t1.contains(j) {
        let w = choose|w: int| 0 <= w < t1.len() && t1[w] == j;
        if w < i {
            assert(t0[w] == j);
        }
    }
    if t0.contains(j) {
        let w = choose|w: int| 0 <= w < t0.len() && t0[w] == j;
        assert(t1[w] == j);
    }
    if s[i] == j {
        assert(t1[i] == j);
    }
}

impl Dom {
    /// `element.innerHTML` (read).
    pub fn inner_html(&self, id: usize) -> (r: String)
        requires
            self.wf(),
            id < self.len(),
        ensures
            r@ == inner_html(*self, id, self.len()),
    {
        let mut out: Vec<char> = Vec::new();
        append_inner(&mut out, self, id, self.elements.len());
        string_of(&out)
    }

    /// `element.outerHTML` (read).
    pub fn outer_html(&self, id: usize) -> (r: String)
        requires
            self.wf(),
            id < self.len(),
        ensures
            r@ == outer_html(*self, id, self.len()),
    {
        let mut out: Vec<char> = Vec::new();
        append_outer(&mut out, self, id, self.elements.len());
        string_of(&out)
    }

    /// `element.innerHTML = html`: the elements parsed from `html` become
    /// the children of `id`, in order, with `id` as their parent; the old
    /// children are detached.  `textContent` is left as it was.  The new
    /// elements are those that [`Dom::parse_fragment_children`] builds from
    /// `html`: the tree is as it built them, apart from the child list of
    /// `id` and the parent slots of the old and the new children.
    pub fn set_inner_html(&mut self, id: usize, html: &str) -> (r: Vec<usize>)
        requires
            old(self).wf(),
            id < old(self).len(),
        ensures
            final(self).wf(),
            final(self).len() >= old(self).len(),
            final(self).node(id as int).children@ == r@,
            forall|i: int|
                0 <= i < r@.len() ==> old(self).len() <= #[trigger] r@[i] < final(self).len()
                    && final(self).node(r@[i] as int).parent == Some(id),
            forall|j: int| 0 <= j < old(self).len() ==> same_fields(#[trigger] final(self).node(j), old(self).node(j)),
            forall|j: int|
                0 <= j < old(self).len() && j != id ==> #[trigger] final(self).node(j).children@ == old(
                    self,
                ).node(j).children@,
            forall|j: int|
                0 <= j < old(self).len() ==> #[trigger] final(self).node(j).parent == if old(self).node(
                    id as int,
                ).children@.contains(j as usize) {
                    None
                } else {
                    old(self).node(j).parent
                },
            exists|mid: Dom|
                #[trigger] fragment_built(*old(self), mid, html@, r@) && mid.len() == final(self).len()
                    && (forall|j: int| 0 <= j < mid.len() ==> same_fields(#[trigger] final(self).node(j), mid.node(j)))
                    && (forall|j: int| 0 <= j < mid.len() && j != id ==> #[trigger] final(self).node(j).children@
                        == mid.node(j).children@)
                    && (forall|j: int|
                        old(self).len() <= j < mid.len() && !r@.contains(j as usize) ==> #[trigger] final(self).node(
                            j,
                        ).parent == mid.node(j).parent),
    {
        let ghost d0 = *self;
        let r = self.parse_fragment_children(html);
        let ghost d1 = *self;
        proof {
            match parsed_tree(fragment_source(html@)) {
                Some(t) => {
                    let b = choose|b: HtmlElement|
                        elem_view(b) == t && #[trigger] built_roots(d1, r@, fragment_roots(b), d0.len() as int);
                    crate::html::lemma_built_roots_ids(d1, r@, fragment_roots(b), d0.len() as int);
                },
                None => {},
            }
            assert(d1.node(id as int) == d0.node(id as int));
            assert(d1.elements@[id as int].wf(d1.len()));
        }
        let ks = self.elements[id].children.clone();
        assert(ks@ == d0.node(id as int).children@);
        assert(d0.elements@[id as int].wf(d0.len()));
        let _total = self.elements.len();
        let mut i: usize = 0;
        while i < ks.len()
            invariant
                d1.len() <= usize::MAX,
                self.wf(),
                self.len() == d1.len(),
                d1.len() >= d0.len(),
                id < d0.len(),
                ks@ == d0.node(id as int).children@,
                forall|k: int| 0 <= k < ks@.len() ==> #[trigger] ks@[k] < d0.len(),
                i <= ks@.len(),
                forall|j: int| 0 <= j < d1.len() ==> same_fields(#[trigger] self.node(j), d1.node(j)),
                forall|j: int| 0 <= j < d1.len() ==> #[trigger] self.node(j).children@ == d1.node(j).children@,
                forall|j: int|
                    0 <= j < d1.len() ==> #[trigger] self.node(j).parent == if ks@.take(i as int).contains(
                        j as usize,
                    ) {
                        None
                    } else {
                        d1.node(j).parent
                    },
            decreases ks@.len() - i,
        {
            let k = ks[i];
            let ghost before = *self;
            self.elements[k].parent = None;
            proof {
                assert(before.elements@[k as int].wf(before.len()));
                crate::element::lemma_wf_update(before, *self, k as int);
                assert forall|j: int| 0 <= j < d1.len() implies same_fields(#[trigger] self.node(j), d1.node(j))
                    && self.node(j).children@ == d1.node(j).children@ by {
                    if j != k {
                        assert(self.node(j) == before.node(j));
                    }
                }
                assert forall|j: int| 0 <= j < d1.len() implies #[trigger] self.node(j).parent == if ks@.take(
                    i + 1,
                ).contains(j as usize) {
                    None
                } else {
                    d1.node(j).parent
                } by {
                    lemma_take_push_contains(ks@, i as int, j as usize);
                    if j != k {
                        assert(self.node(j) == before.node(j));
                        assert(before.node(j).parent == if ks@.take(i as int).contains(j as usize) {
                            None
                        } else {
                            d1.node(j).parent
                        });
                        assert(ks@[i as int] != j as usize);
                    } else {
                        assert(self.node(j).parent is None);
                        assert(ks@[i as int] == j as usize);
                    }
                }
            }
            i = i + 1;
        }
        assert(ks@.take(ks@.len() as int) == ks@);
        let ghost d2 = *self;
        let mut n: usize = 0;
        while n < r.len()
            invariant
                self.wf(),
                self.len() == d1.len(),
                id < d0.len(),
                d1.len() >= d0.len(),
                forall|k: int| 0 <= k < r@.len() ==> d0.len() <= #[trigger] r@[k] < d1.len(),
                n <= r@.len(),
                forall|j: int| 0 <= j < d1.len() ==> same_fields(#[trigger] self.node(j), d2.node(j)),
                forall|j: int| 0 <= j < d1.len() ==> #[trigger] self.node(j).children@ == d2.node(j).children@,
                forall|j: int| 0 <= j < d0.len() ==> #[trigger] self.node(j).parent == d2.node(j).parent,
                forall|j: int| d0.len() <= j < d1.len() && !r@.contains(j as usize) ==> #[trigger] self.node(j).parent
                    == d2.node(j).parent,
                forall|k: int| 0 <= k < n ==> #[trigger] self.node(r@[k] as int).parent == Some(id),
            decreases r@.len() - n,
        {
            let c = r[n];
            let ghost before = *self;
            self.elements[c].parent = Some(id);
            proof {
                assert(before.elements@[c as int].wf(before.len()));
                crate::element::lemma_wf_update(before, *self, c as int);
                assert forall|j: int| 0 <= j < d1.len() implies same_fields(#[trigger] self.node(j), d2.node(j))
                    && self.node(j).children@ == d2.node(j).children@ by {
                    if j != c {
                        assert(self.node(j) == before.node(j));
                    }
                }
                assert forall|j: int| 0 <= j < d0.len() implies #[trigger] self.node(j).parent == d2.node(j).parent by {
                    assert(self.node(j) == before.node(j));
                }
                assert forall|j: int| d0.len() <= j < d1.len() && !r@.contains(j as usize) implies #[trigger] self.node(
                    j,
                ).parent == d2.node(j).parent by {
                    assert(r@[n as int] == c);
                    if j == c {
                        assert(r@.contains(c));
                    }
                    assert(self.node(j) == before.node(j));
                }
                assert forall|k: int| 0 <= k < n + 1 implies #[trigger] self.node(r@[k] as int).parent == Some(id) by {
                    if r@[k] != c {
                        assert(self.node(r@[k] as int) == before.node(r@[k] as int));
                    }
                }
            }
            n = n + 1;
        }
        let mut kids: Vec<usize> = Vec::new();
        let mut m: usize = 0;
        while m < r.len()
            invariant
                m <= r@.len(),
                kids@ == r@.take(m as int),
            decreases r@.len() - m,
        {
            kids.push(r[m]);
            assert(r@.take(m + 1) == r@.take(m as int).push(r@[m as int]));
            m = m + 1;
        }
        assert(r@.take(r@.len() as int) == r@);
        let ghost d3 = *self;
        self.elements[id].children = kids;
        proof {
            assert(d3.elements@[id as int].wf(d3.len()));
            crate::element::lemma_wf_update(d3, *self, id as int);
            assert forall|j: int| 0 <= j < d0.len() implies #[trigger] self.node(j).parent == if d0.node(
                id as int,
            ).children@.contains(j as usize) {
                None
            } else {
                d0.node(j).parent
            } by {
                assert(d1.node(j) == d0.node(j));
                assert(self.node(j).parent == d3.node(j).parent);
                assert(d3.node(j).parent == d2.node(j).parent);
            }
            assert forall|j: int| 0 <= j < d0.len() implies same_fields(#[trigger] self.node(j), d0.node(j)) by {
                assert(d1.node(j) == d0.node(j));
                assert(same_fields(d3.node(j), d2.node(j)));
                assert(same_fields(d2.node(j), d1.node(j)));
                if j != id {
                    assert(self.node(j) == d3.node(j));
                }
            }
            assert forall|j: int| 0 <= j < d0.len() && j != id implies #[trigger] self.node(j).children@
                == d0.node(j).children@ by {
                assert(d1.node(j) == d0.node(j));
                assert(d3.node(j).children@ == d2.node(j).children@);
                assert(d2.node(j).children@ == d1.node(j).children@);
                assert(self.node(j) == d3.node(j));
            }
            assert forall|i: int| 0 <= i < r@.len() implies d0.len() <= #[trigger] r@[i] < self.len()
                && self.node(r@[i] as int).parent == Some(id) by {
                assert(self.node(r@[i] as int).parent == d3.node(r@[i] as int).parent);
            }
            assert forall|j: int| 0 <= j < d1.len() implies same_fields(#[trigger] self.node(j), d1.node(j)) by {
                assert(same_fields(d3.node(j), d2.node(j)));
                assert(same_fields(d2.node(j), d1.node(j)));
                if j != id {
                    assert(self.node(j) == d3.node(j));
                }
            }
            assert forall|j: int| 0 <= j < d1.len() && j != id implies #[trigger] self.node(j).children@
                == d1.node(j).children@ by {
                assert(d3.node(j).children@ == d2.node(j).children@);
                assert(self.node(j) == d3.node(j));
            }
            assert forall|j: int| d0.len() <= j < d1.len() && !r@.contains(j as usize) implies #[trigger] self.node(
                j,
            ).parent == d1.node(j).parent by {
                assert(self.node(j).parent == d3.node(j).parent);
                assert(d3.node(j).parent == d2.node(j).parent);
            }
            assert(fragment_built(d0, d1, html@, r@));
        }
        r
    }
}

} // verus!
