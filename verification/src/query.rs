//! Selector matching over the element tree, and the queries built on it:
//! `querySelector`, `querySelectorAll`, `matches`, `closest`,
//! `getElementById`, `getElementsByTagName` and `getElementsByClassName`.
//!
//! Walks along parent slots and sibling lists are bounded by the number of
//! elements: a walk that has not ended after visiting that many elements
//! has met an element twice, and so would go round forever; it then ends
//! without a match.  The same bound limits how deep the descendant searches
//! go.

use vstd::prelude::*;
use crate::dom::{Dom, DomElement};
use crate::selector::{
    AttrOperator, Combinator, ComplexSelector, CompoundSelector, PseudoClass, SAttr, SComplex,
    SCompound, SPseudo, SelectorList, AttributeMatch, name_checked, parse_selector_list,
    parse_selector_list_exec,
};
use crate::strmap::lookup;
use crate::text::{chars_of, eq_chars, eq_ignore_case, eq_ignore_case_exec, tokens, tokens_exec, views};

verus! {

// ----- string tests -----

pub open spec fn is_prefix(p: Seq<char>, s: Seq<char>) -> bool {
    p.len() <= s.len() && s.take(p.len() as int) == p
}

pub open spec fn is_suffix(p: Seq<char>, s: Seq<char>) -> bool {
    p.len() <= s.len() && s.skip(s.len() - p.len()) == p
}

pub open spec fn occurs_at(s: Seq<char>, p: Seq<char>, i: int) -> bool {
    0 <= i && i + p.len() <= s.len() && s.subrange(i, i + p.len()) == p
}

/// `str::contains`.
pub open spec fn contains_seq(s: Seq<char>, p: Seq<char>) -> bool {
    exists|i: int| occurs_at(s, p, i)
}

fn occurs_at_exec(s: &[char], p: &[char], i: usize) -> (b: bool)
    requires
        i + p@.len() <= s@.len(),
    ensures
        b == occurs_at(s@, p@, i as int),
{
    let _n = s.len();
    let mut k: usize = 0;
    while k < p.len()
        invariant
            k <= p@.len(),
            _n == s@.len(),
            i + p@.len() <= s@.len(),
            forall|j: int| 0 <= j < k ==> s@[i + j] == p@[j],
        decreases p@.len() - k,
    {
        if s[i + k] != p[k] {
            assert(s@.subrange(i as int, i + p@.len())[k as int] != p@[k as int]);
            return false;
        }
        k = k + 1;
    }
    assert(s@.subrange(i as int, i + p@.len()) =~= p@);
    true
}

pub fn contains_exec(s: &[char], p: &[char]) -> (b: bool)
    ensures
        b == contains_seq(s@, p@),
{
    if p.len() > s.len() {
        return false;
    }
    let last = s.len() - p.len();
    let mut i: usize = 0;
    loop
        invariant
            p@.len() <= s@.len(),
            last == s@.len() - p@.len(),
            i <= last,
            forall|j: int| 0 <= j < i ==> !occurs_at(s@, p@, j),
        ensures
            forall|j: int| 0 <= j <= last ==> !occurs_at(s@, p@, j),
        decreases last - i,
    {
        if occurs_at_exec(s, p, i) {
            return true;
        }
        if i == last {
            break;
        }
        i = i + 1;
    }
    proof {
        assert forall|j: int| !occurs_at(s@, p@, j) by {
            if 0 <= j <= last {
            }
        }
    }
    false
}

pub fn starts_with_exec(s: &[char], p: &[char]) -> (b: bool)
    ensures
        b == is_prefix(p@, s@),
{
    if p.len() > s.len() {
        return false;
    }
    let r = occurs_at_exec(s, p, 0);
    assert(s@.subrange(0, p@.len() as int) == s@.take(p@.len() as int));
    r
}

pub fn ends_with_exec(s: &[char], p: &[char]) -> (b: bool)
    ensures
        b == is_suffix(p@, s@),
{
    if p.len() > s.len() {
        return false;
    }
    let r = occurs_at_exec(s, p, s.len() - p.len());
    assert(s@.subrange(s@.len() - p@.len(), s@.len() as int) == s@.skip(s@.len() - p@.len()));
    r
}

// ----- structure -----

/// The first position of `x` in `cs`.
pub open spec fn first_pos(cs: Seq<usize>, x: usize) -> int {
    if cs.contains(x) {
        choose|k: int| 0 <= k < cs.len() && cs[k] == x && forall|j: int| 0 <= j < k ==> cs[j] != x
    } else {
        -1
    }
}

pub open spec fn prev_sibling(dom: Dom, id: usize) -> Option<usize> {
    match dom.parent_of(id as int) {
        None => None,
        Some(p) => {
            let cs = dom.children_of(p as int);
            let k = first_pos(cs, id);
            if k >= 1 {
                Some(cs[k - 1])
            } else {
                None
            }
        },
    }
}

pub open spec fn next_sibling(dom: Dom, id: usize) -> Option<usize> {
    match dom.parent_of(id as int) {
        None => None,
        Some(p) => {
            let cs = dom.children_of(p as int);
            let k = first_pos(cs, id);
            if k >= 0 && k + 1 < cs.len() {
                Some(cs[k + 1])
            } else {
                None
            }
        },
    }
}

// ----- matching -----

pub open spec fn matches_attr(e: DomElement, am: SAttr) -> bool {
    match lookup(e.attributes@, am.name) {
        None => false,
        Some(actual) => match am.operator {
            AttrOperator::Exists => true,
            AttrOperator::Equals => am.value == Some(actual),
            AttrOperator::Contains => am.value is Some && contains_seq(actual, am.value->0),
            AttrOperator::StartsWith => am.value is Some && is_prefix(am.value->0, actual),
            AttrOperator::EndsWith => am.value is Some && is_suffix(am.value->0, actual),
        },
    }
}

/// The tag, id, class and attribute tests of a compound (everything but
/// its pseudo-classes).
pub open spec fn matches_simple_parts(e: DomElement, c: SCompound) -> bool {
    &&& (c.tag matches Some(want) ==> eq_ignore_case(e.tag_name@, want))
    &&& (c.id matches Some(want) ==> e.id@ == want)
    &&& forall|k: int| 0 <= k < c.classes.len() ==> tokens(e.class_name@).contains(#[trigger] c.classes[k])
    &&& forall|k: int| 0 <= k < c.attributes.len() ==> matches_attr(e, #[trigger] c.attributes[k])
}

/// Whether the pseudo-classes `ps[i..]` all hold of `id`.  `bound` limits
/// the length of the `:not` arguments that are followed.
pub open spec fn pseudos_hold(dom: Dom, id: usize, ps: Seq<SPseudo>, i: int, bound: nat) -> bool
    decreases bound, 0nat, ps.len() - i, 0int,
{
    if i < 0 || i >= ps.len() {
        true
    } else {
        let here = match ps[i] {
            SPseudo::FirstChild => dom.parent_of(id as int) is Some && prev_sibling(dom, id) is None,
            SPseudo::LastChild => dom.parent_of(id as int) is Some && next_sibling(dom, id) is None,
            SPseudo::OnlyChild => dom.parent_of(id as int) is Some && prev_sibling(dom, id) is None
                && next_sibling(dom, id) is None,
            SPseudo::Checked => dom.valid(id as int) && dom.node(id as int).attributes.get_spec(
                name_checked(),
            ) is Some,
            SPseudo::Not(arg) => if arg.len() < bound {
                !matches_text(dom, id, arg)
            } else {
                false
            },
        };
        here && pseudos_hold(dom, id, ps, i + 1, bound)
    }
}

pub open spec fn matches_compound(dom: Dom, id: usize, c: SCompound, bound: nat) -> bool
    decreases bound, 1nat, 0int, 0int,
{
    dom.valid(id as int) && pseudos_hold(dom, id, c.pseudo_classes, 0, bound)
        && matches_simple_parts(dom.node(id as int), c)
}

/// Compounds `i, i-1, ..., 0` of `sel` matched backwards from `current`:
/// each combinator leads from the element matched so far to one that
/// matches the compound before it.  A descendant (or general sibling)
/// combinator may take any matching ancestor (or earlier sibling), not
/// only the nearest, so the walk tries each in turn.
pub open spec fn walk_back(dom: Dom, sel: SComplex, i: int, current: usize, bound: nat) -> bool
    decreases bound, 4nat, i + 1, dom.len() + 1,
{
    if i < 0 {
        true
    } else if i >= sel.combinators.len() || i >= sel.compounds.len() {
        false
    } else {
        let c = sel.compounds[i];
        match sel.combinators[i] {
            Combinator::Child => match dom.parent_of(current as int) {
                Some(p) => matches_compound(dom, p, c, bound) && walk_back(dom, sel, i - 1, p, bound),
                None => false,
            },
            Combinator::AdjacentSibling => match prev_sibling(dom, current) {
                Some(y) => matches_compound(dom, y, c, bound) && walk_back(dom, sel, i - 1, y, bound),
                None => false,
            },
            Combinator::Descendant => some_ancestor(dom, sel, i, current, dom.len(), bound),
            Combinator::GeneralSibling => some_prev(dom, sel, i, current, dom.len(), bound),
        }
    }
}

/// Whether some element of the parent chain above `x` (within `k` more
/// steps) matches compound `i` of `sel` and the walk goes on from it.
pub open spec fn some_ancestor(dom: Dom, sel: SComplex, i: int, x: usize, k: nat, bound: nat) -> bool
    decreases bound, 4nat, i + 1, k,
{
    if i < 0 || i >= sel.compounds.len() {
        false
    } else {
        match dom.parent_of(x as int) {
            None => false,
            Some(p) => (matches_compound(dom, p, sel.compounds[i], bound) && walk_back(dom, sel, i - 1, p, bound))
                || (k > 0 && some_ancestor(dom, sel, i, p, (k - 1) as nat, bound)),
        }
    }
}

/// Whether some element of the previous-sibling chain before `x` (within
/// `k` more steps) matches compound `i` of `sel` and the walk goes on from
/// it.
pub open spec fn some_prev(dom: Dom, sel: SComplex, i: int, x: usize, k: nat, bound: nat) -> bool
    decreases bound, 4nat, i + 1, k,
{
    if i < 0 || i >= sel.compounds.len() {
        false
    } else {
        match prev_sibling(dom, x) {
            None => false,
            Some(y) => (matches_compound(dom, y, sel.compounds[i], bound) && walk_back(dom, sel, i - 1, y, bound))
                || (k > 0 && some_prev(dom, sel, i, y, (k - 1) as nat, bound)),
        }
    }
}

pub open spec fn matches_complex(dom: Dom, id: usize, sel: SComplex, bound: nat) -> bool
    decreases bound, 5nat, 0int, 0int,
{
    if sel.compounds.len() == 0 {
        false
    } else {
        let last = sel.compounds.len() - 1;
        matches_compound(dom, id, sel.compounds[last], bound) && walk_back(dom, sel, last - 1, id, bound)
    }
}

/// Whether some selector of `list[i..]` matches `id`.
pub open spec fn matches_any(dom: Dom, id: usize, list: Seq<SComplex>, i: int, bound: nat) -> bool
    decreases bound, 6nat, list.len() - i, 0int,
{
    if i < 0 || i >= list.len() {
        false
    } else {
        matches_complex(dom, id, list[i], bound) || matches_any(dom, id, list, i + 1, bound)
    }
}

/// Whether `id` matches the selector list written as `text`.
pub open spec fn matches_text(dom: Dom, id: usize, text: Seq<char>) -> bool
    decreases text.len(), 7nat, 0int, 0int,
{
    matches_any(dom, id, parse_selector_list(text), 0, text.len())
}

} // verus!

verus! {

pub fn first_position(cs: &Vec<usize>, x: usize) -> (r: Option<usize>)
    ensures
        match r {
            Some(k) => first_pos(cs@, x) == k as int && k < cs@.len(),
            None => first_pos(cs@, x) == -1,
        },
{
    let mut k: usize = 0;
    while k < cs.len()
        invariant
            k <= cs@.len(),
            forall|j: int| 0 <= j < k ==> cs@[j] != x,
        decreases cs@.len() - k,
    {
        if cs[k] == x {
            proof {
                assert(cs@.contains(x));
                let w = first_pos(cs@, x);
                assert(0 <= w < cs@.len() && cs@[w] == x && forall|j: int| 0 <= j < w ==> cs@[j] != x);
                if w < k {
                    assert(cs@[w] != x);
                }
                if k < w {
                    assert(cs@[k as int] != x);
                }
            }
            return Some(k);
        }
        k = k + 1;
    }
    proof {
        assert(!cs@.contains(x)) by {
            if cs@.contains(x) {
                let j = choose|j: int| 0 <= j < cs@.len() && cs@[j] == x;
                assert(cs@[j] != x);
            }
        }
    }
    None
}

impl Dom {
    pub fn parent_exec(&self, id: usize) -> (r: Option<usize>)
        ensures
            r == self.parent_of(id as int),
    {
        if id < self.elements.len() {
            self.elements[id].parent
        } else {
            None
        }
    }
}

pub fn prev_sibling_exec(dom: &Dom, id: usize) -> (r: Option<usize>)
    requires
        dom.wf(),
    ensures
        r == prev_sibling(*dom, id),
        r matches Some(y) ==> y < dom.len(),
{
    match dom.parent_exec(id) {
        None => None,
        Some(p) => {
            assert(dom.elements@[id as int].wf(dom.len()));
            let cs = &dom.elements[p].children;
            match first_position(cs, id) {
                Some(k) => {
                    if k >= 1 {
                        assert(dom.elements@[p as int].wf(dom.len()));
                        Some(cs[k - 1])
                    } else {
                        None
                    }
                },
                None => None,
            }
        },
    }
}

pub fn next_sibling_exec(dom: &Dom, id: usize) -> (r: Option<usize>)
    requires
        dom.wf(),
    ensures
        r == next_sibling(*dom, id),
        r matches Some(y) ==> y < dom.len(),
{
    match dom.parent_exec(id) {
        None => None,
        Some(p) => {
            assert(dom.elements@[id as int].wf(dom.len()));
            let cs = &dom.elements[p].children;
            match first_position(cs, id) {
                Some(k) => {
                    let len = cs.len();
                    if k + 1 < len {
                        assert(dom.elements@[p as int].wf(dom.len()));
                        Some(cs[k + 1])
                    } else {
                        None
                    }
                },
                None => None,
            }
        },
    }
}

fn matches_attr_exec(e: &DomElement, am: &AttributeMatch) -> (b: bool)
    requires
        e.attributes.wf(),
    ensures
        b == matches_attr(*e, am@),
{
    let name = crate::text::string_of(&am.name);
    match e.attributes.get(name.as_str()) {
        None => false,
        Some(actual_s) => {
            let actual = chars_of(actual_s.as_str());
            match am.operator {
                AttrOperator::Exists => true,
                AttrOperator::Equals => match &am.value {
                    Some(w) => eq_chars(&actual, w),
                    None => false,
                },
                AttrOperator::Contains => match &am.value {
                    Some(w) => contains_exec(&actual, w),
                    None => false,
                },
                AttrOperator::StartsWith => match &am.value {
                    Some(w) => starts_with_exec(&actual, w),
                    None => false,
                },
                AttrOperator::EndsWith => match &am.value {
                    Some(w) => ends_with_exec(&actual, w),
                    None => false,
                },
            }
        },
    }
}

fn has_token(toks: &Vec<Vec<char>>, want: &Vec<char>) -> (b: bool)
    ensures
        b == views(toks@).contains(want@),
{
    let mut k: usize = 0;
    while k < toks.len()
        invariant
            k <= toks@.len(),
            forall|j: int| 0 <= j < k ==> views(toks@)[j] != want@,
        decreases toks@.len() - k,
    {
        if eq_chars(&toks[k], want) {
            assert(views(toks@)[k as int] == want@);
            return true;
        }
        k = k + 1;
    }
    proof {
        if views(toks@).contains(want@) {
            let j = choose|j: int| 0 <= j < views(toks@).len() && views(toks@)[j] == want@;
            assert(views(toks@)[j] != want@);
        }
    }
    false
}

fn matches_simple_parts_exec(e: &DomElement, c: &CompoundSelector) -> (b: bool)
    requires
        e.attributes.wf(),
    ensures
        b == matches_simple_parts(*e, c@),
{
    let tag_ok = match &c.tag {
        Some(want) => {
            let t = chars_of(e.tag_name.as_str());
            eq_ignore_case_exec(&t, want)
        },
        None => true,
    };
    if !tag_ok {
        return false;
    }
    let id_ok = match &c.id {
        Some(want) => {
            let t = chars_of(e.id.as_str());
            eq_chars(&t, want)
        },
        None => true,
    };
    if !id_ok {
        return false;
    }
    let class_chars = chars_of(e.class_name.as_str());
    let toks = tokens_exec(&class_chars);
    let mut k: usize = 0;
    while k < c.classes.len()
        invariant
            k <= c.classes@.len(),
            views(toks@) == tokens(e.class_name@),
            forall|j: int| 0 <= j < k ==> tokens(e.class_name@).contains(#[trigger] c@.classes[j]),
        decreases c.classes@.len() - k,
    {
        if !has_token(&toks, &c.classes[k]) {
            assert(c@.classes[k as int] == c.classes@[k as int]@);
            return false;
        }
        assert(c@.classes[k as int] == c.classes@[k as int]@);
        k = k + 1;
    }
    let mut a: usize = 0;
    while a < c.attributes.len()
        invariant
            a <= c.attributes@.len(),
            e.attributes.wf(),
            forall|j: int| 0 <= j < a ==> matches_attr(*e, #[trigger] c@.attributes[j]),
        decreases c.attributes@.len() - a,
    {
        let ok = matches_attr_exec(e, &c.attributes[a]);
        assert(c@.attributes[a as int] == c.attributes@[a as int]@);
        if !ok {
            return false;
        }
        a = a + 1;
    }
    true
}

fn has_checked_attribute(dom: &Dom, id: usize) -> (b: bool)
    requires
        dom.wf(),
        id < dom.len(),
    ensures
        b == dom.node(id as int).attributes.get_spec(name_checked()) is Some,
{
    assert(dom.elements@[id as int].wf(dom.len()));
    let key = "checked";
    proof {
        reveal_strlit("checked");
    }
    assert(key@ =~= name_checked());
    dom.elements[id].attributes.get(key).is_some()
}

fn pseudos_hold_exec(dom: &Dom, id: usize, ps: &Vec<PseudoClass>, bound: usize) -> (b: bool)
    requires
        dom.wf(),
    ensures
        b == pseudos_hold(*dom, id, ps@.map_values(|p: PseudoClass| p@), 0, bound as nat),
    decreases bound, 0nat, ps@.len(), 0int,
{
    let ghost psv = ps@.map_values(|p: PseudoClass| p@);
    let mut i: usize = ps.len();
    // Evaluate from the last pseudo-class backwards; every test is pure, so
    // the conjunction is the same in either order.
    let mut acc = true;
    while i > 0
        invariant
            i <= ps@.len(),
            psv == ps@.map_values(|p: PseudoClass| p@),
            dom.wf(),
            acc == pseudos_hold(*dom, id, psv, i as int, bound as nat),
        decreases i,
    {
        i = i - 1;
        let here = match &ps[i] {
            PseudoClass::FirstChild => dom.parent_exec(id).is_some() && prev_sibling_exec(dom, id).is_none(),
            PseudoClass::LastChild => dom.parent_exec(id).is_some() && next_sibling_exec(dom, id).is_none(),
            PseudoClass::OnlyChild => dom.parent_exec(id).is_some() && prev_sibling_exec(dom, id).is_none()
                && next_sibling_exec(dom, id).is_none(),
            PseudoClass::Checked => id < dom.elements.len() && has_checked_attribute(dom, id),
            PseudoClass::Not(arg) => if arg.len() < bound {
                !matches_text_exec(dom, id, arg)
            } else {
                false
            },
        };
        assert(psv[i as int] == ps@[i as int]@);
        acc = here && acc;
    }
    acc
}

pub fn matches_compound_exec(dom: &Dom, id: usize, c: &CompoundSelector, bound: usize) -> (b: bool)
    requires
        dom.wf(),
    ensures
        b == matches_compound(*dom, id, c@, bound as nat),
    decreases bound, 1nat, 0int, 0int,
{
    if id >= dom.elements.len() {
        return false;
    }
    if !pseudos_hold_exec(dom, id, &c.pseudo_classes, bound) {
        return false;
    }
    assert(dom.elements@[id as int].wf(dom.len()));
    matches_simple_parts_exec(&dom.elements[id], c)
}

fn walk_back_exec(dom: &Dom, sel: &ComplexSelector, n: usize, current: usize, bound: usize) -> (b: bool)
    requires
        dom.wf(),
    ensures
        b == walk_back(*dom, sel@, n - 1, current, bound as nat),
    decreases bound, 4nat, n, dom.elements@.len() + 1,
{
    if n == 0 {
        return true;
    }
    let i = n - 1;
    if i >= sel.combinators.len() || i >= sel.compounds.len() {
        return false;
    }
    assert(sel@.compounds[i as int] == sel.compounds@[i as int]@);
    assert(sel@.combinators[i as int] == sel.combinators@[i as int]);
    let c = &sel.compounds[i];
    match sel.combinators[i] {
        Combinator::Child => match dom.parent_exec(current) {
            Some(p) => matches_compound_exec(dom, p, c, bound) && walk_back_exec(dom, sel, i, p, bound),
            None => false,
        },
        Combinator::AdjacentSibling => match prev_sibling_exec(dom, current) {
            Some(y) => matches_compound_exec(dom, y, c, bound) && walk_back_exec(dom, sel, i, y, bound),
            None => false,
        },
        Combinator::Descendant => some_ancestor_exec(dom, sel, n, current, dom.elements.len(), bound),
        Combinator::GeneralSibling => some_prev_exec(dom, sel, n, current, dom.elements.len(), bound),
    }
}

fn some_ancestor_exec(dom: &Dom, sel: &ComplexSelector, n: usize, x: usize, k: usize, bound: usize) -> (b: bool)
    requires
        dom.wf(),
    ensures
        b == some_ancestor(*dom, sel@, n - 1, x, k as nat, bound as nat),
    decreases bound, 4nat, n, k,
{
    if n == 0 || n - 1 >= sel.compounds.len() {
        return false;
    }
    let i = n - 1;
    assert(sel@.compounds[i as int] == sel.compounds@[i as int]@);
    match dom.parent_exec(x) {
        None => false,
        Some(p) => {
            if matches_compound_exec(dom, p, &sel.compounds[i], bound) && walk_back_exec(dom, sel, i, p, bound) {
                true
            } else if k == 0 {
                false
            } else {
                some_ancestor_exec(dom, sel, n, p, k - 1, bound)
            }
        },
    }
}

fn some_prev_exec(dom: &Dom, sel: &ComplexSelector, n: usize, x: usize, k: usize, bound: usize) -> (b: bool)
    requires
        dom.wf(),
    ensures
        b == some_prev(*dom, sel@, n - 1, x, k as nat, bound as nat),
    decreases bound, 4nat, n, k,
{
    if n == 0 || n - 1 >= sel.compounds.len() {
        return false;
    }
    let i = n - 1;
    assert(sel@.compounds[i as int] == sel.compounds@[i as int]@);
    match prev_sibling_exec(dom, x) {
        None => false,
        Some(y) => {
            if matches_compound_exec(dom, y, &sel.compounds[i], bound) && walk_back_exec(dom, sel, i, y, bound) {
                true
            } else if k == 0 {
                false
            } else {
                some_prev_exec(dom, sel, n, y, k - 1, bound)
            }
        },
    }
}

pub fn matches_complex_exec(dom: &Dom, id: usize, sel: &ComplexSelector, bound: usize) -> (b: bool)
    requires
        dom.wf(),
    ensures
        b == matches_complex(*dom, id, sel@, bound as nat),
    decreases bound, 5nat, 0int, 0int,
{
    let n = sel.compounds.len();
    if n == 0 {
        return false;
    }
    let last = n - 1;
    assert(sel@.compounds[last as int] == sel.compounds@[last as int]@);
    matches_compound_exec(dom, id, &sel.compounds[last], bound) && walk_back_exec(dom, sel, last, id, bound)
}

fn matches_any_exec(dom: &Dom, id: usize, list: &SelectorList, bound: usize) -> (b: bool)
    requires
        dom.wf(),
    ensures
        b == matches_any(*dom, id, list@, 0, bound as nat),
    decreases bound, 6nat, list@.len(), 0int,
{
    let mut i: usize = list.selectors.len();
    let mut acc = false;
    while i > 0
        invariant
            i <= list@.len(),
            dom.wf(),
            acc == matches_any(*dom, id, list@, i as int, bound as nat),
        decreases i,
    {
        i = i - 1;
        assert(list@[i as int] == list.selectors@[i as int]@);
        let here = matches_complex_exec(dom, id, &list.selectors[i], bound);
        acc = here || acc;
    }
    acc
}

/// Whether element `id` matches the selector list `text`.
pub fn matches_text_exec(dom: &Dom, id: usize, text: &[char]) -> (b: bool)
    requires
        dom.wf(),
    ensures
        b == matches_text(*dom, id, text@),
    decreases text@.len(), 7nat, 0int, 0int,
{
    let list = parse_selector_list_exec(text);
    matches_any_exec(dom, id, &list, text.len())
}

} // verus!

verus! {

/// Depth-first, pre-order search for the first element of `ids[i..]` or of
/// their descendants (at most `depth` levels further down) that matches.
pub open spec fn first_in(
    dom: Dom,
    ids: Seq<usize>,
    i: int,
    list: Seq<SComplex>,
    bound: nat,
    depth: nat,
) -> Option<usize>
    decreases depth, ids.len() - i,
{
    if i < 0 || i >= ids.len() {
        None
    } else {
        let c = ids[i];
        if matches_any(dom, c, list, 0, bound) {
            Some(c)
        } else {
            let sub = if depth == 0 {
                None
            } else {
                first_in(dom, dom.children_of(c as int), 0, list, bound, (depth - 1) as nat)
            };
            match sub {
                Some(x) => Some(x),
                None => first_in(dom, ids, i + 1, list, bound, depth),
            }
        }
    }
}

/// Every element of `ids[i..]` and of their descendants (at most `depth`
/// levels further down) that matches, in depth-first pre-order.
pub open spec fn all_in(
    dom: Dom,
    ids: Seq<usize>,
    i: int,
    list: Seq<SComplex>,
    bound: nat,
    depth: nat,
) -> Seq<usize>
    decreases depth, ids.len() - i,
{
    if i < 0 || i >= ids.len() {
        Seq::empty()
    } else {
        let c = ids[i];
        let here = if matches_any(dom, c, list, 0, bound) {
            seq![c]
        } else {
            Seq::empty()
        };
        let sub = if depth == 0 {
            Seq::empty()
        } else {
            all_in(dom, dom.children_of(c as int), 0, list, bound, (depth - 1) as nat)
        };
        here + sub + all_in(dom, ids, i + 1, list, bound, depth)
    }
}

/// The first descendant of `root` matching `list` (`querySelector`).
pub open spec fn first_descendant(dom: Dom, root: usize, list: Seq<SComplex>, bound: nat) -> Option<usize> {
    first_in(dom, dom.children_of(root as int), 0, list, bound, dom.len())
}

/// Every descendant of `root` matching `list` (`querySelectorAll`).
pub open spec fn all_descendants(dom: Dom, root: usize, list: Seq<SComplex>, bound: nat) -> Seq<usize> {
    all_in(dom, dom.children_of(root as int), 0, list, bound, dom.len())
}

/// `x` or the first element of its parent chain (within `k` more steps)
/// matching `list`.
pub open spec fn closest_from(dom: Dom, x: usize, list: Seq<SComplex>, bound: nat, k: nat) -> Option<usize>
    decreases k,
{
    if matches_any(dom, x, list, 0, bound) {
        Some(x)
    } else {
        match dom.parent_of(x as int) {
            None => None,
            Some(p) => if k == 0 {
                None
            } else {
                closest_from(dom, p, list, bound, (k - 1) as nat)
            },
        }
    }
}

/// `querySelector` finds the first of what `querySelectorAll` finds, and
/// nothing when that is empty.
pub proof fn law_first_is_head_of_all(
    dom: Dom,
    ids: Seq<usize>,
    i: int,
    list: Seq<SComplex>,
    bound: nat,
    depth: nat,
)
    ensures
        first_in(dom, ids, i, list, bound, depth) == (if all_in(dom, ids, i, list, bound, depth).len() > 0 {
            Some(all_in(dom, ids, i, list, bound, depth)[0])
        } else {
            None
        }),
    decreases depth, ids.len() - i,
{
    if 0 <= i < ids.len() {
        let c = ids[i];
        if depth > 0 {
            law_first_is_head_of_all(dom, dom.children_of(c as int), 0, list, bound, (depth - 1) as nat);
        }
        law_first_is_head_of_all(dom, ids, i + 1, list, bound, depth);
    }
}

fn first_in_exec(
    dom: &Dom,
    ids: &Vec<usize>,
    list: &SelectorList,
    bound: usize,
    depth: usize,
) -> (r: Option<usize>)
    requires
        dom.wf(),
        forall|j: int| 0 <= j < ids@.len() ==> #[trigger] ids@[j] < dom.len(),
    ensures
        r == first_in(*dom, ids@, 0, list@, bound as nat, depth as nat),
    decreases depth,
{
    let mut i: usize = 0;
    while i < ids.len()
        invariant
            i <= ids@.len(),
            dom.wf(),
            forall|j: int| 0 <= j < ids@.len() ==> #[trigger] ids@[j] < dom.len(),
            first_in(*dom, ids@, i as int, list@, bound as nat, depth as nat) == first_in(
                *dom,
                ids@,
                0,
                list@,
                bound as nat,
                depth as nat,
            ),
        decreases ids@.len() - i,
    {
        let c = ids[i];
        if matches_any_exec(dom, c, list, bound) {
            return Some(c);
        }
        if depth > 0 {
            assert(dom.elements@[c as int].wf(dom.len()));
            let sub = first_in_exec(dom, &dom.elements[c].children, list, bound, depth - 1);
            if sub.is_some() {
                return sub;
            }
        }
        i = i + 1;
    }
    None
}

pub(crate) fn all_in_exec(
    dom: &Dom,
    ids: &Vec<usize>,
    list: &SelectorList,
    bound: usize,
    depth: usize,
) -> (r: Vec<usize>)
    requires
        dom.wf(),
        forall|j: int| 0 <= j < ids@.len() ==> #[trigger] ids@[j] < dom.len(),
    ensures
        r@ == all_in(*dom, ids@, 0, list@, bound as nat, depth as nat),
        forall|j: int| 0 <= j < r@.len() ==> #[trigger] r@[j] < dom.len(),
    decreases depth,
{
    let mut i: usize = 0;
    let mut out: Vec<usize> = Vec::new();
    let ghost total = all_in(*dom, ids@, 0, list@, bound as nat, depth as nat);
    while i < ids.len()
        invariant
            i <= ids@.len(),
            dom.wf(),
            forall|j: int| 0 <= j < ids@.len() ==> #[trigger] ids@[j] < dom.len(),
            forall|j: int| 0 <= j < out@.len() ==> #[trigger] out@[j] < dom.len(),
            total == all_in(*dom, ids@, 0, list@, bound as nat, depth as nat),
            out@ + all_in(*dom, ids@, i as int, list@, bound as nat, depth as nat) == total,
        decreases ids@.len() - i,
    {
        let c = ids[i];
        let ghost before = out@;
        let here = matches_any_exec(dom, c, list, bound);
        if here {
            out.push(c);
        }
        let ghost mid = out@;
        if depth > 0 {
            assert(dom.elements@[c as int].wf(dom.len()));
            let sub = all_in_exec(dom, &dom.elements[c].children, list, bound, depth - 1);
            let mut k: usize = 0;
            while k < sub.len()
                invariant
                    k <= sub@.len(),
                    out@ == mid + sub@.take(k as int),
                    forall|j: int| 0 <= j < sub@.len() ==> #[trigger] sub@[j] < dom.len(),
                    forall|j: int| 0 <= j < mid.len() ==> #[trigger] mid[j] < dom.len(),
                decreases sub@.len() - k,
            {
                out.push(sub[k]);
                assert(sub@.take(k + 1) == sub@.take(k as int).push(sub@[k as int]));
                k = k + 1;
            }
            assert(sub@.take(sub@.len() as int) == sub@);
        }
        proof {
            let h: Seq<usize> = if here { seq![c] } else { Seq::empty() };
            let s: Seq<usize> = if depth == 0 {
                Seq::empty()
            } else {
                all_in(*dom, dom.children_of(c as int), 0, list@, bound as nat, (depth - 1) as nat)
            };
            assert(mid == before + h);
            assert(out@ == before + h + s);
            let rest = all_in(*dom, ids@, i + 1, list@, bound as nat, depth as nat);
            assert(all_in(*dom, ids@, i as int, list@, bound as nat, depth as nat) == h + s + rest);
            assert(before + (h + s + rest) == (before + h + s) + rest);
        }
        i = i + 1;
    }
    out
}

fn closest_exec(dom: &Dom, x: usize, list: &SelectorList, bound: usize, k: usize) -> (r: Option<usize>)
    requires
        dom.wf(),
    ensures
        r == closest_from(*dom, x, list@, bound as nat, k as nat),
{
    let mut cur = x;
    let mut fuel = k;
    loop
        invariant
            dom.wf(),
            fuel <= k,
            closest_from(*dom, cur, list@, bound as nat, fuel as nat) == closest_from(
                *dom,
                x,
                list@,
                bound as nat,
                k as nat,
            ),
        decreases fuel,
    {
        if matches_any_exec(dom, cur, list, bound) {
            return Some(cur);
        }
        match dom.parent_exec(cur) {
            None => return None,
            Some(p) => {
                if fuel == 0 {
                    return None;
                }
                cur = p;
                fuel = fuel - 1;
            },
        }
    }
}

impl Dom {
    /// `element.querySelector(selector)`: the first descendant of `root`, in
    /// depth-first pre-order, that matches the selector list.
    pub fn query_selector(&self, root: usize, selector: &str) -> (r: Option<usize>)
        requires
            self.wf(),
            root < self.len(),
        ensures
            r == first_descendant(*self, root, parse_selector_list(selector@), selector@.len()),
    {
        let text = chars_of(selector);
        let list = parse_selector_list_exec(&text);
        assert(self.elements@[root as int].wf(self.len()));
        first_in_exec(self, &self.elements[root].children, &list, text.len(), self.elements.len())
    }

    /// `element.querySelectorAll(selector)`: every descendant of `root`
    /// that matches, in depth-first pre-order.
    pub fn query_selector_all(&self, root: usize, selector: &str) -> (r: Vec<usize>)
        requires
            self.wf(),
            root < self.len(),
        ensures
            r@ == all_descendants(*self, root, parse_selector_list(selector@), selector@.len()),
            forall|j: int| 0 <= j < r@.len() ==> #[trigger] r@[j] < self.len(),
    {
        let text = chars_of(selector);
        let list = parse_selector_list_exec(&text);
        assert(self.elements@[root as int].wf(self.len()));
        all_in_exec(self, &self.elements[root].children, &list, text.len(), self.elements.len())
    }

    /// `element.matches(selector)`: whether `id` itself matches.
    pub fn matches(&self, id: usize, selector: &str) -> (b: bool)
        requires
            self.wf(),
        ensures
            b == matches_text(*self, id, selector@),
    {
        let text = chars_of(selector);
        matches_text_exec(self, id, &text)
    }

    /// `element.closest(selector)`: `id` itself or its nearest ancestor
    /// (through the parent slots) that matches.
    pub fn closest(&self, id: usize, selector: &str) -> (r: Option<usize>)
        requires
            self.wf(),
        ensures
            r == closest_from(*self, id, parse_selector_list(selector@), selector@.len(), self.len()),
    {
        let text = chars_of(selector);
        let list = parse_selector_list_exec(&text);
        closest_exec(self, id, &list, text.len(), self.elements.len())
    }
}

} // verus!

verus! {

/// The one-compound selector `#id`, as `getElementById` builds it.
pub open spec fn id_selector(id: Seq<char>) -> Seq<SComplex> {
    seq![
        SComplex {
            compounds: seq![SCompound { id: Some(id), ..crate::selector::empty_compound() }],
            combinators: Seq::empty(),
        },
    ]
}

/// `.a.b.c` for the classes `a b c`.
pub open spec fn dotted(classes: Seq<Seq<char>>) -> Seq<char>
    decreases classes.len(),
{
    if classes.len() == 0 {
        Seq::empty()
    } else {
        dotted(classes.drop_last()) + seq!['.'] + classes.last()
    }
}

/// The selector `getElementsByClassName(text)` searches with, or `None`
/// when `text` names no class.
pub open spec fn class_selector(text: Seq<char>) -> Option<Seq<char>> {
    let ws = crate::text::words(text);
    if ws.len() == 0 {
        None
    } else {
        Some(dotted(ws))
    }
}

fn class_names_to_selector_string(text: &[char]) -> (r: Option<Vec<char>>)
    ensures
        match r {
            Some(v) => class_selector(text@) == Some(v@),
            None => class_selector(text@) is None,
        },
{
    let ws = crate::text::words_exec(text);
    if ws.len() == 0 {
        return None;
    }
    let mut out: Vec<char> = Vec::new();
    let mut i: usize = 0;
    while i < ws.len()
        invariant
            i <= ws@.len(),
            out@ == dotted(views(ws@).take(i as int)),
        decreases ws@.len() - i,
    {
        out.push('.');
        crate::text::append_chars(&mut out, &ws[i]);
        proof {
            let t = views(ws@).take(i + 1);
            assert(t.drop_last() == views(ws@).take(i as int));
            assert(t.last() == ws@[i as int]@);
        }
        i = i + 1;
    }
    assert(views(ws@).take(ws@.len() as int) == views(ws@));
    Some(out)
}

impl Dom {
    /// `getElementById(id)` below `root`: the first descendant, in
    /// depth-first pre-order, whose `id` equals `id`; none for an empty
    /// `id`, since no element has the empty string as its id.
    pub fn find_by_id(&self, root: usize, id: &str) -> (r: Option<usize>)
        requires
            self.wf(),
            root < self.len(),
        ensures
            id@.len() == 0 ==> r is None,
            id@.len() > 0 ==> r == first_descendant(*self, root, id_selector(id@), 0),
    {
        let id_chars = chars_of(id);
        if id_chars.len() == 0 {
            return None;
        }
        let mut compound = crate::selector::new_compound();
        compound.id = Some(chars_of(id));
        let mut compounds: Vec<CompoundSelector> = Vec::new();
        let ghost cv = compound@;
        compounds.push(compound);
        let complex = ComplexSelector { compounds, combinators: Vec::new() };
        let mut selectors: Vec<ComplexSelector> = Vec::new();
        let ghost xv = complex@;
        selectors.push(complex);
        let list = SelectorList { selectors };
        assert(complex@.compounds =~= seq![cv]);
        assert(complex@.combinators =~= Seq::<Combinator>::empty());
        assert(list@ =~= seq![xv]);
        assert(list@ == id_selector(id@));
        assert(self.elements@[root as int].wf(self.len()));
        first_in_exec(self, &self.elements[root].children, &list, 0, self.elements.len())
    }

    /// `getElementsByTagName(name)` below `root`: the descendants matching
    /// `name` read as a selector (so `*` matches every element); none for
    /// the empty name.
    pub fn get_elements_by_tag_name(&self, root: usize, name: &str) -> (r: Vec<usize>)
        requires
            self.wf(),
            root < self.len(),
        ensures
            name@.len() == 0 ==> r@ == Seq::<usize>::empty(),
            name@.len() > 0 ==> r@ == all_descendants(*self, root, parse_selector_list(name@), name@.len()),
    {
        let text = chars_of(name);
        if text.len() == 0 {
            return Vec::new();
        }
        self.query_selector_all(root, name)
    }

    /// `getElementsByClassName(names)` below `root`: the descendants
    /// carrying every whitespace-separated class of `names`; none when
    /// `names` holds no class.
    pub fn get_elements_by_class_name(&self, root: usize, names: &str) -> (r: Vec<usize>)
        requires
            self.wf(),
            root < self.len(),
        ensures
            match class_selector(names@) {
                None => r@ == Seq::<usize>::empty(),
                Some(sel) => r@ == all_descendants(*self, root, parse_selector_list(sel), sel.len()),
            },
    {
        let text = chars_of(names);
        match class_names_to_selector_string(&text) {
            None => Vec::new(),
            Some(sel) => {
                let list = parse_selector_list_exec(&sel);
                assert(self.elements@[root as int].wf(self.len()));
                all_in_exec(self, &self.elements[root].children, &list, sel.len(), self.elements.len())
            },
        }
    }
}

} // verus!
