//! The CSS selector subset that `querySelector`, `querySelectorAll`,
//! `matches` and `closest` accept, and its parser.
//!
//! A selector list is a comma-separated list of complex selectors.  A
//! complex selector is a chain of compounds joined by combinators:
//! whitespace (descendant), `>` (child), `+` (adjacent sibling) and `~`
//! (general sibling).  A compound holds an optional tag, `*`, an `#id`,
//! any number of `.class` parts, `[attr]`, `[attr=v]`, `[attr^=v]`,
//! `[attr$=v]` and `[attr*=v]` tests, and the pseudo-classes
//! `:first-child`, `:last-child`, `:only-child`, `:checked` and `:not(list)`.
//!
//! The parser never fails: text it does not understand ends the compound
//! (or the complex selector) where it stands.  A `:not(...)` keeps its
//! argument text; matching parses it on demand.

use vstd::prelude::*;
use crate::text::{
    chars_of, is_scan_space, is_scan_space_exec, lower_chars, lower_seq, slice_range, split,
    split_exec, trim, trim_exec, views,
};

verus! {

#[derive(Clone, Copy, PartialEq, Eq, Structural, Debug)]
pub enum Combinator {
    Descendant,
    Child,
    AdjacentSibling,
    GeneralSibling,
}

#[derive(Clone, Copy, PartialEq, Eq, Structural, Debug)]
pub enum AttrOperator {
    Exists,
    Equals,
    Contains,
    StartsWith,
    EndsWith,
}

/// `[name op value]`.
pub struct AttributeMatch {
    pub name: Vec<char>,
    pub operator: AttrOperator,
    pub value: Option<Vec<char>>,
}

pub enum PseudoClass {
    FirstChild,
    LastChild,
    OnlyChild,
    /// `:checked`: the `checked` attribute is present.
    Checked,
    /// `:not(text)`, holding the argument text.
    Not(Vec<char>),
}

pub struct CompoundSelector {
    pub universal: bool,
    pub tag: Option<Vec<char>>,
    pub id: Option<Vec<char>>,
    pub classes: Vec<Vec<char>>,
    pub attributes: Vec<AttributeMatch>,
    pub pseudo_classes: Vec<PseudoClass>,
}

pub struct ComplexSelector {
    pub compounds: Vec<CompoundSelector>,
    pub combinators: Vec<Combinator>,
}

pub struct SelectorList {
    pub selectors: Vec<ComplexSelector>,
}

// ----- mathematical model -----

pub struct SAttr {
    pub name: Seq<char>,
    pub operator: AttrOperator,
    pub value: Option<Seq<char>>,
}

pub enum SPseudo {
    FirstChild,
    LastChild,
    OnlyChild,
    Checked,
    Not(Seq<char>),
}

pub struct SCompound {
    pub universal: bool,
    pub tag: Option<Seq<char>>,
    pub id: Option<Seq<char>>,
    pub classes: Seq<Seq<char>>,
    pub attributes: Seq<SAttr>,
    pub pseudo_classes: Seq<SPseudo>,
}

pub struct SComplex {
    pub compounds: Seq<SCompound>,
    pub combinators: Seq<Combinator>,
}

pub open spec fn opt_view(o: Option<Vec<char>>) -> Option<Seq<char>> {
    match o {
        Some(v) => Some(v@),
        None => None,
    }
}

impl View for AttributeMatch {
    type V = SAttr;

    open spec fn view(&self) -> SAttr {
        SAttr { name: self.name@, operator: self.operator, value: opt_view(self.value) }
    }
}

impl View for PseudoClass {
    type V = SPseudo;

    open spec fn view(&self) -> SPseudo {
        match self {
            PseudoClass::FirstChild => SPseudo::FirstChild,
            PseudoClass::LastChild => SPseudo::LastChild,
            PseudoClass::OnlyChild => SPseudo::OnlyChild,
            PseudoClass::Checked => SPseudo::Checked,
            PseudoClass::Not(t) => SPseudo::Not(t@),
        }
    }
}

impl View for CompoundSelector {
    type V = SCompound;

    open spec fn view(&self) -> SCompound {
        SCompound {
            universal: self.universal,
            tag: opt_view(self.tag),
            id: opt_view(self.id),
            classes: views(self.classes@),
            attributes: self.attributes@.map_values(|a: AttributeMatch| a@),
            pseudo_classes: self.pseudo_classes@.map_values(|p: PseudoClass| p@),
        }
    }
}

impl View for ComplexSelector {
    type V = SComplex;

    open spec fn view(&self) -> SComplex {
        SComplex {
            compounds: self.compounds@.map_values(|c: CompoundSelector| c@),
            combinators: self.combinators@,
        }
    }
}

impl View for SelectorList {
    type V = Seq<SComplex>;

    open spec fn view(&self) -> Seq<SComplex> {
        self.selectors@.map_values(|c: ComplexSelector| c@)
    }
}

pub open spec fn empty_compound() -> SCompound {
    SCompound {
        universal: false,
        tag: None,
        id: None,
        classes: Seq::empty(),
        attributes: Seq::empty(),
        pseudo_classes: Seq::empty(),
    }
}

// ----- the scanner -----

/// ASCII letters and digits, `-` and `_`.
pub open spec fn is_ident(c: char) -> bool {
    ('a' <= c && c <= 'z') || ('A' <= c && c <= 'Z') || ('0' <= c && c <= '9') || c == '-'
        || c == '_'
}

pub open spec fn at(s: Seq<char>, p: int) -> Option<char> {
    if 0 <= p < s.len() {
        Some(s[p])
    } else {
        None
    }
}

/// The first position at or after `p` that is not a scan space.
pub open spec fn skip_ws(s: Seq<char>, p: int) -> int
    decreases s.len() - p,
{
    if 0 <= p < s.len() && is_scan_space(s[p]) {
        skip_ws(s, p + 1)
    } else if 0 <= p < s.len() {
        p
    } else {
        s.len() as int
    }
}

/// The end of the identifier starting at `p`.
pub open spec fn scan_ident(s: Seq<char>, p: int) -> int
    decreases s.len() - p,
{
    if 0 <= p < s.len() && is_ident(s[p]) {
        scan_ident(s, p + 1)
    } else if 0 <= p < s.len() {
        p
    } else {
        s.len() as int
    }
}

/// `s[a..e]`, or empty when the range is not inside `s`.
pub open spec fn ident_string(s: Seq<char>, a: int, e: int) -> Seq<char> {
    if 0 <= a <= e <= s.len() {
        s.subrange(a, e)
    } else {
        Seq::empty()
    }
}

/// The position of the `)` that closes a parenthesis opened before `p`,
/// with `depth` parentheses open; the length of `s` when there is none.
pub open spec fn find_close(s: Seq<char>, p: int, depth: nat) -> int
    decreases s.len() - p,
{
    if !(0 <= p < s.len()) {
        s.len() as int
    } else if s[p] == '(' {
        find_close(s, p + 1, depth + 1)
    } else if s[p] == ')' && depth == 1 {
        p
    } else if s[p] == ')' {
        find_close(s, p + 1, (depth - 1) as nat)
    } else {
        find_close(s, p + 1, depth)
    }
}

/// The position of the first `q` at or after `p`, or the length.
pub open spec fn quote_end(s: Seq<char>, p: int, q: char) -> int
    decreases s.len() - p,
{
    if !(0 <= p < s.len()) {
        s.len() as int
    } else if s[p] == q {
        p
    } else {
        quote_end(s, p + 1, q)
    }
}

pub open spec fn parse_quoted(s: Seq<char>, p: int, q: char) -> (Seq<char>, int) {
    let end = quote_end(s, p, q);
    (ident_string(s, p, end), if end < s.len() { end + 1 } else { end })
}

pub open spec fn parse_attribute_value(s: Seq<char>, p: int) -> (Seq<char>, int) {
    match at(s, p) {
        Some(c) => if c == '"' {
            parse_quoted(s, p + 1, '"')
        } else if c == '\'' {
            parse_quoted(s, p + 1, '\'')
        } else {
            let e = scan_ident(s, p);
            (ident_string(s, p, e), e)
        },
        None => (Seq::empty(), p),
    }
}

pub open spec fn parse_attribute_with_operator(
    s: Seq<char>,
    p: int,
    name: Seq<char>,
    op: AttrOperator,
) -> (SAttr, int) {
    let w = skip_ws(s, p);
    let (value, after_value) = parse_attribute_value(s, w);
    let q = skip_ws(s, after_value);
    let after = if at(s, q) == Some(']') {
        q + 1
    } else {
        after_value
    };
    (SAttr { name, operator: op, value: Some(value) }, after)
}

/// `[...]`, with `p` just past the `[`.
pub open spec fn parse_attribute_match(s: Seq<char>, p: int) -> (SAttr, int) {
    let ns = skip_ws(s, p);
    let ne = scan_ident(s, ns);
    let name = ident_string(s, ns, ne);
    let an = skip_ws(s, ne);
    match at(s, an) {
        Some(c) => if c == ']' {
            (SAttr { name, operator: AttrOperator::Exists, value: None }, an + 1)
        } else if c == '=' {
            parse_attribute_with_operator(s, an + 1, name, AttrOperator::Equals)
        } else if c == '*' || c == '^' || c == '$' {
            let op = if c == '*' {
                AttrOperator::Contains
            } else if c == '^' {
                AttrOperator::StartsWith
            } else {
                AttrOperator::EndsWith
            };
            let after_op = if at(s, an + 1) == Some('=') {
                an + 2
            } else {
                an + 1
            };
            parse_attribute_with_operator(s, after_op, name, op)
        } else {
            (SAttr { name, operator: AttrOperator::Exists, value: None }, an)
        },
        None => (SAttr { name, operator: AttrOperator::Exists, value: None }, an),
    }
}

pub open spec fn name_not() -> Seq<char> {
    seq!['n', 'o', 't']
}

pub open spec fn name_first_child() -> Seq<char> {
    seq!['f', 'i', 'r', 's', 't', '-', 'c', 'h', 'i', 'l', 'd']
}

pub open spec fn name_last_child() -> Seq<char> {
    seq!['l', 'a', 's', 't', '-', 'c', 'h', 'i', 'l', 'd']
}

pub open spec fn name_only_child() -> Seq<char> {
    seq!['o', 'n', 'l', 'y', '-', 'c', 'h', 'i', 'l', 'd']
}

pub open spec fn name_checked() -> Seq<char> {
    seq!['c', 'h', 'e', 'c', 'k', 'e', 'd']
}

/// A pseudo-class, with `p` at its `:`; unknown names give `None`.
pub open spec fn parse_pseudo_class(s: Seq<char>, p: int) -> (Option<SPseudo>, int) {
    let ie = scan_ident(s, p + 1);
    let name = lower_seq(ident_string(s, p + 1, ie));
    if at(s, ie) == Some('(') {
        let arg_start = ie + 1;
        let close = find_close(s, arg_start, 1);
        let arg = ident_string(s, arg_start, close);
        let after = if at(s, close) == Some(')') {
            close + 1
        } else {
            close
        };
        (if name == name_not() {
            Some(SPseudo::Not(arg))
        } else {
            None
        }, after)
    } else {
        (if name == name_first_child() {
            Some(SPseudo::FirstChild)
        } else if name == name_last_child() {
            Some(SPseudo::LastChild)
        } else if name == name_only_child() {
            Some(SPseudo::OnlyChild)
        } else if name == name_checked() {
            Some(SPseudo::Checked)
        } else {
            None
        }, ie)
    }
}

/// Characters that end a compound.
pub open spec fn ends_compound(c: char) -> bool {
    c == ' ' || c == '\t' || c == '\n' || c == '\r' || c == '>' || c == '+' || c == '~'
        || c == ','
}

pub proof fn lemma_skip_ws(s: Seq<char>, p: int)
    requires
        0 <= p,
    ensures
        p <= s.len() ==> p <= skip_ws(s, p),
        skip_ws(s, p) <= s.len(),
        0 <= skip_ws(s, p),
        skip_ws(s, p) < s.len() ==> !is_scan_space(s[skip_ws(s, p)]),
    decreases s.len() - p,
{
    if 0 <= p < s.len() && is_scan_space(s[p]) {
        lemma_skip_ws(s, p + 1);
    }
}

pub proof fn lemma_scan_ident(s: Seq<char>, p: int)
    requires
        0 <= p,
    ensures
        p <= s.len() ==> p <= scan_ident(s, p),
        scan_ident(s, p) <= s.len(),
        0 <= scan_ident(s, p),
    decreases s.len() - p,
{
    if 0 <= p < s.len() && is_ident(s[p]) {
        lemma_scan_ident(s, p + 1);
    }
}

pub proof fn lemma_find_close(s: Seq<char>, p: int, depth: nat)
    requires
        0 <= p,
    ensures
        p <= s.len() ==> p <= find_close(s, p, depth),
        find_close(s, p, depth) <= s.len(),
    decreases s.len() - p,
{
    if 0 <= p < s.len() {
        if s[p] == '(' {
            lemma_find_close(s, p + 1, depth + 1);
        } else if s[p] == ')' && depth == 1 {
        } else if s[p] == ')' {
            lemma_find_close(s, p + 1, (depth - 1) as nat);
        } else {
            lemma_find_close(s, p + 1, depth);
        }
    }
}

pub proof fn lemma_quote_end(s: Seq<char>, p: int, q: char)
    requires
        0 <= p,
    ensures
        p <= s.len() ==> p <= quote_end(s, p, q),
        quote_end(s, p, q) <= s.len(),
    decreases s.len() - p,
{
    if 0 <= p < s.len() && s[p] != q {
        lemma_quote_end(s, p + 1, q);
    }
}

pub proof fn lemma_attribute_value(s: Seq<char>, p: int)
    requires
        0 <= p <= s.len(),
    ensures
        p <= parse_attribute_value(s, p).1 <= s.len(),
{
    lemma_scan_ident(s, p);
    lemma_quote_end(s, p + 1, '"');
    lemma_quote_end(s, p + 1, '\'');
}

pub proof fn lemma_attribute_with_operator(s: Seq<char>, p: int, name: Seq<char>, op: AttrOperator)
    requires
        0 <= p <= s.len(),
    ensures
        p <= parse_attribute_with_operator(s, p, name, op).1 <= s.len(),
{
    lemma_skip_ws(s, p);
    let w = skip_ws(s, p);
    lemma_attribute_value(s, w);
    let av = parse_attribute_value(s, w).1;
    lemma_skip_ws(s, av);
}

pub proof fn lemma_attribute_match(s: Seq<char>, p: int)
    requires
        0 <= p <= s.len(),
    ensures
        p <= parse_attribute_match(s, p).1 <= s.len(),
{
    lemma_skip_ws(s, p);
    let ns = skip_ws(s, p);
    lemma_scan_ident(s, ns);
    let ne = scan_ident(s, ns);
    lemma_skip_ws(s, ne);
    let an = skip_ws(s, ne);
    if an < s.len() {
        lemma_attribute_with_operator(s, an + 1, ident_string(s, ns, ne), AttrOperator::Equals);
        if an + 1 < s.len() {
            lemma_attribute_with_operator(s, an + 2, ident_string(s, ns, ne), AttrOperator::Contains);
            lemma_attribute_with_operator(s, an + 2, ident_string(s, ns, ne), AttrOperator::StartsWith);
            lemma_attribute_with_operator(s, an + 2, ident_string(s, ns, ne), AttrOperator::EndsWith);
        }
        lemma_attribute_with_operator(s, an + 1, ident_string(s, ns, ne), AttrOperator::Contains);
        lemma_attribute_with_operator(s, an + 1, ident_string(s, ns, ne), AttrOperator::StartsWith);
        lemma_attribute_with_operator(s, an + 1, ident_string(s, ns, ne), AttrOperator::EndsWith);
    }
}

pub proof fn lemma_pseudo_class(s: Seq<char>, p: int)
    requires
        0 <= p < s.len(),
    ensures
        p < parse_pseudo_class(s, p).1 <= s.len(),
{
    lemma_scan_ident(s, p + 1);
    let ie = scan_ident(s, p + 1);
    if ie < s.len() {
        lemma_find_close(s, ie + 1, 1);
    }
}

pub open spec fn with_pseudo(acc: SCompound, ps: SPseudo) -> SCompound {
    SCompound { pseudo_classes: acc.pseudo_classes.push(ps), ..acc }
}

pub open spec fn with_class(acc: SCompound, c: Seq<char>) -> SCompound {
    SCompound { classes: acc.classes.push(c), ..acc }
}

pub open spec fn with_attribute(acc: SCompound, a: SAttr) -> SCompound {
    SCompound { attributes: acc.attributes.push(a), ..acc }
}

/// One compound, continuing `acc` from position `p`.
pub open spec fn parse_compound_from(s: Seq<char>, p: int, acc: SCompound) -> (SCompound, int)
    decreases s.len() - p,
{
    if !(0 <= p < s.len()) || ends_compound(s[p]) {
        (acc, p)
    } else if s[p] == ':' {
        let (parsed, after) = parse_pseudo_class(s, p);
        proof {
            lemma_pseudo_class(s, p);
        }
        match parsed {
            Some(ps) => parse_compound_from(s, after, with_pseudo(acc, ps)),
            None => parse_compound_from(s, after, acc),
        }
    } else if s[p] == '*' {
        parse_compound_from(s, p + 1, SCompound { universal: true, ..acc })
    } else if s[p] == '.' {
        let end = scan_ident(s, p + 1);
        proof {
            lemma_scan_ident(s, p + 1);
        }
        parse_compound_from(s, end, with_class(acc, ident_string(s, p + 1, end)))
    } else if s[p] == '#' {
        let end = scan_ident(s, p + 1);
        proof {
            lemma_scan_ident(s, p + 1);
        }
        parse_compound_from(s, end, SCompound { id: Some(ident_string(s, p + 1, end)), ..acc })
    } else if s[p] == '[' {
        let (attr, end) = parse_attribute_match(s, p + 1);
        proof {
            lemma_attribute_match(s, p + 1);
        }
        parse_compound_from(s, end, with_attribute(acc, attr))
    } else {
        let end = scan_ident(s, p);
        proof {
            lemma_scan_ident(s, p);
        }
        if end <= p {
            (acc, p + 1)
        } else if acc.tag is None && !acc.universal && acc.id is None {
            parse_compound_from(
                s,
                end,
                SCompound { tag: Some(lower_seq(ident_string(s, p, end))), ..acc },
            )
        } else {
            (acc, p)
        }
    }
}

pub open spec fn parse_compound(s: Seq<char>, p: int) -> (SCompound, int) {
    parse_compound_from(s, p, empty_compound())
}

pub proof fn lemma_compound_from(s: Seq<char>, p: int, acc: SCompound)
    requires
        0 <= p <= s.len(),
    ensures
        p <= parse_compound_from(s, p, acc).1 <= s.len(),
    decreases s.len() - p,
{
    if !(0 <= p < s.len()) || ends_compound(s[p]) {
    } else if s[p] == ':' {
        lemma_pseudo_class(s, p);
        let (parsed, after) = parse_pseudo_class(s, p);
        match parsed {
            Some(ps) => lemma_compound_from(s, after, with_pseudo(acc, ps)),
            None => lemma_compound_from(s, after, acc),
        }
    } else if s[p] == '*' {
        lemma_compound_from(s, p + 1, SCompound { universal: true, ..acc });
    } else if s[p] == '.' {
        lemma_scan_ident(s, p + 1);
        let end = scan_ident(s, p + 1);
        lemma_compound_from(s, end, with_class(acc, ident_string(s, p + 1, end)));
    } else if s[p] == '#' {
        lemma_scan_ident(s, p + 1);
        let end = scan_ident(s, p + 1);
        lemma_compound_from(s, end, SCompound { id: Some(ident_string(s, p + 1, end)), ..acc });
    } else if s[p] == '[' {
        lemma_attribute_match(s, p + 1);
        let (attr, end) = parse_attribute_match(s, p + 1);
        lemma_compound_from(s, end, with_attribute(acc, attr));
    } else {
        lemma_scan_ident(s, p);
        let end = scan_ident(s, p);
        if end > p && acc.tag is None && !acc.universal && acc.id is None {
            lemma_compound_from(
                s,
                end,
                SCompound { tag: Some(lower_seq(ident_string(s, p, end))), ..acc },
            );
        }
    }
}

/// A compound that stopped on a non-ASCII character leaves the scan inside
/// that character's encoding, where no further compound can start.
pub open spec fn stops_inside_character(s: Seq<char>, pos: int) -> bool {
    0 < pos <= s.len() && (s[pos - 1] as u32) >= 0x80
}

pub open spec fn combinator_of(c: char) -> Combinator {
    if c == '>' {
        Combinator::Child
    } else if c == '+' {
        Combinator::AdjacentSibling
    } else if c == '~' {
        Combinator::GeneralSibling
    } else {
        Combinator::Descendant
    }
}

/// The rest of a complex selector, from position `pos`.
pub open spec fn parse_complex_tail(
    s: Seq<char>,
    pos: int,
    compounds: Seq<SCompound>,
    combinators: Seq<Combinator>,
) -> SComplex
    decreases s.len() - pos,
{
    let done = SComplex { compounds, combinators };
    if !(0 <= pos <= s.len()) || stops_inside_character(s, pos) {
        done
    } else {
        let aw = skip_ws(s, pos);
        proof {
            lemma_skip_ws(s, pos);
        }
        if aw >= s.len() {
            done
        } else if s[aw] == '>' || s[aw] == '+' || s[aw] == '~' {
            let after_sym = skip_ws(s, aw + 1);
            proof {
                lemma_skip_ws(s, aw + 1);
            }
            let (compound, end) = parse_compound(s, after_sym);
            proof {
                lemma_compound_from(s, after_sym, empty_compound());
            }
            parse_complex_tail(
                s,
                end,
                compounds.push(compound),
                combinators.push(combinator_of(s[aw])),
            )
        } else if aw > pos {
            let (compound, end) = parse_compound(s, aw);
            proof {
                lemma_compound_from(s, aw, empty_compound());
            }
            parse_complex_tail(
                s,
                end,
                compounds.push(compound),
                combinators.push(Combinator::Descendant),
            )
        } else {
            done
        }
    }
}

/// A complex selector: the text is trimmed, then read compound by compound.
pub open spec fn parse_complex_selector(source: Seq<char>) -> SComplex {
    let t = trim(source);
    let (first, pos) = parse_compound(t, 0);
    parse_complex_tail(t, pos, seq![first], Seq::empty())
}

pub open spec fn parse_pieces(pieces: Seq<Seq<char>>) -> Seq<SComplex>
    decreases pieces.len(),
{
    if pieces.len() == 0 {
        Seq::empty()
    } else {
        let r = parse_pieces(pieces.drop_last());
        if trim(pieces.last()).len() > 0 {
            r.push(parse_complex_selector(trim(pieces.last())))
        } else {
            r
        }
    }
}

/// A selector list: the comma-separated pieces that are not blank.
pub open spec fn parse_selector_list(source: Seq<char>) -> Seq<SComplex> {
    parse_pieces(split(source, ','))
}

} // verus!

verus! {

pub fn is_ident_exec(c: char) -> (b: bool)
    ensures
        b == is_ident(c),
{
    ('a' <= c && c <= 'z') || ('A' <= c && c <= 'Z') || ('0' <= c && c <= '9') || c == '-'
        || c == '_'
}

fn char_at(s: &[char], p: usize) -> (r: Option<char>)
    ensures
        r == at(s@, p as int),
{
    if p < s.len() {
        Some(s[p])
    } else {
        None
    }
}

pub fn skip_whitespace(s: &[char], start: usize) -> (r: usize)
    ensures
        r == skip_ws(s@, start as int),
{
    let mut i = start;
    while i < s.len() && is_scan_space_exec(s[i])
        invariant
            skip_ws(s@, i as int) == skip_ws(s@, start as int),
        decreases s@.len() - i,
    {
        i = i + 1;
    }
    if i < s.len() {
        i
    } else {
        s.len()
    }
}

pub fn scan_ident_exec(s: &[char], start: usize) -> (r: usize)
    ensures
        r == scan_ident(s@, start as int),
{
    let mut i = start;
    while i < s.len() && is_ident_exec(s[i])
        invariant
            scan_ident(s@, i as int) == scan_ident(s@, start as int),
        decreases s@.len() - i,
    {
        i = i + 1;
    }
    if i < s.len() {
        i
    } else {
        s.len()
    }
}

pub fn ident_string_exec(s: &[char], a: usize, e: usize) -> (r: Vec<char>)
    ensures
        r@ == ident_string(s@, a as int, e as int),
{
    if a <= e && e <= s.len() {
        slice_range(s, a, e)
    } else {
        Vec::new()
    }
}

/// From `start`, with `depth` parentheses open, the position of the `)`
/// that closes the outermost one; the length of `s` when there is none.
pub fn find_balanced_close_paren(s: &[char], start: usize, depth: usize) -> (r: usize)
    requires
        depth >= 1,
        start > s@.len() || depth + (s@.len() - start) <= usize::MAX,
    ensures
        r == find_close(s@, start as int, depth as nat),
{
    let _n = s.len();
    let mut i = start;
    let mut d: usize = depth;
    while i < s.len()
        invariant
            start <= i,
            _n == s@.len(),
            i < s@.len() ==> depth + (s@.len() - start) <= usize::MAX,
            1 <= d <= depth + (i - start),
            find_close(s@, i as int, d as nat) == find_close(s@, start as int, depth as nat),
        decreases s@.len() - i,
    {
        let c = s[i];
        if c == '(' {
            d = d + 1;
        } else if c == ')' && d == 1 {
            return i;
        } else if c == ')' {
            d = d - 1;
        }
        i = i + 1;
    }
    s.len()
}

fn quote_end_exec(s: &[char], start: usize, q: char) -> (r: usize)
    ensures
        r == quote_end(s@, start as int, q),
{
    let mut i = start;
    while i < s.len() && s[i] != q
        invariant
            quote_end(s@, i as int, q) == quote_end(s@, start as int, q),
        decreases s@.len() - i,
    {
        i = i + 1;
    }
    if i < s.len() {
        i
    } else {
        s.len()
    }
}

fn parse_quoted_exec(s: &[char], start: usize, q: char) -> (r: (Vec<char>, usize))
    requires
        start <= s@.len(),
    ensures
        (r.0@, r.1 as int) == parse_quoted(s@, start as int, q),
{
    let end = quote_end_exec(s, start, q);
    let value = ident_string_exec(s, start, end);
    let after = if end < s.len() {
        end + 1
    } else {
        end
    };
    (value, after)
}

fn parse_attribute_value_exec(s: &[char], start: usize) -> (r: (Vec<char>, usize))
    requires
        start <= s@.len(),
    ensures
        (r.0@, r.1 as int) == parse_attribute_value(s@, start as int),
{
    let _n = s.len();
    match char_at(s, start) {
        Some(c) => {
            if c == '"' {
                parse_quoted_exec(s, start + 1, '"')
            } else if c == '\'' {
                parse_quoted_exec(s, start + 1, '\'')
            } else {
                let e = scan_ident_exec(s, start);
                (ident_string_exec(s, start, e), e)
            }
        },
        None => (Vec::new(), start),
    }
}

fn parse_attribute_with_operator_exec(
    s: &[char],
    start: usize,
    name: Vec<char>,
    op: AttrOperator,
) -> (r: (AttributeMatch, usize))
    requires
        start <= s@.len(),
    ensures
        (r.0@, r.1 as int) == parse_attribute_with_operator(s@, start as int, name@, op),
{
    let _n = s.len();
    let w = skip_whitespace(s, start);
    proof {
        lemma_skip_ws(s@, start as int);
    }
    let (value, after_value) = parse_attribute_value_exec(s, w);
    proof {
        lemma_attribute_value(s@, w as int);
    }
    let q = skip_whitespace(s, after_value);
    proof {
        lemma_skip_ws(s@, after_value as int);
    }
    let after = if char_at(s, q) == Some(']') {
        q + 1
    } else {
        after_value
    };
    (AttributeMatch { name, operator: op, value: Some(value) }, after)
}

fn parse_attribute_match_exec(s: &[char], start: usize) -> (r: (AttributeMatch, usize))
    requires
        start <= s@.len(),
    ensures
        (r.0@, r.1 as int) == parse_attribute_match(s@, start as int),
{
    let _n = s.len();
    let ns = skip_whitespace(s, start);
    proof {
        lemma_skip_ws(s@, start as int);
    }
    let ne = scan_ident_exec(s, ns);
    proof {
        lemma_scan_ident(s@, ns as int);
    }
    let name = ident_string_exec(s, ns, ne);
    let an = skip_whitespace(s, ne);
    proof {
        lemma_skip_ws(s@, ne as int);
    }
    match char_at(s, an) {
        Some(c) => {
            if c == ']' {
                (AttributeMatch { name, operator: AttrOperator::Exists, value: None }, an + 1)
            } else if c == '=' {
                parse_attribute_with_operator_exec(s, an + 1, name, AttrOperator::Equals)
            } else if c == '*' || c == '^' || c == '$' {
                let op = if c == '*' {
                    AttrOperator::Contains
                } else if c == '^' {
                    AttrOperator::StartsWith
                } else {
                    AttrOperator::EndsWith
                };
                let after_op = if char_at(s, an + 1) == Some('=') {
                    an + 2
                } else {
                    an + 1
                };
                parse_attribute_with_operator_exec(s, after_op, name, op)
            } else {
                (AttributeMatch { name, operator: AttrOperator::Exists, value: None }, an)
            }
        },
        None => (AttributeMatch { name, operator: AttrOperator::Exists, value: None }, an),
    }
}

fn chars_eq_lit(a: &[char], lit: &[char]) -> (b: bool)
    ensures
        b == (a@ == lit@),
{
    crate::text::eq_chars(a, lit)
}

fn parse_pseudo_class_exec(s: &[char], start: usize) -> (r: (Option<PseudoClass>, usize))
    requires
        start < s@.len(),
    ensures
        (match r.0 {
            Some(p) => Some(p@),
            None => None,
        }, r.1 as int) == parse_pseudo_class(s@, start as int),
{
    let _n = s.len();
    let ie = scan_ident_exec(s, start + 1);
    proof {
        lemma_scan_ident(s@, start + 1);
    }
    let raw = ident_string_exec(s, start + 1, ie);
    let name = lower_chars(&raw);
    if char_at(s, ie) == Some('(') {
        let arg_start = ie + 1;
        let close = find_balanced_close_paren(s, arg_start, 1);
        let arg = ident_string_exec(s, arg_start, close);
        let after = if char_at(s, close) == Some(')') {
            close + 1
        } else {
            close
        };
        let not_name: [char; 3] = ['n', 'o', 't'];
        assert(not_name@ == name_not());
        let parsed = if chars_eq_lit(&name, &not_name) {
            Some(PseudoClass::Not(arg))
        } else {
            None
        };
        (parsed, after)
    } else {
        let first: [char; 11] = ['f', 'i', 'r', 's', 't', '-', 'c', 'h', 'i', 'l', 'd'];
        let last: [char; 10] = ['l', 'a', 's', 't', '-', 'c', 'h', 'i', 'l', 'd'];
        let only: [char; 10] = ['o', 'n', 'l', 'y', '-', 'c', 'h', 'i', 'l', 'd'];
        assert(first@ == name_first_child());
        assert(last@ == name_last_child());
        let checked: [char; 7] = ['c', 'h', 'e', 'c', 'k', 'e', 'd'];
        assert(only@ == name_only_child());
        assert(checked@ == name_checked());
        let parsed = if chars_eq_lit(&name, &first) {
            Some(PseudoClass::FirstChild)
        } else if chars_eq_lit(&name, &last) {
            Some(PseudoClass::LastChild)
        } else if chars_eq_lit(&name, &only) {
            Some(PseudoClass::OnlyChild)
        } else if chars_eq_lit(&name, &checked) {
            Some(PseudoClass::Checked)
        } else {
            None
        };
        (parsed, ie)
    }
}

fn ends_compound_exec(c: char) -> (b: bool)
    ensures
        b == ends_compound(c),
{
    c == ' ' || c == '\t' || c == '\n' || c == '\r' || c == '>' || c == '+' || c == '~' || c
        == ','
}

pub fn new_compound() -> (c: CompoundSelector)
    ensures
        c@ == empty_compound(),
{
    let c = CompoundSelector {
        universal: false,
        tag: None,
        id: None,
        classes: Vec::new(),
        attributes: Vec::new(),
        pseudo_classes: Vec::new(),
    };
    assert(c@.classes =~= Seq::<Seq<char>>::empty());
    assert(c@.attributes =~= Seq::<SAttr>::empty());
    assert(c@.pseudo_classes =~= Seq::<SPseudo>::empty());
    c
}

/// Reads one compound starting at `start`; returns it with the position
/// where it stopped.
pub fn parse_compound_exec(s: &[char], start: usize) -> (r: (CompoundSelector, usize))
    ensures
        (r.0@, r.1 as int) == parse_compound(s@, start as int),
{
    let mut acc = new_compound();
    if start > s.len() {
        return (acc, start);
    }
    let mut p = start;
    loop
        invariant
            p <= s@.len(),
            parse_compound_from(s@, p as int, acc@) == parse_compound(s@, start as int),
        decreases s@.len() - p,
    {
        if p >= s.len() || ends_compound_exec(s[p]) {
            return (acc, p);
        }
        let c = s[p];
        let ghost old_acc = acc@;
        if c == ':' {
            let (parsed, after) = parse_pseudo_class_exec(s, p);
            proof {
                lemma_pseudo_class(s@, p as int);
            }
            match parsed {
                Some(ps) => {
                    let ghost psv = ps@;
                    acc.pseudo_classes.push(ps);
                    assert(acc@.pseudo_classes =~= old_acc.pseudo_classes.push(psv));
                    assert(acc@ == with_pseudo(old_acc, psv));
                },
                None => {},
            }
            p = after;
        } else if c == '*' {
            acc.universal = true;
            assert(acc@ == SCompound { universal: true, ..old_acc });
            p = p + 1;
        } else if c == '.' {
            let end = scan_ident_exec(s, p + 1);
            proof {
                lemma_scan_ident(s@, p + 1);
            }
            let name = ident_string_exec(s, p + 1, end);
            let ghost nv = name@;
            acc.classes.push(name);
            assert(acc@.classes =~= old_acc.classes.push(nv));
            assert(acc@ == with_class(old_acc, nv));
            p = end;
        } else if c == '#' {
            let end = scan_ident_exec(s, p + 1);
            proof {
                lemma_scan_ident(s@, p + 1);
            }
            let name = ident_string_exec(s, p + 1, end);
            acc.id = Some(name);
            assert(acc@ == SCompound { id: Some(name@), ..old_acc });
            p = end;
        } else if c == '[' {
            let (attr, end) = parse_attribute_match_exec(s, p + 1);
            proof {
                lemma_attribute_match(s@, p + 1);
            }
            let ghost av = attr@;
            acc.attributes.push(attr);
            assert(acc@.attributes =~= old_acc.attributes.push(av));
            assert(acc@ == with_attribute(old_acc, av));
            p = end;
        } else {
            let end = scan_ident_exec(s, p);
            proof {
                lemma_scan_ident(s@, p as int);
            }
            if end <= p {
                return (acc, p + 1);
            } else if acc.tag.is_none() && !acc.universal && acc.id.is_none() {
                let raw = ident_string_exec(s, p, end);
                let name = lower_chars(&raw);
                acc.tag = Some(name);
                assert(acc@ == SCompound { tag: Some(lower_seq(ident_string(s@, p as int, end as int))), ..old_acc });
                p = end;
            } else {
                return (acc, p);
            }
        }
    }
}

fn combinator_exec(c: char) -> (r: Combinator)
    ensures
        r == combinator_of(c),
{
    if c == '>' {
        Combinator::Child
    } else if c == '+' {
        Combinator::AdjacentSibling
    } else if c == '~' {
        Combinator::GeneralSibling
    } else {
        Combinator::Descendant
    }
}

/// Reads a complex selector from `source` (which is trimmed first).
pub fn parse_complex_selector_exec(source: &[char]) -> (r: ComplexSelector)
    ensures
        r@ == parse_complex_selector(source@),
{
    let t = trim_exec(source);
    let s: &[char] = t.as_slice();
    let (first, pos0) = parse_compound_exec(s, 0);
    proof {
        lemma_compound_from(s@, 0, empty_compound());
    }
    let mut compounds: Vec<CompoundSelector> = Vec::new();
    let ghost fv = first@;
    compounds.push(first);
    let mut combinators: Vec<Combinator> = Vec::new();
    let mut pos = pos0;
    assert(compounds@.map_values(|c: CompoundSelector| c@) =~= seq![fv]);
    assert(combinators@ =~= Seq::<Combinator>::empty());
    loop
        invariant
            pos <= s@.len(),
            s@ == trim(source@),
            parse_complex_tail(
                s@,
                pos as int,
                compounds@.map_values(|c: CompoundSelector| c@),
                combinators@,
            ) == parse_complex_selector(source@),
        decreases s@.len() - pos,
    {
        let ghost cv = compounds@.map_values(|c: CompoundSelector| c@);
        let ghost kv = combinators@;
        if pos > 0 && (s[pos - 1] as u32) >= 0x80 {
            let r = ComplexSelector { compounds, combinators };
            return r;
        }
        let aw = skip_whitespace(s, pos);
        proof {
            lemma_skip_ws(s@, pos as int);
        }
        if aw >= s.len() {
            return ComplexSelector { compounds, combinators };
        }
        let c = s[aw];
        if c == '>' || c == '+' || c == '~' {
            let after_sym = skip_whitespace(s, aw + 1);
            proof {
                lemma_skip_ws(s@, aw + 1);
            }
            let (compound, end) = parse_compound_exec(s, after_sym);
            proof {
                lemma_compound_from(s@, after_sym as int, empty_compound());
            }
            let ghost nv = compound@;
            compounds.push(compound);
            combinators.push(combinator_exec(c));
            assert(compounds@.map_values(|c: CompoundSelector| c@) =~= cv.push(nv));
            pos = end;
        } else if aw > pos {
            let (compound, end) = parse_compound_exec(s, aw);
            proof {
                lemma_compound_from(s@, aw as int, empty_compound());
            }
            let ghost nv = compound@;
            compounds.push(compound);
            combinators.push(Combinator::Descendant);
            assert(compounds@.map_values(|c: CompoundSelector| c@) =~= cv.push(nv));
            pos = end;
        } else {
            return ComplexSelector { compounds, combinators };
        }
    }
}

/// Parses a comma-separated selector list; blank pieces are skipped.
pub fn parse_selector_list_exec(source: &[char]) -> (r: SelectorList)
    ensures
        r@ == parse_selector_list(source@),
{
    let pieces = split_exec(source, ',');
    let mut selectors: Vec<ComplexSelector> = Vec::new();
    let mut i: usize = 0;
    while i < pieces.len()
        invariant
            i <= pieces@.len(),
            views(pieces@) == split(source@, ','),
            selectors@.map_values(|c: ComplexSelector| c@) == parse_pieces(
                views(pieces@).take(i as int),
            ),
        decreases pieces@.len() - i,
    {
        let t = trim_exec(&pieces[i]);
        let ghost prev = selectors@.map_values(|c: ComplexSelector| c@);
        proof {
            let ps = views(pieces@).take(i + 1);
            assert(ps.drop_last() == views(pieces@).take(i as int));
            assert(ps.last() == pieces@[i as int]@);
        }
        if t.len() > 0 {
            let c = parse_complex_selector_exec(&t);
            let ghost cv = c@;
            selectors.push(c);
            assert(selectors@.map_values(|c: ComplexSelector| c@) =~= prev.push(cv));
        }
        i = i + 1;
    }
    assert(views(pieces@).take(pieces@.len() as int) == views(pieces@));
    SelectorList { selectors }
}

/// Parses a selector list given as a string.
pub fn parse_selector(source: &str) -> (r: SelectorList)
    ensures
        r@ == parse_selector_list(source@),
{
    let cs = chars_of(source);
    parse_selector_list_exec(&cs)
}

} // verus!
