//! What the selector machinery means, stated over plain text: attribute
//! operators as ways of writing the attribute value, class conditions as
//! whole whitespace-separated class tokens, and combinators as symbols
//! whose surrounding whitespace does not matter.

use vstd::prelude::*;
use crate::dom::DomElement;
use crate::query::{class_selector, contains_seq, dotted, is_prefix, is_suffix, matches_attr, matches_simple_parts, occurs_at};
use crate::selector::{
    AttrOperator, Combinator, SAttr, SComplex, SCompound, empty_compound, ends_compound, is_ident,
    parse_complex_selector, parse_complex_tail, parse_compound, parse_compound_from, scan_ident,
    skip_ws, stops_inside_character, ident_string, parse_pieces, parse_selector_list, with_class,
};
use crate::text::{split, words, eq_ignore_case, is_scan_space, is_unicode_space, is_whole_token, lemma_tokens_contain, lower_seq, tokens, trim};
use crate::style_laws::{lemma_split_none, lemma_trim_end_keep, lemma_trim_start_keep};

verus! {

/// Law: an attribute condition `[name op v]` holds of an element exactly
/// when the element has the attribute `name`, with value `a`, and:
/// `[name]` always; `[name=v]` when `a` is `v`; `[name*=v]` when `a` is
/// some text, then `v`, then some text; `[name^=v]` when `a` is `v`
/// followed by some text; `[name$=v]` when `a` is some text followed by
/// `v`.
pub proof fn law_attribute_operators(e: DomElement, am: SAttr)
    ensures
        matches_attr(e, am) <==> match e.attributes.get_spec(am.name) {
            None => false,
            Some(a) => match am.operator {
                AttrOperator::Exists => true,
                AttrOperator::Equals => am.value == Some(a),
                AttrOperator::Contains => am.value matches Some(v)
                    && exists|x: Seq<char>, y: Seq<char>| #[trigger] (x + v + y) == a,
                AttrOperator::StartsWith => am.value matches Some(v) && exists|y: Seq<char>| #[trigger] (v + y) == a,
                AttrOperator::EndsWith => am.value matches Some(v) && exists|x: Seq<char>| #[trigger] (x + v) == a,
            },
        },
{
    match e.attributes.get_spec(am.name) {
        None => {},
        Some(a) => match am.value {
            None => {},
            Some(v) => match am.operator {
                AttrOperator::Contains => {
                    if contains_seq(a, v) {
                        let i = choose|i: int| occurs_at(a, v, i);
                        let x = a.take(i);
                        let y = a.skip(i + v.len());
                        assert(x + v + y =~= a);
                    }
                    if exists|x: Seq<char>, y: Seq<char>| #[trigger] (x + v + y) == a {
                        let (x, y) = choose|x: Seq<char>, y: Seq<char>| #[trigger] (x + v + y) == a;
                        assert(a.subrange(x.len() as int, (x.len() + v.len()) as int) =~= v);
                        assert(occurs_at(a, v, x.len() as int));
                    }
                },
                AttrOperator::StartsWith => {
                    if is_prefix(v, a) {
                        assert(v + a.skip(v.len() as int) =~= a);
                    }
                    if exists|y: Seq<char>| #[trigger] (v + y) == a {
                        let y = choose|y: Seq<char>| #[trigger] (v + y) == a;
                        assert(a.take(v.len() as int) =~= v);
                    }
                },
                AttrOperator::EndsWith => {
                    if is_suffix(v, a) {
                        assert(a.take(a.len() - v.len()) + v =~= a);
                    }
                    if exists|x: Seq<char>| #[trigger] (x + v) == a {
                        let x = choose|x: Seq<char>| #[trigger] (x + v) == a;
                        assert(a.skip(a.len() - v.len()) =~= v);
                    }
                },
                _ => {},
            },
        },
    }
}

/// Law: an element meets the class conditions `.c` of a compound exactly
/// when each `c` stands in its class attribute as a whole
/// whitespace-separated token; a class that only occurs inside a longer
/// token does not count.  The compound's other conditions are met as they
/// would be without its classes.
pub proof fn law_class_condition_is_a_whole_token(e: DomElement, c: SCompound)
    ensures
        matches_simple_parts(e, c) <==> {
            &&& matches_simple_parts(e, SCompound { classes: Seq::empty(), ..c })
            &&& forall|k: int| 0 <= k < c.classes.len() ==> is_whole_token(e.class_name@, #[trigger] c.classes[k])
        },
{
    assert forall|k: int| 0 <= k < c.classes.len() implies is_whole_token(e.class_name@, #[trigger] c.classes[k])
        == tokens(e.class_name@).contains(c.classes[k]) by {
        lemma_tokens_contain(e.class_name@, c.classes[k]);
    }
    let bare = SCompound { classes: Seq::empty(), ..c };
    assert(bare.classes.len() == 0);
    assert(bare.attributes == c.attributes);
    assert(bare.tag == c.tag);
    assert(bare.id == c.id);
    assert(matches_simple_parts(e, bare) == {
        &&& (c.tag matches Some(want) ==> eq_ignore_case(e.tag_name@, want))
        &&& (c.id matches Some(want) ==> e.id@ == want)
        &&& forall|k: int| 0 <= k < c.attributes.len() ==> matches_attr(e, #[trigger] c.attributes[k])
    });
}

/// Law: a compound's tag condition holds exactly when the element's tag
/// name is the wanted name up to ASCII case, and its id condition exactly
/// when the element's id is the wanted id, character for character; the
/// compound's other conditions are met as they would be without these
/// two.
pub proof fn law_tag_and_id_conditions(e: DomElement, c: SCompound)
    ensures
        matches_simple_parts(e, c) <==> {
            &&& matches_simple_parts(e, SCompound { tag: None, id: None, ..c })
            &&& (c.tag matches Some(w) ==> lower_seq(e.tag_name@) == lower_seq(w))
            &&& (c.id matches Some(w) ==> e.id@ == w)
        },
{
    let bare = SCompound { tag: None, id: None, ..c };
    assert(bare.classes == c.classes);
    assert(bare.attributes == c.attributes);
}

/// Law: an element meets a compound's tag, id, class and attribute
/// conditions exactly when its tag name is the wanted one up to ASCII case,
/// its id is the wanted one, each class stands in its class attribute as a
/// whole token, and every attribute condition holds (see
/// [`law_attribute_operators`]).
pub proof fn law_compound_conditions(e: DomElement, c: SCompound)
    ensures
        matches_simple_parts(e, c) <==> {
            &&& (c.tag matches Some(w) ==> lower_seq(e.tag_name@) == lower_seq(w))
            &&& (c.id matches Some(w) ==> e.id@ == w)
            &&& forall|k: int| 0 <= k < c.classes.len() ==> is_whole_token(e.class_name@, #[trigger] c.classes[k])
            &&& forall|k: int| 0 <= k < c.attributes.len() ==> matches_attr(e, #[trigger] c.attributes[k])
        },
{
    law_class_condition_is_a_whole_token(e, c);
}

/// A non-empty run of identifier characters (a tag name).
pub open spec fn is_ident_text(x: Seq<char>) -> bool {
    x.len() > 0 && forall|j: int| 0 <= j < x.len() ==> is_ident(#[trigger] x[j])
}

/// A run, possibly empty, of the whitespace that selectors skip.
pub open spec fn is_blank_text(a: Seq<char>) -> bool {
    forall|j: int| 0 <= j < a.len() ==> is_scan_space(#[trigger] a[j])
}

/// The compound that a bare tag name `x` stands for.
pub open spec fn tag_compound(x: Seq<char>) -> SCompound {
    SCompound { tag: Some(lower_seq(x)), ..empty_compound() }
}

/// The combinator that a symbol between two compounds stands for.
pub open spec fn combinator_symbol(sym: char) -> Combinator {
    if sym == '>' {
        Combinator::Child
    } else if sym == '+' {
        Combinator::AdjacentSibling
    } else {
        Combinator::GeneralSibling
    }
}

proof fn lemma_ident_char(c: char)
    requires
        is_ident(c),
    ensures
        !is_unicode_space(c),
        !is_scan_space(c),
        !ends_compound(c),
        (c as u32) < 0x80,
        c != ':' && c != '*' && c != '.' && c != '#' && c != '[',
{
}

/// The identifier scan from `p` runs to `q` over identifier characters.
proof fn lemma_scan_ident_to(s: Seq<char>, p: int, q: int)
    requires
        0 <= p <= q <= s.len(),
        forall|j: int| p <= j < q ==> is_ident(#[trigger] s[j]),
        q < s.len() ==> !is_ident(s[q]),
    ensures
        scan_ident(s, p) == q,
    decreases q - p,
{
    if p < q {
        lemma_scan_ident_to(s, p + 1, q);
    }
}

/// The whitespace skip from `p` runs to `q` over scan whitespace.
proof fn lemma_skip_ws_to(s: Seq<char>, p: int, q: int)
    requires
        0 <= p <= q <= s.len(),
        forall|j: int| p <= j < q ==> is_scan_space(#[trigger] s[j]),
        q < s.len() ==> !is_scan_space(s[q]),
    ensures
        skip_ws(s, p) == q,
    decreases q - p,
{
    if p < q {
        lemma_skip_ws_to(s, p + 1, q);
    }
}

/// A tag name that starts at `p` and runs to `q`, where the text ends or a
/// compound ends, is read as a compound of just that tag.
proof fn lemma_tag_compound_at(s: Seq<char>, p: int, q: int)
    requires
        0 <= p < q <= s.len(),
        forall|j: int| p <= j < q ==> is_ident(#[trigger] s[j]),
        q < s.len() ==> ends_compound(s[q]) && !is_ident(s[q]),
    ensures
        parse_compound(s, p) == (tag_compound(s.subrange(p, q)), q),
{
    lemma_ident_char(s[p]);
    lemma_scan_ident_to(s, p, q);
    let acc = SCompound { tag: Some(lower_seq(s.subrange(p, q))), ..empty_compound() };
    assert(parse_compound_from(s, q, acc) == (acc, q));
}

/// Law: a combinator symbol (`>`, `+` or `~`) between two tag names reads
/// the same whatever whitespace stands on either side of it, none
/// included: `a>b`, `a > b` and `a  >b` all parse to the two tag compounds
/// joined by the combinator that the symbol stands for.
pub proof fn law_combinator_whitespace_is_optional(
    x: Seq<char>,
    before: Seq<char>,
    sym: char,
    after: Seq<char>,
    y: Seq<char>,
)
    requires
        is_ident_text(x),
        is_ident_text(y),
        is_blank_text(before),
        is_blank_text(after),
        sym == '>' || sym == '+' || sym == '~',
    ensures
        parse_complex_selector(x + before + seq![sym] + after + y) == (SComplex {
            compounds: seq![tag_compound(x), tag_compound(y)],
            combinators: seq![combinator_symbol(sym)],
        }),
{
    let s = x + before + seq![sym] + after + y;
    let n = s.len() as int;
    let xe = x.len() as int;
    let se = xe + before.len();
    let ys = se + 1 + after.len();
    assert forall|j: int| 0 <= j < xe implies s[j] == x[j] by {}
    assert forall|j: int| xe <= j < se implies s[j] == before[j - xe] by {}
    assert(s[se] == sym);
    assert forall|j: int| se < j < ys implies s[j] == after[j - se - 1] by {}
    assert forall|j: int| ys <= j < n implies s[j] == y[j - ys] by {}
    // the text is already trimmed
    lemma_ident_char(x[0]);
    lemma_ident_char(y[y.len() - 1]);
    assert(s[0] == x[0]);
    assert(s.last() == y[y.len() - 1]);
    lemma_trim_start_keep(s);
    lemma_trim_end_keep(s);
    assert(trim(s) == s);
    // the first tag
    assert forall|j: int| 0 <= j < xe implies is_ident(#[trigger] s[j]) by {
        assert(s[j] == x[j]);
    }
    if xe < se {
        assert(is_scan_space(before[0]));
    }
    lemma_tag_compound_at(s, 0, xe);
    assert(s.subrange(0, xe) =~= x);
    // the symbol, and the second tag
    lemma_ident_char(x[xe - 1]);
    assert(!stops_inside_character(s, xe));
    assert forall|j: int| xe <= j < se implies is_scan_space(#[trigger] s[j]) by {
        assert(is_scan_space(before[j - xe]));
    }
    lemma_skip_ws_to(s, xe, se);
    assert forall|j: int| se + 1 <= j < ys implies is_scan_space(#[trigger] s[j]) by {
        assert(is_scan_space(after[j - se - 1]));
    }
    lemma_ident_char(y[0]);
    assert(s[ys] == y[0]);
    lemma_skip_ws_to(s, se + 1, ys);
    assert forall|j: int| ys <= j < n implies is_ident(#[trigger] s[j]) by {
        assert(s[j] == y[j - ys]);
    }
    lemma_tag_compound_at(s, ys, n);
    assert(s.subrange(ys, n) =~= y);
    // nothing follows
    assert(!stops_inside_character(s, n));
    lemma_skip_ws_to(s, n, n);
    let done = SComplex {
        compounds: seq![tag_compound(x)].push(tag_compound(y)),
        combinators: Seq::<Combinator>::empty().push(combinator_symbol(sym)),
    };
    assert(parse_complex_tail(s, n, done.compounds, done.combinators) == done);
    assert(done.compounds =~= seq![tag_compound(x), tag_compound(y)]);
    assert(done.combinators =~= seq![combinator_symbol(sym)]);
}

/// Law: whitespace alone between two tag names, with no combinator
/// symbol, joins them as a descendant selector.
pub proof fn law_blank_between_tags_is_descendant(x: Seq<char>, blank: Seq<char>, y: Seq<char>)
    requires
        is_ident_text(x),
        is_ident_text(y),
        is_blank_text(blank),
        blank.len() > 0,
    ensures
        parse_complex_selector(x + blank + y) == (SComplex {
            compounds: seq![tag_compound(x), tag_compound(y)],
            combinators: seq![Combinator::Descendant],
        }),
{
    let s = x + blank + y;
    let n = s.len() as int;
    let xe = x.len() as int;
    let ys = xe + blank.len();
    assert forall|j: int| 0 <= j < xe implies s[j] == x[j] by {}
    assert forall|j: int| xe <= j < ys implies s[j] == blank[j - xe] by {}
    assert forall|j: int| ys <= j < n implies s[j] == y[j - ys] by {}
    lemma_ident_char(x[0]);
    lemma_ident_char(y[y.len() - 1]);
    assert(s[0] == x[0]);
    assert(s.last() == y[y.len() - 1]);
    lemma_trim_start_keep(s);
    lemma_trim_end_keep(s);
    assert forall|j: int| 0 <= j < xe implies is_ident(#[trigger] s[j]) by {
        assert(s[j] == x[j]);
    }
    assert(is_scan_space(blank[0]));
    lemma_tag_compound_at(s, 0, xe);
    assert(s.subrange(0, xe) =~= x);
    lemma_ident_char(x[xe - 1]);
    assert(!stops_inside_character(s, xe));
    assert forall|j: int| xe <= j < ys implies is_scan_space(#[trigger] s[j]) by {
        assert(is_scan_space(blank[j - xe]));
    }
    lemma_ident_char(y[0]);
    assert(s[ys] == y[0]);
    lemma_skip_ws_to(s, xe, ys);
    assert forall|j: int| ys <= j < n implies is_ident(#[trigger] s[j]) by {
        assert(s[j] == y[j - ys]);
    }
    lemma_tag_compound_at(s, ys, n);
    assert(s.subrange(ys, n) =~= y);
    assert(!stops_inside_character(s, n));
    lemma_skip_ws_to(s, n, n);
    let done = SComplex {
        compounds: seq![tag_compound(x)].push(tag_compound(y)),
        combinators: Seq::<Combinator>::empty().push(Combinator::Descendant),
    };
    assert(parse_complex_tail(s, n, done.compounds, done.combinators) == done);
    assert(done.compounds =~= seq![tag_compound(x), tag_compound(y)]);
    assert(done.combinators =~= seq![Combinator::Descendant]);
}

/// What the whitespace skip passed over was whitespace.
proof fn lemma_skip_ws_passed(s: Seq<char>, p: int)
    requires
        0 <= p <= s.len(),
    ensures
        p <= skip_ws(s, p) <= s.len(),
        skip_ws(s, p) > p ==> is_scan_space(s[skip_ws(s, p) - 1]),
    decreases s.len() - p,
{
    if p < s.len() && is_scan_space(s[p]) {
        lemma_skip_ws_passed(s, p + 1);
    }
}

/// Law: in any complex selector, the whitespace in front of a combinator
/// symbol (`>`, `+` or `~`) changes nothing: reading the rest of the
/// selector from before that whitespace gives the same selector as
/// reading it from the symbol itself.
pub proof fn law_space_before_combinator_is_ignored(
    s: Seq<char>,
    pos: int,
    compounds: Seq<SCompound>,
    combinators: Seq<Combinator>,
)
    requires
        0 <= pos <= s.len(),
        !stops_inside_character(s, pos),
        skip_ws(s, pos) < s.len(),
        s[skip_ws(s, pos)] == '>' || s[skip_ws(s, pos)] == '+' || s[skip_ws(s, pos)] == '~',
    ensures
        parse_complex_tail(s, pos, compounds, combinators) == parse_complex_tail(
            s,
            skip_ws(s, pos),
            compounds,
            combinators,
        ),
{
    let aw = skip_ws(s, pos);
    lemma_skip_ws_passed(s, pos);
    lemma_skip_ws_to(s, aw, aw);
    if aw > pos {
        assert(!stops_inside_character(s, aw));
    }
}

/// `.a.b.c` starts with its first class.
proof fn lemma_dotted_first(ws: Seq<Seq<char>>)
    requires
        ws.len() > 0,
    ensures
        dotted(ws) == seq!['.'] + ws[0] + dotted(ws.drop_first()),
    decreases ws.len(),
{
    if ws.len() == 1 {
        assert(ws.drop_first() =~= Seq::<Seq<char>>::empty());
        assert(ws.drop_last() =~= Seq::<Seq<char>>::empty());
        assert(dotted(ws) =~= seq!['.'] + ws[0]);
    } else {
        lemma_dotted_first(ws.drop_last());
        assert(ws.drop_last()[0] == ws[0]);
        assert(ws.drop_last().drop_first() =~= ws.drop_first().drop_last());
        assert(ws.drop_first().last() == ws.last());
        assert(dotted(ws) =~= seq!['.'] + ws[0] + dotted(ws.drop_first()));
    }
}

/// Every character of `.a.b.c`, for identifier classes, is a dot or an
/// identifier character, and the last is an identifier character.
proof fn lemma_dotted_chars(ws: Seq<Seq<char>>)
    requires
        forall|i: int| 0 <= i < ws.len() ==> is_ident_text(#[trigger] ws[i]),
    ensures
        forall|j: int| 0 <= j < dotted(ws).len() ==> #[trigger] dotted(ws)[j] == '.' || is_ident(dotted(ws)[j]),
        ws.len() > 0 ==> dotted(ws).len() > 0 && is_ident(dotted(ws).last()) && dotted(ws)[0] == '.',
    decreases ws.len(),
{
    if ws.len() > 0 {
        let init = ws.drop_last();
        assert forall|i: int| 0 <= i < init.len() implies is_ident_text(#[trigger] init[i]) by {
            assert(init[i] == ws[i]);
        }
        lemma_dotted_chars(init);
        let l = ws.last();
        assert(is_ident_text(ws[ws.len() - 1]));
        let d = dotted(ws);
        assert(d == dotted(init) + seq!['.'] + l);
        assert forall|j: int| 0 <= j < d.len() implies #[trigger] d[j] == '.' || is_ident(d[j]) by {
            if j > dotted(init).len() {
                assert(d[j] == l[j - dotted(init).len() - 1]);
            }
        }
        assert(d.last() == l[l.len() - 1]);
        if init.len() == 0 {
            assert(dotted(init).len() == 0);
        }
    }
}

/// Reading `.a.b.c` (after any text) as part of a compound adds the
/// classes `a`, `b`, `c` in order and reaches the end.
proof fn lemma_read_classes(pre: Seq<char>, ws: Seq<Seq<char>>, acc: SCompound)
    requires
        forall|i: int| 0 <= i < ws.len() ==> is_ident_text(#[trigger] ws[i]),
    ensures
        parse_compound_from(pre + dotted(ws), pre.len() as int, acc) == (
            SCompound { classes: acc.classes + ws, ..acc },
            (pre + dotted(ws)).len() as int,
        ),
    decreases ws.len(),
{
    let s = pre + dotted(ws);
    let p = pre.len() as int;
    if ws.len() == 0 {
        assert(dotted(ws).len() == 0);
        assert(acc.classes + ws =~= acc.classes);
    } else {
        lemma_dotted_first(ws);
        let w = ws[0];
        let rest = ws.drop_first();
        assert(is_ident_text(w));
        assert forall|i: int| 0 <= i < rest.len() implies is_ident_text(#[trigger] rest[i]) by {
            assert(rest[i] == ws[i + 1]);
        }
        let pre2 = pre + seq!['.'] + w;
        assert(s =~= pre2 + dotted(rest));
        let q = pre2.len() as int;
        assert(s[p] == '.');
        assert forall|j: int| p + 1 <= j < q implies is_ident(#[trigger] s[j]) by {
            assert(s[j] == w[j - p - 1]);
        }
        if q < s.len() {
            lemma_dotted_first(rest);
            assert(s[q] == dotted(rest)[0]);
        }
        lemma_scan_ident_to(s, p + 1, q);
        assert(ident_string(s, p + 1, q) =~= w);
        lemma_read_classes(pre2, rest, with_class(acc, w));
        assert(acc.classes.push(w) + rest =~= acc.classes + ws);
    }
}

/// Law: `getElementsByClassName(names)`, when every whitespace-separated
/// name is a plain class name (identifier characters), searches with one
/// compound whose only conditions are exactly those classes, in order:
/// an element is found exactly when it carries every one of them.
pub proof fn law_class_names_select_every_class(names: Seq<char>)
    requires
        words(names).len() > 0,
        forall|i: int| 0 <= i < words(names).len() ==> is_ident_text(#[trigger] words(names)[i]),
    ensures
        class_selector(names) matches Some(sel) && parse_selector_list(sel) == seq![
            SComplex {
                compounds: seq![SCompound { classes: words(names), ..empty_compound() }],
                combinators: Seq::empty(),
            },
        ],
{
    let ws = words(names);
    let s = dotted(ws);
    lemma_dotted_chars(ws);
    // the text is one piece, already trimmed
    assert forall|j: int| 0 <= j < s.len() implies #[trigger] s[j] != ',' by {
        assert(s[j] == '.' || is_ident(s[j]));
    }
    lemma_split_none(s, ',');
    lemma_ident_char(s.last());
    assert(!is_unicode_space(s[0]));
    lemma_trim_start_keep(s);
    lemma_trim_end_keep(s);
    assert(trim(s) == s);
    // one compound holding every class
    lemma_read_classes(Seq::empty(), ws, empty_compound());
    assert(Seq::<char>::empty() + s =~= s);
    let c = SCompound { classes: empty_compound().classes + ws, ..empty_compound() };
    assert(empty_compound().classes + ws =~= ws);
    lemma_ident_char(s[s.len() - 1]);
    assert(!stops_inside_character(s, s.len() as int));
    lemma_skip_ws_to(s, s.len() as int, s.len() as int);
    assert(parse_complex_selector(s) == SComplex { compounds: seq![c], combinators: Seq::<Combinator>::empty() });
    let pieces = split(s, ',');
    assert(pieces.drop_last() =~= Seq::<Seq<char>>::empty());
    assert(pieces.last() == s);
    assert(trim(pieces.last()).len() > 0);
    assert(trim(trim(s)) == s);
    assert(parse_pieces(pieces.drop_last()) == Seq::<SComplex>::empty());
    assert(parse_pieces(pieces) == Seq::<SComplex>::empty().push(parse_complex_selector(trim(pieces.last()))));
    assert(parse_pieces(pieces) =~= seq![parse_complex_selector(trim(s))]);
}

} // verus!
