//! What survives a trip through the inline-style text: an element's style
//! is rendered into a `style` attribute when the tree is extracted and
//! parsed back when a tree is built, and property names go from camelCase
//! to kebab-case and back.

use vstd::prelude::*;
use crate::inline_style::{
    camel_join, kebab_piece, parse_declaration, parse_declarations, render_declaration,
    spec_camel_to_kebab, spec_capitalize_first, spec_kebab_to_camel, spec_parse_inline_style,
    spec_serialize_inline_style,
};
use crate::text::{
    first_index, is_ascii_lower, is_ascii_upper, is_first_index, is_unicode_space, join,
    lemma_first_index, lemma_split_nonempty, lower, lower_seq, split, split_once, trim, trim_end,
    trim_start, upper,
};

verus! {

/// A camelCase property name as scripts write them: no `-`, `:`, `;` or
/// whitespace, and no ASCII capital in front.
pub open spec fn is_style_name(n: Seq<char>) -> bool {
    &&& forall|j: int| 0 <= j < n.len() ==> is_name_char(#[trigger] n[j])
    &&& (n.len() == 0 || !is_ascii_upper(n[0]))
}

/// A name without `-` whose first character is not an ASCII capital: what
/// turns into kebab-case and back unchanged.
pub open spec fn is_camel_name(n: Seq<char>) -> bool {
    &&& forall|j: int| 0 <= j < n.len() ==> #[trigger] n[j] != '-'
    &&& (n.len() == 0 || !is_ascii_upper(n[0]))
}

pub open spec fn all_name_chars(n: Seq<char>) -> bool {
    forall|j: int| 0 <= j < n.len() ==> is_name_char(#[trigger] n[j])
}

pub open spec fn is_name_char(c: char) -> bool {
    c != '-' && c != ':' && c != ';' && !is_unicode_space(c)
}

/// A property value with no `;` and no whitespace at either end.
pub open spec fn is_style_value(v: Seq<char>) -> bool {
    &&& forall|j: int| 0 <= j < v.len() ==> #[trigger] v[j] != ';'
    &&& (v.len() == 0 || (!is_unicode_space(v[0]) && !is_unicode_space(v.last())))
}

proof fn lemma_lower_upper(c: char)
    requires
        is_ascii_upper(c),
    ensures
        is_ascii_lower(lower(c)),
        upper(lower(c)) == c,
{
}

proof fn lemma_lower_letter_is_name_char(c: char)
    requires
        is_ascii_lower(c),
    ensures
        is_name_char(c),
{
}

/// Appending a character other than the separator extends the last piece.
proof fn lemma_split_push(a: Seq<char>, c: char, sep: char)
    requires
        c != sep,
    ensures
        split(a.push(c), sep) == split(a, sep).update(split(a, sep).len() - 1, split(a, sep).last().push(c)),
{
    assert(a.push(c).drop_last() == a);
}

/// A separator followed by text without one adds that text as a new piece.
pub proof fn lemma_split_sep_then(a: Seq<char>, b: Seq<char>, sep: char)
    requires
        forall|j: int| 0 <= j < b.len() ==> #[trigger] b[j] != sep,
    ensures
        split(a + seq![sep] + b, sep) == split(a, sep).push(b),
    decreases b.len(),
{
    let s = a + seq![sep] + b;
    if b.len() == 0 {
        assert(s == a.push(sep));
        assert(a.push(sep).drop_last() == a);
        assert(b == Seq::<char>::empty());
    } else {
        let b2 = b.drop_last();
        assert forall|j: int| 0 <= j < b2.len() implies #[trigger] b2[j] != sep by {
            assert(b2[j] == b[j]);
        }
        lemma_split_sep_then(a, b2, sep);
        assert(s == (a + seq![sep] + b2).push(b.last()));
        lemma_split_push(a + seq![sep] + b2, b.last(), sep);
        lemma_split_nonempty(a, sep);
        assert(b2.push(b.last()) =~= b);
        assert(split(a, sep).push(b2).update(split(a, sep).len() as int, b2.push(b.last()))
            =~= split(a, sep).push(b));
    }
}

/// Text without the separator is a single piece.
pub proof fn lemma_split_none(b: Seq<char>, sep: char)
    requires
        forall|j: int| 0 <= j < b.len() ==> #[trigger] b[j] != sep,
    ensures
        split(b, sep) == seq![b],
    decreases b.len(),
{
    if b.len() > 0 {
        let b2 = b.drop_last();
        assert forall|j: int| 0 <= j < b2.len() implies #[trigger] b2[j] != sep by {
            assert(b2[j] == b[j]);
        }
        lemma_split_none(b2, sep);
        assert(b2.push(b.last()) == b);
        lemma_split_push(b2, b.last(), sep);
        assert(seq![b2].update(0, b2.push(b.last())) =~= seq![b]);
    } else {
        assert(b == Seq::<char>::empty());
    }
}

/// The last piece of a split is not empty when the text ends in something
/// other than the separator.
proof fn lemma_split_last_nonempty(s: Seq<char>, sep: char)
    requires
        s.len() > 0,
        s.last() != sep,
    ensures
        split(s, sep).last().len() > 0,
{
    lemma_split_nonempty(s.drop_last(), sep);
    assert(s.drop_last().push(s.last()) == s);
    lemma_split_push(s.drop_last(), s.last(), sep);
}

proof fn lemma_lower_seq_push(s: Seq<char>, c: char)
    ensures
        lower_seq(s.push(c)) == lower_seq(s).push(lower(c)),
{
    assert(lower_seq(s.push(c)) =~= lower_seq(s).push(lower(c)));
}

proof fn lemma_capitalize_push(seg: Seq<char>, c: char)
    requires
        seg.len() > 0,
    ensures
        spec_capitalize_first(seg.push(c)) == spec_capitalize_first(seg).push(lower(c)),
{
    assert(seg.push(c)[0] == seg[0]);
    assert(seg.push(c).drop_first() == seg.drop_first().push(c));
    lemma_lower_seq_push(seg.drop_first(), c);
    assert(seq![upper(seg[0])] + lower_seq(seg.drop_first()).push(lower(c))
        =~= (seq![upper(seg[0])] + lower_seq(seg.drop_first())).push(lower(c)));
}

/// Kebab-case of a property name: made of name characters and `-`, ending
/// in a name character, and read back by `kebab_to_camel` as the name.
proof fn lemma_style_name_is_camel(n: Seq<char>)
    requires
        is_style_name(n),
    ensures
        is_camel_name(n),
        all_name_chars(n),
{
    assert forall|j: int| 0 <= j < n.len() implies #[trigger] n[j] != '-' by {
        assert(is_name_char(n[j]));
    }
}

proof fn lemma_camel_kebab(n: Seq<char>)
    requires
        is_camel_name(n),
    ensures
        spec_kebab_to_camel(spec_camel_to_kebab(n)) == n,
        n.len() == 0 ==> spec_camel_to_kebab(n).len() == 0,
        n.len() > 0 ==> spec_camel_to_kebab(n).len() > 0 && spec_camel_to_kebab(n).last() != '-',
        all_name_chars(n) ==> forall|j: int| 0 <= j < spec_camel_to_kebab(n).len() ==> {
            let k = #[trigger] spec_camel_to_kebab(n)[j];
            k == '-' || is_name_char(k)
        },
        all_name_chars(n) && n.len() > 0 ==> is_name_char(spec_camel_to_kebab(n).last()),
    decreases n.len(),
{
    let k = spec_camel_to_kebab(n);
    if n.len() == 0 {
        assert(split(k, '-') == seq![Seq::<char>::empty()]);
        assert(lower_seq(Seq::<char>::empty()) =~= Seq::<char>::empty());
    } else {
        let n2 = n.drop_last();
        let c = n.last();
        let i = n.len() - 1;
        assert(n[i] != '-');
        assert(is_camel_name(n2)) by {
            assert forall|j: int| 0 <= j < n2.len() implies #[trigger] n2[j] != '-' by {
                assert(n2[j] == n[j]);
            }
            if n2.len() > 0 {
                assert(n2[0] == n[0]);
            }
        }
        if all_name_chars(n) {
            assert(all_name_chars(n2)) by {
                assert forall|j: int| 0 <= j < n2.len() implies is_name_char(#[trigger] n2[j]) by {
                    assert(n2[j] == n[j]);
                }
            }
            assert(is_name_char(n[i]));
        }
        lemma_camel_kebab(n2);
        let k2 = spec_camel_to_kebab(n2);
        assert(k == k2 + kebab_piece(c, i));
        let r = split(k2, '-');
        lemma_split_nonempty(k2, '-');
        if is_ascii_upper(c) && i > 0 {
            lemma_lower_upper(c);
            lemma_lower_letter_is_name_char(lower(c));
            assert(kebab_piece(c, i) == seq!['-', lower(c)]);
            assert(k == k2 + seq!['-'] + seq![lower(c)]);
            lemma_split_sep_then(k2, seq![lower(c)], '-');
            let r2 = r.push(seq![lower(c)]);
            assert(r2.drop_last() == r);
            assert(r2.last() == seq![lower(c)]);
            assert(spec_capitalize_first(seq![lower(c)]) =~= seq![c]);
            assert(camel_join(r2) == camel_join(r) + seq![c]);
            assert(n2 + seq![c] =~= n);
        } else {
            if i == 0 {
                assert(!is_ascii_upper(c));
            }
            assert(lower(c) == c);
            assert(kebab_piece(c, i) == seq![c]);
            assert(k == k2.push(c));
            lemma_split_push(k2, c, '-');
            let r2 = r.update(r.len() - 1, r.last().push(c));
            if r.len() == 1 {
                assert(r2 =~= seq![r[0].push(c)]);
                lemma_lower_seq_push(r[0], c);
                assert(camel_join(r) == lower_seq(r[0]));
            } else {
                assert(k2.len() > 0);
                lemma_split_last_nonempty(k2, '-');
                lemma_capitalize_push(r.last(), c);
                assert(r2.drop_last() =~= r.drop_last());
                assert(r2.last() == r.last().push(c));
            }
            assert(n2.push(c) =~= n);
        }
        if all_name_chars(n) {
            assert forall|j: int| 0 <= j < k.len() implies {
                let x = #[trigger] k[j];
                x == '-' || is_name_char(x)
            } by {
                if j < k2.len() {
                    assert(k[j] == k2[j]);
                } else if is_ascii_upper(c) && i > 0 {
                    lemma_lower_upper(c);
                    lemma_lower_letter_is_name_char(lower(c));
                }
            }
        }
        if is_ascii_upper(c) && i > 0 {
            lemma_lower_upper(c);
            lemma_lower_letter_is_name_char(lower(c));
        }
    }
}

/// A name without `-` whose first character is not an ASCII capital,
/// turned into kebab-case and back, is the same name.
pub proof fn law_kebab_camel_round_trip(n: Seq<char>)
    requires
        is_camel_name(n),
    ensures
        spec_kebab_to_camel(spec_camel_to_kebab(n)) == n,
{
    lemma_camel_kebab(n);
}

pub proof fn lemma_trim_start_keep(s: Seq<char>)
    requires
        s.len() == 0 || !is_unicode_space(s[0]),
    ensures
        trim_start(s) == s,
{
}

pub proof fn lemma_trim_end_keep(s: Seq<char>)
    requires
        s.len() == 0 || !is_unicode_space(s.last()),
    ensures
        trim_end(s) == s,
{
}

/// One rendered declaration, with or without the space that follows a `;`
/// in front of it, parses back to its pair.
proof fn lemma_declaration_round_trip(lead: Seq<char>, n: Seq<char>, v: Seq<char>)
    requires
        lead == Seq::<char>::empty() || lead == seq![' '],
        is_style_name(n),
        is_style_value(v),
    ensures
        parse_declaration(lead + render_declaration((n, v))) == Some((n, v)),
{
    lemma_style_name_is_camel(n);
    lemma_camel_kebab(n);
    let k = spec_camel_to_kebab(n);
    let e = k + seq![':', ' '] + v;
    let d = lead + e;
    assert(render_declaration((n, v)) == e);
    assert(!is_unicode_space(e[0])) by {
        if k.len() > 0 {
            assert(e[0] == k[0]);
            let x = k[0];
            assert(x == '-' || is_name_char(x));
        } else {
            assert(e[0] == ':');
        }
    }
    lemma_trim_start_keep(e);
    if lead.len() > 0 {
        assert(d[0] == ' ');
        assert(d.drop_first() =~= e);
    } else {
        assert(d =~= e);
    }
    assert(trim_start(d) == e);
    let rest: Seq<char> = if v.len() == 0 { Seq::empty() } else { seq![' '] + v };
    let t = k + seq![':'] + rest;
    let kc = k + seq![':'];
    if v.len() == 0 {
        assert(e =~= kc.push(' '));
        assert(e.drop_last() =~= kc);
        assert(kc.last() == ':');
        lemma_trim_end_keep(kc);
        assert(t =~= kc);
    } else {
        assert(e.last() == v.last());
        lemma_trim_end_keep(e);
        assert(t =~= e);
    }
    assert(trim(d) == t);
    assert(is_first_index(t, ':', k.len() as int)) by {
        assert(t[k.len() as int] == ':');
        assert forall|j: int| 0 <= j < k.len() implies t[j] != ':' by {
            assert(t[j] == k[j]);
            let x = k[j];
            assert(x == '-' || is_name_char(x));
        }
    }
    lemma_first_index(t, ':', k.len() as int);
    assert(t.take(k.len() as int) =~= k);
    assert(t.skip(k.len() as int + 1) =~= rest);
    if k.len() > 0 {
        let x = k[0];
        let y = k[k.len() - 1];
        assert(x == '-' || is_name_char(x));
        assert(y == '-' || is_name_char(y));
    }
    lemma_trim_start_keep(k);
    lemma_trim_end_keep(k);
    assert(trim(k) == k);
    if v.len() > 0 {
        assert(rest[0] == ' ');
        assert(rest.drop_first() =~= v);
        lemma_trim_start_keep(v);
        lemma_trim_end_keep(v);
        assert(trim_start(rest) == v);
    } else {
        assert(rest =~= Seq::<char>::empty());
    }
    assert(trim(rest) == v);
}

/// The pieces that splitting `parts` joined by `"; "` on `;` gives back:
/// the first part, then each later part behind a space.
pub open spec fn leading_spaced(parts: Seq<Seq<char>>) -> Seq<Seq<char>> {
    Seq::new(parts.len(), |i: int| if i == 0 { parts[0] } else { seq![' '] + parts[i] })
}

pub proof fn lemma_split_join(rs: Seq<Seq<char>>)
    requires
        rs.len() > 0,
        forall|i: int, j: int| 0 <= i < rs.len() && 0 <= j < rs[i].len() ==> #[trigger] rs[i][j] != ';',
    ensures
        split(join(rs, seq![';', ' ']), ';') == leading_spaced(rs),
    decreases rs.len(),
{
    let sep = seq![';', ' '];
    if rs.len() == 1 {
        assert forall|j: int| 0 <= j < rs[0].len() implies #[trigger] rs[0][j] != ';' by {
            assert(rs[0][j] != ';');
        }
        lemma_split_none(rs[0], ';');
        assert(leading_spaced(rs) =~= seq![rs[0]]);
    } else {
        let init = rs.drop_last();
        assert forall|i: int, j: int| 0 <= i < init.len() && 0 <= j < init[i].len() implies #[trigger] init[i][j] != ';' by {
            assert(init[i] == rs[i]);
            assert(rs[i][j] != ';');
        }
        lemma_split_join(init);
        let tail = seq![' '] + rs.last();
        assert forall|j: int| 0 <= j < tail.len() implies #[trigger] tail[j] != ';' by {
            if j > 0 {
                assert(tail[j] == rs[rs.len() - 1][j - 1]);
            }
        }
        assert(join(rs, sep) == join(init, sep) + sep + rs.last());
        assert(join(init, sep) + sep + rs.last() =~= join(init, sep) + seq![';'] + tail);
        lemma_split_sep_then(join(init, sep), tail, ';');
        assert(leading_spaced(init).push(tail) =~= leading_spaced(rs));
    }
}

/// Every name is a camelCase property name and every value is free of `;`
/// and of surrounding whitespace.
pub open spec fn is_style_list(props: Seq<(Seq<char>, Seq<char>)>) -> bool {
    forall|i: int| 0 <= i < props.len() ==> is_style_name(#[trigger] props[i].0) && is_style_value(props[i].1)
}

/// Each declaration rendered as `kebab-name: value`.
pub open spec fn rendered(props: Seq<(Seq<char>, Seq<char>)>) -> Seq<Seq<char>> {
    Seq::new(props.len(), |i: int| render_declaration(props[i]))
}

proof fn lemma_parse_pieces(props: Seq<(Seq<char>, Seq<char>)>)
    requires
        props.len() > 0,
        is_style_list(props),
    ensures
        parse_declarations(leading_spaced(rendered(props))) == props,
    decreases props.len(),
{
    let ps = leading_spaced(rendered(props));
    let last = props[props.len() - 1];
    assert(is_style_name(last.0) && is_style_value(last.1));
    assert(last == (last.0, last.1));
    if props.len() == 1 {
        assert(ps.drop_last() =~= Seq::<Seq<char>>::empty());
        assert(parse_declarations(ps.drop_last()) =~= Seq::<(Seq<char>, Seq<char>)>::empty());
        lemma_declaration_round_trip(Seq::empty(), last.0, last.1);
        assert(ps.last() =~= Seq::<char>::empty() + render_declaration((last.0, last.1)));
        assert(Seq::<(Seq<char>, Seq<char>)>::empty().push(last) =~= props);
    } else {
        let init = props.drop_last();
        assert(is_style_list(init)) by {
            assert forall|i: int| 0 <= i < init.len() implies is_style_name(#[trigger] init[i].0) && is_style_value(init[i].1) by {
                assert(init[i] == props[i]);
            }
        }
        lemma_parse_pieces(init);
        assert(ps.drop_last() =~= leading_spaced(rendered(init)));
        lemma_declaration_round_trip(seq![' '], last.0, last.1);
        assert(ps.last() =~= seq![' '] + render_declaration((last.0, last.1)));
        assert(init.push(last) =~= props);
    }
}

/// Rendering inline style declarations and parsing the text back gives the
/// declarations again, in order, when every name is a camelCase property
/// name and no value holds `;` or starts or ends with whitespace.
pub proof fn law_style_round_trip(props: Seq<(Seq<char>, Seq<char>)>)
    requires
        is_style_list(props),
    ensures
        spec_parse_inline_style(spec_serialize_inline_style(props)) == props,
{
    let rs = rendered(props);
    assert(rs =~= props.map_values(|p: (Seq<char>, Seq<char>)| render_declaration(p)));
    assert(spec_serialize_inline_style(props) == join(rs, seq![';', ' ']));
    if props.len() == 0 {
        let empty = Seq::<char>::empty();
        assert(join(rs, seq![';', ' ']) == empty);
        assert(split(empty, ';') == seq![empty]);
        assert(seq![empty].drop_last() =~= Seq::<Seq<char>>::empty());
        assert(parse_declarations(seq![empty].drop_last()) =~= Seq::<(Seq<char>, Seq<char>)>::empty());
        assert(trim_start(empty) == empty);
        assert(trim_end(empty) == empty);
        assert(parse_declaration(empty) is None);
        assert(parse_declarations(seq![empty]) =~= Seq::<(Seq<char>, Seq<char>)>::empty());
        assert(props =~= Seq::<(Seq<char>, Seq<char>)>::empty());
    } else {
        assert forall|i: int, j: int| 0 <= i < rs.len() && 0 <= j < rs[i].len() implies #[trigger] rs[i][j] != ';' by {
            let p = props[i];
            assert(is_style_name(p.0) && is_style_value(p.1));
            lemma_style_name_is_camel(p.0);
            lemma_camel_kebab(p.0);
            let k = spec_camel_to_kebab(p.0);
            assert(rs[i] == k + seq![':', ' '] + p.1);
            if j < k.len() {
                assert(rs[i][j] == k[j]);
                let x = k[j];
                assert(x == '-' || is_name_char(x));
            } else if j >= k.len() + 2 {
                assert(rs[i][j] == p.1[j - k.len() - 2]);
            }
        }
        lemma_split_join(rs);
        lemma_parse_pieces(props);
    }
}

pub open spec fn is_ascii_digit(c: char) -> bool {
    '0' <= c && c <= '9'
}

/// One dash-separated segment of a kebab-case name: not empty, made of
/// ASCII lower-case letters and digits, and, after the first segment,
/// starting with a letter.
pub open spec fn is_kebab_segment(s: Seq<char>, first: bool) -> bool {
    &&& s.len() > 0
    &&& forall|j: int| 0 <= j < s.len() ==> is_ascii_lower(#[trigger] s[j]) || is_ascii_digit(s[j])
    &&& (first || is_ascii_lower(s[0]))
}

/// A kebab-case property name as style sheets write them.
pub open spec fn is_kebab_name(k: Seq<char>) -> bool {
    forall|i: int| 0 <= i < split(k, '-').len() ==> is_kebab_segment(#[trigger] split(k, '-')[i], i == 0)
}

/// What `camel_to_kebab` emits for `b` when `b` does not stand at the start.
pub open spec fn kebab_tail(b: Seq<char>) -> Seq<char>
    decreases b.len(),
{
    if b.len() == 0 {
        Seq::empty()
    } else {
        kebab_tail(b.drop_last()) + kebab_piece(b.last(), 1)
    }
}

pub open spec fn no_capitals(s: Seq<char>) -> bool {
    forall|j: int| 0 <= j < s.len() ==> !is_ascii_upper(#[trigger] s[j])
}

proof fn lemma_upper_lower(c: char)
    requires
        is_ascii_lower(c),
    ensures
        is_ascii_upper(upper(c)),
        lower(upper(c)) == c,
{
}

proof fn lemma_kebab_append(a: Seq<char>, b: Seq<char>)
    requires
        a.len() > 0,
    ensures
        spec_camel_to_kebab(a + b) == spec_camel_to_kebab(a) + kebab_tail(b),
    decreases b.len(),
{
    if b.len() == 0 {
        assert(a + b =~= a);
        assert(spec_camel_to_kebab(a) + kebab_tail(b) =~= spec_camel_to_kebab(a));
    } else {
        let b2 = b.drop_last();
        lemma_kebab_append(a, b2);
        assert((a + b).drop_last() =~= a + b2);
        assert((a + b).last() == b.last());
        assert(kebab_piece(b.last(), (a + b).len() - 1) == kebab_piece(b.last(), 1));
        assert(spec_camel_to_kebab(a) + kebab_tail(b2) + kebab_piece(b.last(), 1)
            =~= spec_camel_to_kebab(a) + kebab_tail(b));
    }
}

proof fn lemma_tail_append(x: Seq<char>, y: Seq<char>)
    ensures
        kebab_tail(x + y) == kebab_tail(x) + kebab_tail(y),
    decreases y.len(),
{
    if y.len() == 0 {
        assert(x + y =~= x);
        assert(kebab_tail(x) + kebab_tail(y) =~= kebab_tail(x));
    } else {
        let y2 = y.drop_last();
        lemma_tail_append(x, y2);
        assert((x + y).drop_last() =~= x + y2);
        assert((x + y).last() == y.last());
        assert(kebab_tail(x) + kebab_tail(y2) + kebab_piece(y.last(), 1) =~= kebab_tail(x) + kebab_tail(y));
    }
}

proof fn lemma_plain(s: Seq<char>)
    requires
        no_capitals(s),
    ensures
        kebab_tail(s) == s,
        spec_camel_to_kebab(s) == s,
        lower_seq(s) == s,
    decreases s.len(),
{
    assert(lower_seq(s) =~= s) by {
        assert forall|j: int| 0 <= j < s.len() implies lower_seq(s)[j] == s[j] by {
            assert(!is_ascii_upper(s[j]));
        }
    }
    if s.len() > 0 {
        let s2 = s.drop_last();
        assert(no_capitals(s2)) by {
            assert forall|j: int| 0 <= j < s2.len() implies !is_ascii_upper(#[trigger] s2[j]) by {
                assert(s2[j] == s[j]);
            }
        }
        lemma_plain(s2);
        assert(!is_ascii_upper(s.last()));
        assert(s2.push(s.last()) =~= s);
    }
}

/// Joining a kebab name's segments back with `-` gives the name.
proof fn lemma_join_split(k: Seq<char>, sep: char)
    ensures
        join(split(k, sep), seq![sep]) == k,
    decreases k.len(),
{
    if k.len() > 0 {
        let k2 = k.drop_last();
        lemma_join_split(k2, sep);
        lemma_split_nonempty(k2, sep);
        let r = split(k2, sep);
        assert(k2.push(k.last()) =~= k);
        if k.last() == sep {
            assert(split(k, sep) == r.push(Seq::<char>::empty()));
            assert(r.push(Seq::<char>::empty()).drop_last() =~= r);
            assert(join(r, seq![sep]) + seq![sep] + Seq::<char>::empty() =~= k);
        } else {
            lemma_split_push(k2, k.last(), sep);
            let r2 = r.update(r.len() - 1, r.last().push(k.last()));
            if r.len() == 1 {
                assert(r2 =~= seq![r[0].push(k.last())]);
            } else {
                assert(r2.drop_last() =~= r.drop_last());
                assert(join(r2.drop_last(), seq![sep]) + seq![sep] + r2.last()
                    =~= (join(r.drop_last(), seq![sep]) + seq![sep] + r.last()).push(k.last()));
            }
        }
    }
}

/// The camelCase of valid segments turns back into the segments joined by
/// `-`.
proof fn lemma_segments_round_trip(segs: Seq<Seq<char>>)
    requires
        segs.len() > 0,
        forall|i: int| 0 <= i < segs.len() ==> is_kebab_segment(#[trigger] segs[i], i == 0),
    ensures
        spec_camel_to_kebab(camel_join(segs)) == join(segs, seq!['-']),
        camel_join(segs).len() > 0,
    decreases segs.len(),
{
    let s0 = segs[0];
    assert(is_kebab_segment(s0, true));
    if segs.len() == 1 {
        assert(no_capitals(s0)) by {
            assert forall|j: int| 0 <= j < s0.len() implies !is_ascii_upper(#[trigger] s0[j]) by {
                assert(is_ascii_lower(s0[j]) || is_ascii_digit(s0[j]));
            }
        }
        lemma_plain(s0);
    } else {
        let init = segs.drop_last();
        let last = segs.last();
        assert(is_kebab_segment(last, false)) by {
            assert(last == segs[segs.len() - 1]);
        }
        assert forall|i: int| 0 <= i < init.len() implies is_kebab_segment(#[trigger] init[i], i == 0) by {
            assert(init[i] == segs[i]);
        }
        lemma_segments_round_trip(init);
        let a = camel_join(init);
        let rest = last.drop_first();
        assert(no_capitals(rest)) by {
            assert forall|j: int| 0 <= j < rest.len() implies !is_ascii_upper(#[trigger] rest[j]) by {
                assert(rest[j] == last[j + 1]);
                assert(is_ascii_lower(last[j + 1]) || is_ascii_digit(last[j + 1]));
            }
        }
        lemma_plain(rest);
        let u = upper(last[0]);
        lemma_upper_lower(last[0]);
        let b = spec_capitalize_first(last);
        assert(b == seq![u] + rest);
        assert(camel_join(segs) == a + b);
        lemma_kebab_append(a, b);
        lemma_tail_append(seq![u], rest);
        assert(seq![u].drop_last() =~= Seq::<char>::empty());
        assert(kebab_tail(Seq::<char>::empty()) == Seq::<char>::empty());
        assert(seq![u].last() == u);
        assert(kebab_piece(u, 1) == seq!['-', lower(u)]);
        assert(kebab_tail(seq![u]) == kebab_tail(seq![u].drop_last()) + kebab_piece(u, 1));
        assert(kebab_tail(seq![u]) =~= seq!['-', last[0]]);
        assert(last =~= seq![last[0]] + rest);
        assert(join(segs, seq!['-']) == join(init, seq!['-']) + seq!['-'] + last);
        assert(join(init, seq!['-']) + seq!['-', last[0]] + rest =~= join(init, seq!['-']) + seq!['-'] + last);
    }
}

/// A kebab-case property name (lower-case letters and digits in
/// non-empty dash-separated segments, each after the first starting with a
/// letter) turned into camelCase and back is the same name.
pub proof fn law_camel_kebab_round_trip(k: Seq<char>)
    requires
        is_kebab_name(k),
    ensures
        spec_camel_to_kebab(spec_kebab_to_camel(k)) == k,
{
    let segs = split(k, '-');
    lemma_split_nonempty(k, '-');
    assert forall|i: int| 0 <= i < segs.len() implies is_kebab_segment(#[trigger] segs[i], i == 0) by {
        assert(is_kebab_segment(split(k, '-')[i], i == 0));
    }
    lemma_segments_round_trip(segs);
    lemma_join_split(k, '-');
}

} // verus!
