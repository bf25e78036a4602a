//! Inline `style="..."` attribute parsing and serialisation.
//!
//! Parsing splits the attribute text on `;`, drops blank declarations and
//! declarations without a `:`, and turns each kebab-case property name into
//! the camelCase key that script dot-notation uses (`font-size` becomes
//! `fontSize`).  Serialisation renders the pairs back as
//! `kebab-name: value` joined by `"; "`.

use vstd::prelude::*;
use crate::strmap::pair_views;
use crate::text::{
    append_chars, chars_of, is_ascii_upper, join, join_exec, lower, lower_chars, lower_exec, lower_seq,
    slice_range, split, split_exec, split_once, split_once_exec, string_of, trim, trim_exec, upper,
    upper_exec, views,
};

verus! {


/// First character upper-cased, the rest lower-cased (ASCII only).
pub open spec fn spec_capitalize_first(s: Seq<char>) -> Seq<char> {
    if s.len() == 0 {
        s
    } else {
        seq![upper(s[0])] + lower_seq(s.drop_first())
    }
}

/// The camelCase rendering of dash-separated segments: the first segment
/// lower-cased, every later one capitalised, all concatenated.
pub open spec fn camel_join(segments: Seq<Seq<char>>) -> Seq<char>
    decreases segments.len(),
{
    if segments.len() == 0 {
        Seq::empty()
    } else if segments.len() == 1 {
        lower_seq(segments[0])
    } else {
        camel_join(segments.drop_last()) + spec_capitalize_first(segments.last())
    }
}

pub open spec fn spec_kebab_to_camel(kebab: Seq<char>) -> Seq<char> {
    camel_join(split(kebab, '-'))
}

/// What `camel_to_kebab` emits for the character `c` at position `i`.
pub open spec fn kebab_piece(c: char, i: int) -> Seq<char> {
    if is_ascii_upper(c) && i > 0 {
        seq!['-', lower(c)]
    } else {
        seq![lower(c)]
    }
}

pub open spec fn spec_camel_to_kebab(camel: Seq<char>) -> Seq<char>
    decreases camel.len(),
{
    if camel.len() == 0 {
        Seq::empty()
    } else {
        spec_camel_to_kebab(camel.drop_last()) + kebab_piece(camel.last(), camel.len() - 1)
    }
}

/// One `name: value` declaration, trimmed, with a camelCase name; `None`
/// for a blank declaration or one without a colon.
pub open spec fn parse_declaration(decl: Seq<char>) -> Option<(Seq<char>, Seq<char>)> {
    let t = trim(decl);
    if t.len() == 0 {
        None
    } else {
        match split_once(t, ':') {
            None => None,
            Some((name, value)) => Some((spec_kebab_to_camel(trim(name)), trim(value))),
        }
    }
}

pub open spec fn parse_declarations(decls: Seq<Seq<char>>) -> Seq<(Seq<char>, Seq<char>)>
    decreases decls.len(),
{
    if decls.len() == 0 {
        Seq::empty()
    } else {
        let r = parse_declarations(decls.drop_last());
        match parse_declaration(decls.last()) {
            Some(p) => r.push(p),
            None => r,
        }
    }
}

pub open spec fn spec_parse_inline_style(text: Seq<char>) -> Seq<(Seq<char>, Seq<char>)> {
    parse_declarations(split(text, ';'))
}

/// `kebab-name: value` for one pair.
pub open spec fn render_declaration(p: (Seq<char>, Seq<char>)) -> Seq<char> {
    spec_camel_to_kebab(p.0) + seq![':', ' '] + p.1
}

pub open spec fn spec_serialize_inline_style(props: Seq<(Seq<char>, Seq<char>)>) -> Seq<char> {
    join(props.map_values(|p: (Seq<char>, Seq<char>)| render_declaration(p)), seq![';', ' '])
}

fn capitalize_chars(s: &[char]) -> (res: Vec<char>)
    ensures
        res@ == spec_capitalize_first(s@),
{
    if s.len() == 0 {
        return Vec::new();
    }
    let mut res: Vec<char> = Vec::new();
    res.push(upper_exec(s[0]));
    let rest = slice_range(s, 1, s.len());
    let low = lower_chars(&rest);
    append_chars(&mut res, &low);
    assert(rest@ == s@.drop_first());
    res
}

/// Upper-cases the first character of `s` and lower-cases the rest
/// (ASCII case mapping only).
pub fn capitalize_first(s: &str) -> (res: String)
    ensures
        res@ == spec_capitalize_first(s@),
{
    let cs = chars_of(s);
    let r = capitalize_chars(&cs);
    string_of(&r)
}

fn kebab_to_camel_chars(kebab: &[char]) -> (res: Vec<char>)
    ensures
        res@ == spec_kebab_to_camel(kebab@),
{
    let segments = split_exec(kebab, '-');
    let mut res: Vec<char> = Vec::new();
    let mut i: usize = 0;
    while i < segments.len()
        invariant
            i <= segments@.len(),
            views(segments@) == split(kebab@, '-'),
            res@ == camel_join(views(segments@).take(i as int)),
        decreases segments@.len() - i,
    {
        let piece = if i == 0 {
            lower_chars(&segments[i])
        } else {
            capitalize_chars(&segments[i])
        };
        append_chars(&mut res, &piece);
        proof {
            let t = views(segments@).take(i + 1);
            assert(t.drop_last() == views(segments@).take(i as int));
            assert(t.last() == segments@[i as int]@);
            if i == 0 {
                assert(t.len() == 1);
                assert(t[0] == segments@[0]@);
            }
        }
        i = i + 1;
    }
    assert(views(segments@).take(segments@.len() as int) == views(segments@));
    res
}

/// Converts `kebab-case` to `camelCase`: the first dash-separated segment
/// is lower-cased in full, each later segment has its first character
/// upper-cased and the rest lower-cased.
pub fn kebab_to_camel(kebab: &str) -> (res: String)
    ensures
        res@ == spec_kebab_to_camel(kebab@),
{
    let cs = chars_of(kebab);
    let r = kebab_to_camel_chars(&cs);
    string_of(&r)
}

fn camel_to_kebab_chars(camel: &[char]) -> (res: Vec<char>)
    ensures
        res@ == spec_camel_to_kebab(camel@),
{
    let mut res: Vec<char> = Vec::new();
    let mut i: usize = 0;
    while i < camel.len()
        invariant
            i <= camel@.len(),
            res@ == spec_camel_to_kebab(camel@.take(i as int)),
        decreases camel@.len() - i,
    {
        let c = camel[i];
        let ghost prev = res@;
        if 'A' <= c && c <= 'Z' && i > 0 {
            res.push('-');
        }
        res.push(lower_exec(c));
        proof {
            let t = camel@.take(i + 1);
            assert(t.drop_last() == camel@.take(i as int));
            assert(t.last() == c);
            assert(res@ == prev + kebab_piece(c, i as int));
        }
        i = i + 1;
    }
    assert(camel@.take(camel@.len() as int) == camel@);
    res
}

/// Converts `camelCase` to `kebab-case`: every ASCII upper-case letter
/// after the first position becomes `-` plus its lower-case form; every
/// other character is ASCII lower-cased.
pub fn camel_to_kebab(camel: &str) -> (res: String)
    ensures
        res@ == spec_camel_to_kebab(camel@),
{
    let cs = chars_of(camel);
    let r = camel_to_kebab_chars(&cs);
    string_of(&r)
}

fn parse_declaration_exec(decl: &[char]) -> (res: Option<(String, String)>)
    ensures
        match res {
            Some(p) => parse_declaration(decl@) == Some((p.0@, p.1@)),
            None => parse_declaration(decl@) is None,
        },
{
    let t = trim_exec(decl);
    if t.len() == 0 {
        return None;
    }
    match split_once_exec(&t, ':') {
        None => None,
        Some((name, value)) => {
            let tn = trim_exec(&name);
            let camel = kebab_to_camel_chars(&tn);
            let tv = trim_exec(&value);
            Some((string_of(&camel), string_of(&tv)))
        },
    }
}

/// Parses a `style="..."` attribute value into `(camelCaseName, value)`
/// pairs in source order: the text is split on `;`, each declaration is
/// trimmed, blank ones and ones without a `:` are dropped, the rest split
/// on the first `:` with both halves trimmed and the name camel-cased.
pub fn parse_inline_style(text: &str) -> (res: Vec<(String, String)>)
    ensures
        pair_views(res@) == spec_parse_inline_style(text@),
{
    let cs = chars_of(text);
    let decls = split_exec(&cs, ';');
    let mut res: Vec<(String, String)> = Vec::new();
    let mut i: usize = 0;
    while i < decls.len()
        invariant
            i <= decls@.len(),
            views(decls@) == split(text@, ';'),
            pair_views(res@) == parse_declarations(views(decls@).take(i as int)),
        decreases decls@.len() - i,
    {
        let parsed = parse_declaration_exec(&decls[i]);
        let ghost prev = res@;
        proof {
            let t = views(decls@).take(i + 1);
            assert(t.drop_last() == views(decls@).take(i as int));
            assert(t.last() == decls@[i as int]@);
        }
        match parsed {
            Some(p) => {
                res.push(p);
                assert(pair_views(res@) == pair_views(prev).push((p.0@, p.1@)));
            },
            None => {},
        }
        i = i + 1;
    }
    assert(views(decls@).take(decls@.len() as int) == views(decls@));
    res
}

/// Renders `properties` as a kebab-case `style="..."` value: each pair as
/// `name: value`, joined by `"; "`; the empty list gives the empty string.
pub fn serialize_inline_style(properties: &[(String, String)]) -> (res: String)
    ensures
        res@ == spec_serialize_inline_style(pair_views(properties@)),
{
    let mut pieces: Vec<Vec<char>> = Vec::new();
    let mut i: usize = 0;
    while i < properties.len()
        invariant
            i <= properties@.len(),
            views(pieces@) == pair_views(properties@).take(i as int).map_values(
                |p: (Seq<char>, Seq<char>)| render_declaration(p),
            ),
        decreases properties@.len() - i,
    {
        let name = chars_of(properties[i].0.as_str());
        let value = chars_of(properties[i].1.as_str());
        let mut piece = camel_to_kebab_chars(&name);
        piece.push(':');
        piece.push(' ');
        append_chars(&mut piece, &value);
        let ghost prev = views(pieces@);
        pieces.push(piece);
        proof {
            let pv = pair_views(properties@);
            assert(pv[i as int] == (properties@[i as int].0@, properties@[i as int].1@));
            assert(pv.take(i + 1) == pv.take(i as int).push(pv[i as int]));
            assert(views(pieces@) == prev.push(piece@));
            assert(piece@ == render_declaration(pv[i as int]));
            assert(pv.take(i + 1).map_values(|p: (Seq<char>, Seq<char>)| render_declaration(p))
                =~= prev.push(piece@));
        }
        i = i + 1;
    }
    assert(pair_views(properties@).take(properties@.len() as int) == pair_views(properties@));
    let sep: [char; 2] = [';', ' '];
    let joined = join_exec(&pieces, &sep);
    assert(sep@ == seq![';', ' ']);
    string_of(&joined)
}

} // verus!
