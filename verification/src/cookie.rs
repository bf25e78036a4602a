//! `document.cookie`: the script-visible projection of the host's cookie
//! jar plus a log of every raw write the script made.
//!
//! Reads return the projection.  A write records its raw right-hand side
//! (attributes included, e.g. `"name=v; Max-Age=600"`) in the write log
//! and replaces any same-named entry of the projection with the
//! `name=value` head of the write, so later reads in the same script see
//! it.  The host seeds the projection before a script runs and reads the
//! write log afterwards.

use vstd::prelude::*;
use crate::style_laws::{leading_spaced, lemma_split_join, lemma_trim_end_keep, lemma_trim_start_keep};
use crate::text::{
    eq_ignore_case, eq_ignore_case_exec, join, join_exec, split, split_exec, split_once,
    split_once_exec, string_of, chars_of, trim, trim_exec, views, append_chars,
    lemma_split_nonempty, first_index, is_unicode_space, lower_seq, trim_end, trim_start,
};

verus! {

/// `existing` with `entry` appended on a new line (no separator when the
/// log is empty).
pub open spec fn spec_append_write_log(existing: Seq<char>, entry: Seq<char>) -> Seq<char> {
    if existing.len() == 0 {
        entry
    } else {
        existing + seq!['\n'] + entry
    }
}

/// The trimmed text before the first `=`, when there is a `=` and that
/// text is not empty.
pub open spec fn spec_parse_name(entry: Seq<char>) -> Option<Seq<char>> {
    match split_once(entry, '=') {
        Some((name, _value)) => if trim(name).len() > 0 {
            Some(trim(name))
        } else {
            None
        },
        None => None,
    }
}

/// Whether a projection entry survives a write of the cookie `name`.
pub open spec fn keeps_entry(entry: Seq<char>, name: Seq<char>) -> bool {
    entry.len() > 0 && match spec_parse_name(entry) {
        None => true,
        Some(n) => !eq_ignore_case(n, name),
    }
}

/// The trimmed projection entries that survive a write of `name`, in order.
pub open spec fn kept_entries(entries: Seq<Seq<char>>, name: Seq<char>) -> Seq<Seq<char>>
    decreases entries.len(),
{
    if entries.len() == 0 {
        Seq::empty()
    } else {
        let r = kept_entries(entries.drop_last(), name);
        if keeps_entry(trim(entries.last()), name) {
            r.push(trim(entries.last()))
        } else {
            r
        }
    }
}

pub open spec fn spec_retain_other_entries(visible: Seq<char>, name: Seq<char>) -> Seq<char> {
    join(kept_entries(split(visible, ';'), name), seq![';', ' '])
}

/// The `name=value` head of a Set-Cookie style write.
pub open spec fn write_head(raw: Seq<char>) -> Seq<char> {
    trim(split(raw, ';')[0])
}

/// The projection after a script writes `raw`.
pub open spec fn spec_update_visible(visible: Seq<char>, raw: Seq<char>) -> Seq<char> {
    let head = write_head(raw);
    match spec_parse_name(head) {
        None => visible,
        Some(name) => {
            let kept = spec_retain_other_entries(visible, name);
            if kept.len() == 0 {
                head
            } else {
                kept + seq![';', ' '] + head
            }
        },
    }
}

/// The entries of a write log.
pub open spec fn spec_log_entries(log: Seq<char>) -> Seq<Seq<char>> {
    if log.len() == 0 {
        Seq::empty()
    } else {
        split(log, '\n')
    }
}

/// The cookie state a document carries: the script-visible projection and
/// the write log.
pub struct CookieJar {
    pub visible: String,
    pub writes: String,
}

fn append_write_log(existing: &[char], entry: &[char]) -> (res: Vec<char>)
    ensures
        res@ == spec_append_write_log(existing@, entry@),
{
    let mut res: Vec<char> = Vec::new();
    if existing.len() == 0 {
        append_chars(&mut res, entry);
    } else {
        append_chars(&mut res, existing);
        res.push('\n');
        append_chars(&mut res, entry);
    }
    res
}

fn parse_name(entry: &[char]) -> (res: Option<Vec<char>>)
    ensures
        match res {
            Some(n) => spec_parse_name(entry@) == Some(n@),
            None => spec_parse_name(entry@) is None,
        },
{
    match split_once_exec(entry, '=') {
        Some((name, _value)) => {
            let t = trim_exec(&name);
            if t.len() > 0 {
                Some(t)
            } else {
                None
            }
        },
        None => None,
    }
}

fn retain_other_entries(visible: &[char], name: &[char]) -> (res: Vec<char>)
    ensures
        res@ == spec_retain_other_entries(visible@, name@),
{
    let entries = split_exec(visible, ';');
    let mut kept: Vec<Vec<char>> = Vec::new();
    let mut i: usize = 0;
    while i < entries.len()
        invariant
            i <= entries@.len(),
            views(entries@) == split(visible@, ';'),
            views(kept@) == kept_entries(views(entries@).take(i as int), name@),
        decreases entries@.len() - i,
    {
        let t = trim_exec(&entries[i]);
        let keep = if t.len() == 0 {
            false
        } else {
            match parse_name(&t) {
                None => true,
                Some(n) => !eq_ignore_case_exec(&n, name),
            }
        };
        let ghost prev = views(kept@);
        proof {
            let s = views(entries@).take(i + 1);
            assert(s.drop_last() == views(entries@).take(i as int));
            assert(s.last() == entries@[i as int]@);
        }
        if keep {
            kept.push(t);
            assert(views(kept@) == prev.push(t@));
        }
        i = i + 1;
    }
    assert(views(entries@).take(entries@.len() as int) == views(entries@));
    let sep: [char; 2] = [';', ' '];
    let res = join_exec(&kept, &sep);
    assert(sep@ == seq![';', ' ']);
    res
}

fn update_visible(visible: &[char], raw: &[char]) -> (res: Vec<char>)
    ensures
        res@ == spec_update_visible(visible@, raw@),
{
    let pieces = split_exec(raw, ';');
    proof {
        lemma_split_nonempty(raw@, ';');
    }
    let head = trim_exec(&pieces[0]);
    assert(head@ == write_head(raw@));
    match parse_name(&head) {
        None => slice_copy(visible),
        Some(name) => {
            let kept = retain_other_entries(visible, &name);
            if kept.len() == 0 {
                head
            } else {
                let mut res = kept;
                res.push(';');
                res.push(' ');
                append_chars(&mut res, &head);
                res
            }
        },
    }
}

fn slice_copy(s: &[char]) -> (res: Vec<char>)
    ensures
        res@ == s@,
{
    let mut res: Vec<char> = Vec::new();
    append_chars(&mut res, s);
    res
}

impl CookieJar {
    /// The jar a freshly built document carries: empty projection, empty
    /// write log.
    pub fn new() -> (res: CookieJar)
        ensures
            res.visible@ == Seq::<char>::empty(),
            res.writes@ == Seq::<char>::empty(),
    {
        CookieJar { visible: String::new(), writes: String::new() }
    }

}

/// The cookie state of a freshly built document: the `document.cookie`
/// accessor starts with an empty projection and an empty write log.
pub fn install_cookie_accessor() -> (res: CookieJar)
    ensures
        res.visible@ == Seq::<char>::empty(),
        res.writes@ == Seq::<char>::empty(),
{
    CookieJar::new()
}

/// Seeds the projection with the host's (already filtered) cookie string
/// and clears the write log, so that the log afterwards holds only the
/// writes of the coming script run.
pub fn set_document_cookie(jar: &mut CookieJar, cookies: &str)
    ensures
        final(jar).visible@ == cookies@,
        final(jar).writes@ == Seq::<char>::empty(),
{
    jar.visible = cookies.to_owned();
    jar.writes = String::new();
}

/// The current projection (what `document.cookie` reads).
pub fn get_document_cookie(jar: &CookieJar) -> (res: String)
    ensures
        res@ == jar.visible@,
{
    jar.visible.clone()
}

/// The raw right-hand sides written since the last seed, in write order;
/// empty when nothing was written.
pub fn read_cookie_writes(jar: &CookieJar) -> (res: Vec<String>)
    ensures
        res@.map_values(|s: String| s@) == spec_log_entries(jar.writes@),
{
    let log = chars_of(jar.writes.as_str());
    if log.len() == 0 {
        let res: Vec<String> = Vec::new();
        assert(res@.map_values(|s: String| s@) =~= Seq::<Seq<char>>::empty());
        return res;
    }
    let parts = split_exec(&log, '\n');
    let mut res: Vec<String> = Vec::new();
    let mut i: usize = 0;
    while i < parts.len()
        invariant
            i <= parts@.len(),
            res@.map_values(|s: String| s@) == views(parts@).take(i as int),
        decreases parts@.len() - i,
    {
        let s = string_of(&parts[i]);
        res.push(s);
        assert(views(parts@).take(i + 1) == views(parts@).take(i as int).push(parts@[i as int]@));
        assert(res@.map_values(|s: String| s@) =~= views(parts@).take(i + 1));
        i = i + 1;
    }
    assert(views(parts@).take(parts@.len() as int) == views(parts@));
    res
}

impl CookieJar {
    /// A script assignment `document.cookie = raw`: `raw` is appended to
    /// the write log and its `name=value` head replaces any entry of the
    /// projection with the same (ASCII case-insensitive) name.
    pub fn write_cookie(&mut self, raw: &str)
        ensures
            final(self).visible@ == spec_update_visible(old(self).visible@, raw@),
            final(self).writes@ == spec_append_write_log(old(self).writes@, raw@),
    {
        let raw_chars = chars_of(raw);
        let visible = chars_of(self.visible.as_str());
        let writes = chars_of(self.writes.as_str());
        let new_visible = update_visible(&visible, &raw_chars);
        let new_writes = append_write_log(&writes, &raw_chars);
        self.visible = string_of(&new_visible);
        self.writes = string_of(&new_writes);
    }

    /// A script read of `document.cookie`.
    pub fn read_cookie(&self) -> (res: String)
        ensures
            res@ == self.visible@,
    {
        self.visible.clone()
    }
}

/// Splitting a text with a separator followed by a piece that holds no
/// separator adds that piece after the pieces of the text.
pub proof fn lemma_split_after_separator(a: Seq<char>, b: Seq<char>, sep: char)
    requires
        !b.contains(sep),
    ensures
        split(a + seq![sep] + b, sep) == split(a, sep).push(b),
    decreases b.len(),
{
    let x = a + seq![sep] + b;
    if b.len() == 0 {
        assert(x =~= a.push(sep));
        assert(x.drop_last() =~= a);
        assert(x.last() == sep);
        assert(b =~= Seq::<char>::empty());
    } else {
        assert(x.drop_last() == a + seq![sep] + b.drop_last());
        assert(!b.drop_last().contains(sep)) by {
            if b.drop_last().contains(sep) {
                let k = choose|k: int| 0 <= k < b.drop_last().len() && b.drop_last()[k] == sep;
                assert(b[k] == sep);
            }
        }
        lemma_split_after_separator(a, b.drop_last(), sep);
        lemma_split_nonempty(a, sep);
        assert(x.last() == b.last());
        assert(b.last() != sep) by {
            assert(b[b.len() - 1] == b.last());
        }
        assert(b.drop_last().push(b.last()) == b);
        assert(split(a, sep).push(b.drop_last()).update(split(a, sep).len() as int, b)
            =~= split(a, sep).push(b));
        let r = split(x.drop_last(), sep);
        assert(r == split(a, sep).push(b.drop_last()));
        assert(split(x, sep) == r.update(r.len() - 1, r.last().push(x.last())));
    }
}

/// A piece with no newline is one log entry by itself.
proof fn lemma_split_no_separator(b: Seq<char>, sep: char)
    requires
        !b.contains(sep),
    ensures
        split(b, sep) == seq![b],
    decreases b.len(),
{
    if b.len() == 0 {
        assert(b =~= Seq::<char>::empty());
    } else {
        assert(!b.drop_last().contains(sep)) by {
            if b.drop_last().contains(sep) {
                let k = choose|k: int| 0 <= k < b.drop_last().len() && b.drop_last()[k] == sep;
                assert(b[k] == sep);
            }
        }
        lemma_split_no_separator(b.drop_last(), sep);
        assert(b.last() != sep) by {
            assert(b[b.len() - 1] == b.last());
        }
        assert(b.drop_last().push(b.last()) == b);
        assert(seq![b.drop_last()].update(0, b) =~= seq![b]);
    }
}

/// Law: after a seed, the write log reads back empty and the projection
/// reads back the seeded string.
pub proof fn law_seed_then_read(cookies: Seq<char>)
    ensures
        spec_log_entries(Seq::<char>::empty()) == Seq::<Seq<char>>::empty(),
{
}

/// Law: a write whose text holds no newline appears as the last entry of
/// the write log, after the entries that were there before (a write of the
/// empty string into an empty log leaves no entry).
pub proof fn law_write_is_logged(log: Seq<char>, raw: Seq<char>)
    requires
        !raw.contains('\n'),
        log.len() > 0 || raw.len() > 0,
    ensures
        spec_log_entries(spec_append_write_log(log, raw)) == spec_log_entries(log).push(raw),
{
    if log.len() == 0 {
        lemma_split_no_separator(raw, '\n');
    } else {
        lemma_split_after_separator(log, raw, '\n');
    }
}

/// Law: a write whose head names a cookie makes that head the last entry of
/// the projection, so a read in the same script sees it.
pub proof fn law_write_visible(visible: Seq<char>, raw: Seq<char>)
    requires
        spec_parse_name(write_head(raw)) is Some,
    ensures
        spec_update_visible(visible, raw).len() >= write_head(raw).len(),
        spec_update_visible(visible, raw).skip(
            spec_update_visible(visible, raw).len() - write_head(raw).len(),
        ) == write_head(raw),
{
    let head = write_head(raw);
    let r = spec_update_visible(visible, raw);
    let name = spec_parse_name(head)->0;
    let kept = spec_retain_other_entries(visible, name);
    if kept.len() == 0 {
        assert(r.skip(0) == r);
    } else {
        assert(r == kept + seq![';', ' '] + head);
        assert(r.skip(r.len() - head.len()) =~= head);
    }
}

/// The write log after the writes `ws`, in order, starting from the empty
/// log that a seed leaves.
pub open spec fn log_after(ws: Seq<Seq<char>>) -> Seq<char>
    decreases ws.len(),
{
    if ws.len() == 0 {
        Seq::empty()
    } else {
        spec_append_write_log(log_after(ws.drop_last()), ws.last())
    }
}

/// Law: after a seed, writes of non-empty texts that hold no newline read
/// back from the write log as exactly those texts, in write order.
pub proof fn law_writes_logged_in_order(ws: Seq<Seq<char>>)
    requires
        forall|i: int| 0 <= i < ws.len() ==> #[trigger] ws[i].len() > 0 && !ws[i].contains('\n'),
    ensures
        spec_log_entries(log_after(ws)) == ws,
    decreases ws.len(),
{
    if ws.len() == 0 {
        assert(spec_log_entries(log_after(ws)) =~= ws);
    } else {
        let init = ws.drop_last();
        assert forall|i: int| 0 <= i < init.len() implies #[trigger] init[i].len() > 0 && !init[i].contains('\n') by {
            assert(init[i] == ws[i]);
        }
        law_writes_logged_in_order(init);
        let last = ws[ws.len() - 1];
        assert(last.len() > 0 && !last.contains('\n'));
        law_write_is_logged(log_after(init), last);
        assert(init.push(last) =~= ws);
    }
}

} // verus!

verus! {

/// The entries of a projection: its `;`-separated pieces, trimmed.
pub open spec fn cookie_entries(v: Seq<char>) -> Seq<Seq<char>> {
    split(v, ';').map_values(|p: Seq<char>| trim(p))
}

/// Whether the entry `x` names the cookie `name`: the text before its
/// first `=`, trimmed, is `name` up to ASCII case.
pub open spec fn names_cookie(x: Seq<char>, name: Seq<char>) -> bool {
    x.contains('=') && eq_ignore_case(trim(x.take(first_index(x, '='))), name)
}

proof fn lemma_keeps_entry(x: Seq<char>, name: Seq<char>)
    requires
        name.len() > 0,
    ensures
        keeps_entry(x, name) == (x.len() > 0 && !names_cookie(x, name)),
{
    if x.contains('=') {
        let m = trim(x.take(first_index(x, '=')));
        if m.len() == 0 && eq_ignore_case(m, name) {
            assert(lower_seq(m).len() == lower_seq(name).len());
        }
    }
}

/// The projection entries that survive a write of `name` are the trimmed
/// entries that are not empty and do not name `name`, in order.
proof fn lemma_kept_entries_filter(es: Seq<Seq<char>>, name: Seq<char>)
    requires
        name.len() > 0,
    ensures
        kept_entries(es, name) == es.map_values(|p: Seq<char>| trim(p)).filter(
            |x: Seq<char>| x.len() > 0 && !names_cookie(x, name),
        ),
    decreases es.len(),
{
    reveal(Seq::filter);
    let pred = |x: Seq<char>| x.len() > 0 && !names_cookie(x, name);
    let ts = es.map_values(|p: Seq<char>| trim(p));
    if es.len() > 0 {
        lemma_kept_entries_filter(es.drop_last(), name);
        assert(ts.drop_last() =~= es.drop_last().map_values(|p: Seq<char>| trim(p)));
        assert(ts.last() == trim(es.last()));
        lemma_keeps_entry(trim(es.last()), name);
        assert(ts.filter(pred) == if pred(ts.last()) {
            ts.drop_last().filter(pred).push(ts.last())
        } else {
            ts.drop_last().filter(pred)
        });
    } else {
        assert(ts =~= Seq::<Seq<char>>::empty());
    }
}

/// No piece of a split holds the separator.
proof fn lemma_split_pieces_free(s: Seq<char>, sep: char)
    ensures
        forall|i: int, j: int| 0 <= i < split(s, sep).len() && 0 <= j < split(s, sep)[i].len()
            ==> #[trigger] split(s, sep)[i][j] != sep,
    decreases s.len(),
{
    if s.len() > 0 {
        lemma_split_pieces_free(s.drop_last(), sep);
        lemma_split_nonempty(s.drop_last(), sep);
        let r = split(s.drop_last(), sep);
        if s.last() != sep {
            let u = r.update(r.len() - 1, r.last().push(s.last()));
            assert forall|i: int, j: int| 0 <= i < u.len() && 0 <= j < u[i].len() implies #[trigger] u[i][j] != sep by {
                if i == r.len() - 1 && j == r.last().len() {
                } else if i == r.len() - 1 {
                    assert(u[i][j] == r[i][j]);
                }
            }
        }
    }
}

proof fn lemma_trim_start_free(s: Seq<char>, c: char)
    requires
        forall|j: int| 0 <= j < s.len() ==> #[trigger] s[j] != c,
    ensures
        forall|j: int| 0 <= j < trim_start(s).len() ==> #[trigger] trim_start(s)[j] != c,
        trim_start(s).len() == 0 || !is_unicode_space(trim_start(s)[0]),
    decreases s.len(),
{
    if s.len() > 0 && is_unicode_space(s[0]) {
        assert forall|j: int| 0 <= j < s.drop_first().len() implies #[trigger] s.drop_first()[j] != c by {
            assert(s.drop_first()[j] == s[j + 1]);
        }
        lemma_trim_start_free(s.drop_first(), c);
    }
}

proof fn lemma_trim_end_free(s: Seq<char>, c: char)
    requires
        forall|j: int| 0 <= j < s.len() ==> #[trigger] s[j] != c,
    ensures
        forall|j: int| 0 <= j < trim_end(s).len() ==> #[trigger] trim_end(s)[j] != c,
        trim_end(s).len() == 0 || (!is_unicode_space(trim_end(s).last()) && trim_end(s)[0] == s[0]),
    decreases s.len(),
{
    if s.len() > 0 && is_unicode_space(s.last()) {
        assert forall|j: int| 0 <= j < s.drop_last().len() implies #[trigger] s.drop_last()[j] != c by {
            assert(s.drop_last()[j] == s[j]);
        }
        lemma_trim_end_free(s.drop_last(), c);
    }
}

/// A trimmed text without `c` keeps no `c`, starts and ends with a
/// character other than whitespace (when not empty), and is its own trim,
/// with or without one space in front.
proof fn lemma_trimmed(s: Seq<char>, c: char)
    requires
        forall|j: int| 0 <= j < s.len() ==> #[trigger] s[j] != c,
    ensures
        forall|j: int| 0 <= j < trim(s).len() ==> #[trigger] trim(s)[j] != c,
        trim(trim(s)) == trim(s),
        trim(seq![' '] + trim(s)) == trim(s),
{
    lemma_trim_start_free(s, c);
    let a = trim_start(s);
    lemma_trim_end_free(a, c);
    let t = trim(s);
    assert(t == trim_end(a));
    lemma_trim_start_keep(t);
    lemma_trim_end_keep(t);
    let sp = seq![' '] + t;
    assert(sp.drop_first() =~= t);
    assert(is_unicode_space(sp[0]));
    assert(trim_start(sp) == trim_start(t));
}

/// Law: after a write whose head names the cookie `name`, the projection's
/// entries are the earlier entries that are not empty and do not name
/// `name` (up to ASCII case), in their order, followed by the head, and
/// the projection is those entries joined by `"; "`.  Only entries named
/// exactly `name` are removed.
pub proof fn law_write_replaces_only_that_cookie(visible: Seq<char>, raw: Seq<char>, name: Seq<char>)
    requires
        spec_parse_name(write_head(raw)) == Some(name),
    ensures
        cookie_entries(spec_update_visible(visible, raw)) == cookie_entries(visible).filter(
            |x: Seq<char>| x.len() > 0 && !names_cookie(x, name),
        ).push(write_head(raw)),
        spec_update_visible(visible, raw) == join(
            cookie_entries(visible).filter(|x: Seq<char>| x.len() > 0 && !names_cookie(x, name)).push(
                write_head(raw),
            ),
            seq![';', ' '],
        ),
{
    let es = split(visible, ';');
    let head = write_head(raw);
    let kept = kept_entries(es, name);
    let rs = kept.push(head);
    let sep = seq![';', ' '];
    lemma_kept_entries_filter(es, name);
    lemma_split_pieces_free(visible, ';');
    lemma_split_pieces_free(raw, ';');
    lemma_split_nonempty(raw, ';');
    // every entry is a trimmed piece without `;`
    assert forall|i: int| 0 <= i < es.len() implies #[trigger] trim(es[i]) == trim(es[i]) && (forall|j: int|
        0 <= j < trim(es[i]).len() ==> #[trigger] trim(es[i])[j] != ';') && trim(trim(es[i])) == trim(es[i])
        && trim(seq![' '] + trim(es[i])) == trim(es[i]) by {
        assert forall|j: int| 0 <= j < es[i].len() implies #[trigger] es[i][j] != ';' by {}
        lemma_trimmed(es[i], ';');
    }
    let piece = split(raw, ';')[0];
    assert forall|j: int| 0 <= j < piece.len() implies #[trigger] piece[j] != ';' by {}
    lemma_trimmed(piece, ';');
    lemma_kept_from_entries(es, name);
    assert forall|i: int| 0 <= i < rs.len() implies {
        &&& (forall|j: int| 0 <= j < rs[i].len() ==> #[trigger] rs[i][j] != ';')
        &&& trim(rs[i]) == rs[i]
        &&& trim(seq![' '] + rs[i]) == rs[i]
        &&& rs[i].len() > 0
    } by {
        if i < kept.len() {
            assert(rs[i] == kept[i]);
            assert(trimmed_entry(es, kept[i]));
            let k = choose|k: int| 0 <= k < es.len() && #[trigger] trim(es[k]) == kept[i];
            assert(trim(es[k]) == trim(es[k]));
        } else {
            assert(rs[i] == head);
        }
    }
    assert(head.len() > 0);
    // the projection is the kept entries and the head, joined by "; "
    lemma_join_nonempty(kept, sep);
    let kept_text = spec_retain_other_entries(visible, name);
    assert(kept_text == join(kept, sep));
    if kept.len() == 0 {
        assert(rs =~= seq![head]);
    } else {
        assert(rs.drop_last() =~= kept);
    }
    assert(spec_update_visible(visible, raw) == join(rs, sep));
    lemma_split_join(rs);
    let ls = leading_spaced(rs);
    assert(cookie_entries(spec_update_visible(visible, raw)) =~= rs) by {
        assert forall|i: int| 0 <= i < rs.len() implies #[trigger] trim(ls[i]) == rs[i] by {}
    }
    assert(cookie_entries(visible) == es.map_values(|p: Seq<char>| trim(p)));
}

/// `x` is one of the entries `es`, trimmed.
spec fn trimmed_entry(es: Seq<Seq<char>>, x: Seq<char>) -> bool {
    exists|k: int| 0 <= k < es.len() && #[trigger] trim(es[k]) == x
}

/// Law: a write whose head names no cookie (no `=`, or only whitespace
/// before it) leaves the projection as it was.
pub proof fn law_nameless_write_changes_nothing(visible: Seq<char>, raw: Seq<char>)
    requires
        spec_parse_name(write_head(raw)) is None,
    ensures
        spec_update_visible(visible, raw) == visible,
{
}

/// The kept entries are trimmed entries of the projection, and not empty.
proof fn lemma_kept_from_entries(es: Seq<Seq<char>>, name: Seq<char>)
    ensures
        forall|i: int| 0 <= i < kept_entries(es, name).len() ==> trimmed_entry(es, #[trigger] kept_entries(es, name)[i]),
        forall|i: int| 0 <= i < kept_entries(es, name).len() ==> #[trigger] kept_entries(es, name)[i].len() > 0,
    decreases es.len(),
{
    if es.len() > 0 {
        let init = es.drop_last();
        lemma_kept_from_entries(init, name);
        let r = kept_entries(init, name);
        assert forall|i: int| 0 <= i < kept_entries(es, name).len() implies trimmed_entry(es, #[trigger] kept_entries(es, name)[i]) by {
            if i < r.len() {
                assert(trimmed_entry(init, r[i]));
                let k = choose|k: int| 0 <= k < init.len() && #[trigger] trim(init[k]) == r[i];
                assert(es[k] == init[k]);
                assert(kept_entries(es, name)[i] == r[i]);
            } else {
                assert(trim(es[es.len() - 1]) == kept_entries(es, name)[i]);
                assert(trimmed_entry(es, kept_entries(es, name)[i]));
            }
        }
    }
}

/// A join of non-empty parts is empty exactly when there are no parts.
proof fn lemma_join_nonempty(parts: Seq<Seq<char>>, sep: Seq<char>)
    requires
        forall|i: int| 0 <= i < parts.len() ==> #[trigger] parts[i].len() > 0,
    ensures
        (join(parts, sep).len() == 0) == (parts.len() == 0),
{
    if parts.len() >= 2 {
        assert(parts.last() == parts[parts.len() - 1]);
    } else if parts.len() == 1 {
        assert(parts[0].len() > 0);
    }
}

} // verus!
