//! Character-level helpers shared by every module: conversions between
//! `String` and character vectors, ASCII case folding, whitespace classes,
//! trimming and splitting.

use vstd::prelude::*;

verus! {

/// Appends `c` to `s` (`String::push`).
#[verifier::external_body]
pub(crate) fn push_char(s: &mut String, c: char)
    ensures
        final(s)@ == old(s)@.push(c),
{
    s.push(c);
}

/// The characters of `s`, in order.
pub fn chars_of(s: &str) -> (res: Vec<char>)
    ensures
        res@ == s@,
{
    let mut res: Vec<char> = Vec::new();
    for c in it: s.chars()
        invariant
            res@ == it.seq().take(it.index() as int),
            it.seq() == s@,
    {
        res.push(c);
        assert(it.seq().take(it.index() + 1) == it.seq().take(it.index() as int).push(c));
    }
    res
}

/// A `String` holding exactly the characters of `cs`.
pub fn string_of(cs: &[char]) -> (res: String)
    ensures
        res@ == cs@,
{
    let mut res = String::new();
    let mut i: usize = 0;
    while i < cs.len()
        invariant
            i <= cs@.len(),
            res@ == cs@.take(i as int),
        decreases cs@.len() - i,
    {
        push_char(&mut res, cs[i]);
        assert(cs@.take(i + 1) == cs@.take(i as int).push(cs@[i as int]));
        i = i + 1;
    }
    assert(cs@.take(cs@.len() as int) == cs@);
    res
}

} // verus!

verus! {

/// The four whitespace characters that selector and markup scanning skip.
pub open spec fn is_scan_space(c: char) -> bool {
    c == ' ' || c == '\t' || c == '\n' || c == '\r'
}

/// ASCII whitespace as `u8::is_ascii_whitespace` defines it.
pub open spec fn is_ascii_space(c: char) -> bool {
    c == ' ' || c == '\t' || c == '\n' || c == '\x0C' || c == '\r'
}

/// The Unicode `White_Space` property, which `char::is_whitespace` tests.
pub open spec fn is_unicode_space(c: char) -> bool {
    let u = c as u32;
    (0x09 <= u <= 0x0D) || u == 0x20 || u == 0x85 || u == 0xA0 || u == 0x1680
        || (0x2000 <= u <= 0x200A) || u == 0x2028 || u == 0x2029 || u == 0x202F
        || u == 0x205F || u == 0x3000
}

pub open spec fn is_ascii_upper(c: char) -> bool {
    'A' <= c && c <= 'Z'
}

pub open spec fn is_ascii_lower(c: char) -> bool {
    'a' <= c && c <= 'z'
}

/// `char::to_ascii_lowercase`.
pub open spec fn lower(c: char) -> char {
    if is_ascii_upper(c) {
        ((c as u32) + 32) as char
    } else {
        c
    }
}

/// `char::to_ascii_uppercase`.
pub open spec fn upper(c: char) -> char {
    if is_ascii_lower(c) {
        ((c as u32) - 32) as char
    } else {
        c
    }
}

pub open spec fn lower_seq(s: Seq<char>) -> Seq<char> {
    s.map_values(|c: char| lower(c))
}

/// `str::eq_ignore_ascii_case`.
pub open spec fn eq_ignore_case(a: Seq<char>, b: Seq<char>) -> bool {
    lower_seq(a) == lower_seq(b)
}

pub open spec fn trim_start(s: Seq<char>) -> Seq<char>
    decreases s.len(),
{
    if s.len() > 0 && is_unicode_space(s[0]) {
        trim_start(s.drop_first())
    } else {
        s
    }
}

pub open spec fn trim_end(s: Seq<char>) -> Seq<char>
    decreases s.len(),
{
    if s.len() > 0 && is_unicode_space(s.last()) {
        trim_end(s.drop_last())
    } else {
        s
    }
}

/// `str::trim`: leading and trailing Unicode whitespace removed.
pub open spec fn trim(s: Seq<char>) -> Seq<char> {
    trim_end(trim_start(s))
}

/// `str::split(sep)`: the pieces between occurrences of `sep`; there is
/// always at least one piece.
pub open spec fn split(s: Seq<char>, sep: char) -> Seq<Seq<char>>
    decreases s.len(),
{
    if s.len() == 0 {
        seq![Seq::<char>::empty()]
    } else {
        let r = split(s.drop_last(), sep);
        if s.last() == sep {
            r.push(Seq::<char>::empty())
        } else {
            r.update(r.len() - 1, r.last().push(s.last()))
        }
    }
}

/// The position of the first `c` in `s`, if any.
pub open spec fn is_first_index(s: Seq<char>, c: char, i: int) -> bool {
    0 <= i < s.len() && s[i] == c && forall|j: int| 0 <= j < i ==> s[j] != c
}

pub open spec fn first_index(s: Seq<char>, c: char) -> int {
    if s.contains(c) {
        choose|i: int| is_first_index(s, c, i)
    } else {
        -1
    }
}

/// `str::split_once(c)`.
pub open spec fn split_once(s: Seq<char>, c: char) -> Option<(Seq<char>, Seq<char>)> {
    if s.contains(c) {
        let i = first_index(s, c);
        Some((s.take(i), s.skip(i + 1)))
    } else {
        None
    }
}

/// `str::split_ascii_whitespace`: the maximal runs of non-whitespace.
pub open spec fn tokens(s: Seq<char>) -> Seq<Seq<char>>
    decreases s.len(),
{
    if s.len() == 0 {
        Seq::empty()
    } else {
        let r = tokens(s.drop_last());
        let c = s.last();
        if is_ascii_space(c) {
            r
        } else if s.len() >= 2 && !is_ascii_space(s[s.len() - 2]) {
            r.update(r.len() - 1, r.last().push(c))
        } else {
            r.push(seq![c])
        }
    }
}

/// `str::split_whitespace`: the maximal runs of characters that are not
/// Unicode whitespace.
pub open spec fn words(s: Seq<char>) -> Seq<Seq<char>>
    decreases s.len(),
{
    if s.len() == 0 {
        Seq::empty()
    } else {
        let r = words(s.drop_last());
        let c = s.last();
        if is_unicode_space(c) {
            r
        } else if s.len() >= 2 && !is_unicode_space(s[s.len() - 2]) {
            r.update(r.len() - 1, r.last().push(c))
        } else {
            r.push(seq![c])
        }
    }
}

/// `parts.join(sep)`.
pub open spec fn join(parts: Seq<Seq<char>>, sep: Seq<char>) -> Seq<char>
    decreases parts.len(),
{
    if parts.len() == 0 {
        Seq::empty()
    } else if parts.len() == 1 {
        parts[0]
    } else {
        join(parts.drop_last(), sep) + sep + parts.last()
    }
}

pub proof fn lemma_split_nonempty(s: Seq<char>, sep: char)
    ensures
        split(s, sep).len() >= 1,
    decreases s.len(),
{
    if s.len() > 0 {
        lemma_split_nonempty(s.drop_last(), sep);
    }
}

/// Tokens are never empty and never hold whitespace.
pub proof fn lemma_tokens_wf(s: Seq<char>)
    ensures
        forall|i: int| 0 <= i < tokens(s).len() ==> #[trigger] tokens(s)[i].len() > 0,
        forall|i: int, j: int|
            0 <= i < tokens(s).len() && 0 <= j < tokens(s)[i].len() ==> !is_ascii_space(
                #[trigger] tokens(s)[i][j],
            ),
        s.len() > 0 && !is_ascii_space(s.last()) ==> tokens(s).len() >= 1,
    decreases s.len(),
{
    if s.len() > 0 {
        lemma_tokens_wf(s.drop_last());
        let r = tokens(s.drop_last());
        if s.len() >= 2 && !is_ascii_space(s[s.len() - 2]) {
            assert(s.drop_last().last() == s[s.len() - 2]);
        }
    }
}

pub fn is_scan_space_exec(c: char) -> (b: bool)
    ensures
        b == is_scan_space(c),
{
    c == ' ' || c == '\t' || c == '\n' || c == '\r'
}

pub fn is_ascii_space_exec(c: char) -> (b: bool)
    ensures
        b == is_ascii_space(c),
{
    c == ' ' || c == '\t' || c == '\n' || c == '\x0C' || c == '\r'
}

pub fn is_unicode_space_exec(c: char) -> (b: bool)
    ensures
        b == is_unicode_space(c),
{
    let u = c as u32;
    (0x09 <= u && u <= 0x0D) || u == 0x20 || u == 0x85 || u == 0xA0 || u == 0x1680 || (0x2000
        <= u && u <= 0x200A) || u == 0x2028 || u == 0x2029 || u == 0x202F || u == 0x205F || u
        == 0x3000
}

pub fn lower_exec(c: char) -> (r: char)
    ensures
        r == lower(c),
{
    if 'A' <= c && c <= 'Z' {
        let u: u32 = c as u32;
        let b: u8 = (u + 32) as u8;
        b as char
    } else {
        c
    }
}

pub fn upper_exec(c: char) -> (r: char)
    ensures
        r == upper(c),
{
    if 'a' <= c && c <= 'z' {
        let u: u32 = c as u32;
        let b: u8 = (u - 32) as u8;
        b as char
    } else {
        c
    }
}

} // verus!

verus! {

pub proof fn lemma_trim_start_suffix(s: Seq<char>)
    ensures
        exists|k: int| 0 <= k <= s.len() && trim_start(s) == s.skip(k),
    decreases s.len(),
{
    if s.len() > 0 && is_unicode_space(s[0]) {
        lemma_trim_start_suffix(s.drop_first());
        let k = choose|k: int| 0 <= k <= s.drop_first().len() && trim_start(s.drop_first()) == s.drop_first().skip(k);
        assert(s.drop_first().skip(k) == s.skip(k + 1));
    } else {
        assert(s.skip(0) == s);
    }
}

/// `trim_start(s)` is `s` without its first `i` characters when those are
/// all whitespace and the next one (if any) is not.
proof fn lemma_trim_start_at(s: Seq<char>, i: int)
    requires
        0 <= i <= s.len(),
        forall|j: int| 0 <= j < i ==> is_unicode_space(#[trigger] s[j]),
        i < s.len() ==> !is_unicode_space(s[i]),
    ensures
        trim_start(s) == s.skip(i),
    decreases i,
{
    if i > 0 {
        assert(s.drop_first().skip(i - 1) == s.skip(i));
        lemma_trim_start_at(s.drop_first(), i - 1);
    } else {
        assert(s.skip(0) == s);
    }
}

proof fn lemma_trim_end_at(s: Seq<char>, i: int)
    requires
        0 <= i <= s.len(),
        forall|j: int| i <= j < s.len() ==> is_unicode_space(#[trigger] s[j]),
        i > 0 ==> !is_unicode_space(s[i - 1]),
    ensures
        trim_end(s) == s.take(i),
    decreases s.len() - i,
{
    if i < s.len() {
        assert(s.drop_last().take(i) == s.take(i));
        lemma_trim_end_at(s.drop_last(), i);
    } else {
        assert(s.take(i) == s);
    }
}

/// `str::trim` on a character slice.
pub fn trim_exec(s: &[char]) -> (res: Vec<char>)
    ensures
        res@ == trim(s@),
{
    let mut lo: usize = 0;
    while lo < s.len() && is_unicode_space_exec(s[lo])
        invariant
            lo <= s@.len(),
            forall|j: int| 0 <= j < lo ==> is_unicode_space(#[trigger] s@[j]),
        decreases s@.len() - lo,
    {
        lo = lo + 1;
    }
    proof {
        lemma_trim_start_at(s@, lo as int);
    }
    let mut hi: usize = s.len();
    while hi > lo && is_unicode_space_exec(s[hi - 1])
        invariant
            lo <= hi <= s@.len(),
            forall|j: int| hi <= j < s@.len() ==> is_unicode_space(#[trigger] s@[j]),
        decreases hi,
    {
        hi = hi - 1;
    }
    let mut res: Vec<char> = Vec::new();
    let mut k: usize = lo;
    while k < hi
        invariant
            lo <= k <= hi,
            hi <= s@.len(),
            res@ == s@.subrange(lo as int, k as int),
        decreases hi - k,
    {
        res.push(s[k]);
        assert(s@.subrange(lo as int, k + 1) == s@.subrange(lo as int, k as int).push(s@[k as int]));
        k = k + 1;
    }
    proof {
        let t = s@.skip(lo as int);
        assert forall|j: int| (hi - lo) <= j < t.len() implies is_unicode_space(#[trigger] t[j]) by {
            assert(t[j] == s@[j + lo]);
        }
        if hi > lo {
            assert(t[hi - lo - 1] == s@[hi - 1]);
        }
        lemma_trim_end_at(t, hi - lo);
        assert(t.take(hi - lo) == s@.subrange(lo as int, hi as int));
    }
    res
}

/// The index of the first `c` in `s`.
pub fn find_char(s: &[char], c: char) -> (res: Option<usize>)
    ensures
        match res {
            Some(i) => is_first_index(s@, c, i as int),
            None => !s@.contains(c),
        },
{
    let mut i: usize = 0;
    while i < s.len()
        invariant
            i <= s@.len(),
            forall|j: int| 0 <= j < i ==> s@[j] != c,
        decreases s@.len() - i,
    {
        if s[i] == c {
            return Some(i);
        }
        i = i + 1;
    }
    None
}

pub proof fn lemma_first_index(s: Seq<char>, c: char, i: int)
    requires
        is_first_index(s, c, i),
    ensures
        first_index(s, c) == i,
        s.contains(c),
{
    assert(s[i] == c);
    let k = first_index(s, c);
    assert(is_first_index(s, c, k));
    if k < i {
        assert(s[k] != c);
    }
    if i < k {
        assert(s[i] != c);
    }
}

/// `str::split_once(c)`.
pub fn split_once_exec(s: &[char], c: char) -> (res: Option<(Vec<char>, Vec<char>)>)
    ensures
        match res {
            Some((a, b)) => split_once(s@, c) == Some((a@, b@)),
            None => split_once(s@, c) is None,
        },
{
    match find_char(s, c) {
        None => None,
        Some(i) => {
            proof {
                lemma_first_index(s@, c, i as int);
            }
            let n = s.len();
            assert(i < n);
            let a = slice_range(s, 0, i);
            let b = slice_range(s, i + 1, n);
            assert(a@ == s@.take(i as int));
            assert(b@ == s@.skip(i + 1));
            Some((a, b))
        },
    }
}

/// A copy of `s[lo..hi]`.
pub fn slice_range(s: &[char], lo: usize, hi: usize) -> (res: Vec<char>)
    requires
        lo <= hi <= s@.len(),
    ensures
        res@ == s@.subrange(lo as int, hi as int),
{
    let mut res: Vec<char> = Vec::new();
    let mut k: usize = lo;
    while k < hi
        invariant
            lo <= k <= hi,
            hi <= s@.len(),
            res@ == s@.subrange(lo as int, k as int),
        decreases hi - k,
    {
        res.push(s[k]);
        assert(s@.subrange(lo as int, k + 1) == s@.subrange(lo as int, k as int).push(s@[k as int]));
        k = k + 1;
    }
    res
}

pub open spec fn views(v: Seq<Vec<char>>) -> Seq<Seq<char>> {
    v.map_values(|x: Vec<char>| x@)
}

/// `str::split(sep)`.
pub fn split_exec(s: &[char], sep: char) -> (res: Vec<Vec<char>>)
    ensures
        views(res@) == split(s@, sep),
{
    let mut res: Vec<Vec<char>> = Vec::new();
    let mut cur: Vec<char> = Vec::new();
    let mut i: usize = 0;
    while i < s.len()
        invariant
            i <= s@.len(),
            split(s@.take(i as int), sep) == views(res@).push(cur@),
        decreases s@.len() - i,
    {
        let ghost before = s@.take(i as int);
        let c = s[i];
        assert(s@.take(i + 1).drop_last() == before);
        proof {
            lemma_split_nonempty(before, sep);
        }
        if c == sep {
            let done = cur;
            res.push(done);
            cur = Vec::new();
            assert(views(res@) == views(res@).drop_last().push(done@));
        } else {
            cur.push(c);
        }
        i = i + 1;
        assert(views(res@).push(cur@) == split(s@.take(i as int), sep));
    }
    assert(s@.take(s@.len() as int) == s@);
    res.push(cur);
    res
}

/// `str::split_ascii_whitespace`.
pub fn tokens_exec(s: &[char]) -> (res: Vec<Vec<char>>)
    ensures
        views(res@) == tokens(s@),
{
    let mut res: Vec<Vec<char>> = Vec::new();
    let mut cur: Vec<char> = Vec::new();
    let mut i: usize = 0;
    while i < s.len()
        invariant
            i <= s@.len(),
            cur@.len() == 0 ==> tokens(s@.take(i as int)) == views(res@),
            cur@.len() > 0 ==> tokens(s@.take(i as int)) == views(res@).push(cur@),
            cur@.len() > 0 ==> i > 0 && !is_ascii_space(s@[i - 1]),
            cur@.len() == 0 && i > 0 ==> is_ascii_space(s@[i - 1]),
        decreases s@.len() - i,
    {
        let c = s[i];
        assert(s@.take(i + 1).drop_last() == s@.take(i as int));
        if is_ascii_space_exec(c) {
            if cur.len() > 0 {
                let done = cur;
                res.push(done);
                cur = Vec::new();
                assert(views(res@) == views(res@).drop_last().push(done@));
            }
        } else {
            let ghost old_cur = cur@;
            cur.push(c);
            proof {
                let t = s@.take(i + 1);
                assert(t.last() == c);
                if old_cur.len() > 0 {
                    assert(t[t.len() - 2] == s@[i - 1]);
                    assert(views(res@).push(old_cur).update(views(res@).len() as int, old_cur.push(c))
                        =~= views(res@).push(cur@));
                } else {
                    if i > 0 {
                        assert(t[t.len() - 2] == s@[i - 1]);
                    }
                    assert(cur@ =~= seq![c]);
                }
            }
        }
        i = i + 1;
    }
    assert(s@.take(s@.len() as int) == s@);
    if cur.len() > 0 {
        let done = cur;
        res.push(done);
        assert(views(res@) == views(res@).drop_last().push(done@));
    }
    res
}

/// `str::split_whitespace`.
pub fn words_exec(s: &[char]) -> (res: Vec<Vec<char>>)
    ensures
        views(res@) == words(s@),
{
    let mut res: Vec<Vec<char>> = Vec::new();
    let mut cur: Vec<char> = Vec::new();
    let mut i: usize = 0;
    while i < s.len()
        invariant
            i <= s@.len(),
            cur@.len() == 0 ==> words(s@.take(i as int)) == views(res@),
            cur@.len() > 0 ==> words(s@.take(i as int)) == views(res@).push(cur@),
            cur@.len() > 0 ==> i > 0 && !is_unicode_space(s@[i - 1]),
            cur@.len() == 0 && i > 0 ==> is_unicode_space(s@[i - 1]),
        decreases s@.len() - i,
    {
        let c = s[i];
        assert(s@.take(i + 1).drop_last() == s@.take(i as int));
        if is_unicode_space_exec(c) {
            if cur.len() > 0 {
                let done = cur;
                res.push(done);
                cur = Vec::new();
                assert(views(res@) == views(res@).drop_last().push(done@));
            }
        } else {
            let ghost old_cur = cur@;
            cur.push(c);
            proof {
                let t = s@.take(i + 1);
                assert(t.last() == c);
                if old_cur.len() > 0 {
                    assert(t[t.len() - 2] == s@[i - 1]);
                    assert(views(res@).push(old_cur).update(views(res@).len() as int, old_cur.push(c))
                        =~= views(res@).push(cur@));
                } else {
                    if i > 0 {
                        assert(t[t.len() - 2] == s@[i - 1]);
                    }
                    assert(cur@ =~= seq![c]);
                }
            }
        }
        i = i + 1;
    }
    assert(s@.take(s@.len() as int) == s@);
    if cur.len() > 0 {
        let done = cur;
        res.push(done);
        assert(views(res@) == views(res@).drop_last().push(done@));
    }
    res
}

/// `parts.join(sep)`.
pub fn join_exec(parts: &Vec<Vec<char>>, sep: &[char]) -> (res: Vec<char>)
    ensures
        res@ == join(views(parts@), sep@),
{
    let mut res: Vec<char> = Vec::new();
    let mut i: usize = 0;
    while i < parts.len()
        invariant
            i <= parts@.len(),
            res@ == join(views(parts@).take(i as int), sep@),
        decreases parts@.len() - i,
    {
        let ghost prev = res@;
        if i > 0 {
            append_chars(&mut res, sep);
        }
        append_chars(&mut res, &parts[i]);
        proof {
            let t = views(parts@).take(i + 1);
            assert(t.drop_last() == views(parts@).take(i as int));
            assert(t.last() == parts@[i as int]@);
            if i == 0 {
                assert(t.len() == 1);
            }
        }
        i = i + 1;
    }
    assert(views(parts@).take(parts@.len() as int) == views(parts@));
    res
}

/// Appends every character of `more` to `dst`.
pub fn append_chars(dst: &mut Vec<char>, more: &[char])
    ensures
        final(dst)@ == old(dst)@ + more@,
{
    let mut k: usize = 0;
    while k < more.len()
        invariant
            k <= more@.len(),
            dst@ == old(dst)@ + more@.take(k as int),
        decreases more@.len() - k,
    {
        dst.push(more[k]);
        assert(more@.take(k + 1) == more@.take(k as int).push(more@[k as int]));
        k = k + 1;
    }
    assert(more@.take(more@.len() as int) == more@);
}

pub fn lower_chars(s: &[char]) -> (res: Vec<char>)
    ensures
        res@ == lower_seq(s@),
{
    let mut res: Vec<char> = Vec::new();
    let mut k: usize = 0;
    while k < s.len()
        invariant
            k <= s@.len(),
            res@ == lower_seq(s@.take(k as int)),
        decreases s@.len() - k,
    {
        res.push(lower_exec(s[k]));
        assert(lower_seq(s@.take(k + 1)) == lower_seq(s@.take(k as int)).push(lower(s@[k as int])));
        k = k + 1;
    }
    assert(s@.take(s@.len() as int) == s@);
    res
}

pub fn eq_chars(a: &[char], b: &[char]) -> (res: bool)
    ensures
        res == (a@ == b@),
{
    if a.len() != b.len() {
        return false;
    }
    let mut k: usize = 0;
    while k < a.len()
        invariant
            k <= a@.len(),
            a@.len() == b@.len(),
            forall|j: int| 0 <= j < k ==> a@[j] == b@[j],
        decreases a@.len() - k,
    {
        if a[k] != b[k] {
            return false;
        }
        k = k + 1;
    }
    assert(a@ =~= b@);
    true
}

pub fn eq_ignore_case_exec(a: &[char], b: &[char]) -> (res: bool)
    ensures
        res == eq_ignore_case(a@, b@),
{
    let la = lower_chars(a);
    let lb = lower_chars(b);
    eq_chars(&la, &lb)
}


/// A sequence of tokens as `tokens` produces them: none empty, none
/// holding ASCII whitespace.
pub open spec fn clean_tokens(ts: Seq<Seq<char>>) -> bool {
    forall|i: int| 0 <= i < ts.len() ==> is_clean_token(#[trigger] ts[i])
}

pub open spec fn is_clean_token(t: Seq<char>) -> bool {
    t.len() > 0 && forall|j: int| 0 <= j < t.len() ==> !is_ascii_space(#[trigger] t[j])
}

proof fn lemma_tokens_after_space(a: Seq<char>, w: Seq<char>)
    requires
        is_clean_token(w),
        a.len() == 0 || is_ascii_space(a.last()),
    ensures
        tokens(a + w) == tokens(a).push(w),
    decreases w.len(),
{
    let s = a + w;
    if w.len() == 1 {
        assert(s.drop_last() == a);
        assert(s.last() == w[0]);
        assert(w == seq![w[0]]);
        if s.len() >= 2 {
            assert(s[s.len() - 2] == a.last());
        }
    } else {
        let w2 = w.drop_last();
        assert(is_clean_token(w2)) by {
            assert forall|j: int| 0 <= j < w2.len() implies !is_ascii_space(#[trigger] w2[j]) by {
                assert(w2[j] == w[j]);
            }
        }
        lemma_tokens_after_space(a, w2);
        assert(s.drop_last() == a + w2);
        assert(s.last() == w.last());
        assert(s[s.len() - 2] == w[w.len() - 2]);
        assert(!is_ascii_space(w[w.len() - 2]));
        assert(w2.push(w.last()) == w);
    }
}

/// Re-splitting tokens joined by one space gives the tokens back.
pub proof fn lemma_tokens_join(ts: Seq<Seq<char>>)
    requires
        clean_tokens(ts),
    ensures
        tokens(join(ts, seq![' '])) == ts,
    decreases ts.len(),
{
    if ts.len() == 0 {
    } else if ts.len() == 1 {
        assert(is_clean_token(ts[0]));
        lemma_tokens_after_space(Seq::empty(), ts[0]);
        assert(Seq::<char>::empty() + ts[0] == ts[0]);
        assert(Seq::<Seq<char>>::empty().push(ts[0]) == ts);
    } else {
        let init = ts.drop_last();
        assert(clean_tokens(init)) by {
            assert forall|i: int| 0 <= i < init.len() implies is_clean_token(#[trigger] init[i]) by {
                assert(init[i] == ts[i]);
            }
        }
        lemma_tokens_join(init);
        let a = join(init, seq![' ']) + seq![' '];
        assert(is_clean_token(ts.last()));
        assert(a.last() == ' ');
        lemma_tokens_after_space(a, ts.last());
        assert(a.drop_last() == join(init, seq![' ']));
        assert(join(ts, seq![' ']) == a + ts.last());
        assert(init.push(ts.last()) == ts);
    }
}

/// What `tokens` produces is clean.
pub proof fn lemma_tokens_clean(s: Seq<char>)
    ensures
        clean_tokens(tokens(s)),
{
    lemma_tokens_wf(s);
    assert forall|i: int| 0 <= i < tokens(s).len() implies is_clean_token(#[trigger] tokens(s)[i]) by {
        assert(tokens(s)[i].len() > 0);
        assert forall|j: int| 0 <= j < tokens(s)[i].len() implies !is_ascii_space(#[trigger] tokens(s)[i][j]) by {
        }
    }
}

} // verus!

verus! {

/// `t` stands in `s` at `i` as a whole whitespace-separated token: it is
/// not empty, holds no ASCII whitespace, and has only ASCII whitespace or
/// an end of `s` on either side.
pub open spec fn is_token_at(s: Seq<char>, t: Seq<char>, i: int) -> bool {
    &&& t.len() > 0
    &&& 0 <= i && i + t.len() <= s.len()
    &&& s.subrange(i, i + t.len()) == t
    &&& forall|j: int| 0 <= j < t.len() ==> !is_ascii_space(#[trigger] t[j])
    &&& (i == 0 || is_ascii_space(s[i - 1]))
    &&& (i + t.len() == s.len() || is_ascii_space(s[i + t.len()]))
}

/// `t` stands somewhere in `s` as a whole whitespace-separated token.
pub open spec fn is_whole_token(s: Seq<char>, t: Seq<char>) -> bool {
    exists|i: int| is_token_at(s, t, i)
}

/// Two whole tokens that end at the same place are the same token.
proof fn lemma_token_end_unique(s: Seq<char>, a: Seq<char>, i: int, b: Seq<char>, j: int)
    requires
        is_token_at(s, a, i),
        is_token_at(s, b, j),
        i + a.len() == j + b.len(),
    ensures
        i == j,
        a == b,
{
    if i < j {
        assert(a[j - 1 - i] == s.subrange(i, i + a.len())[j - 1 - i]);
        assert(!is_ascii_space(a[j - 1 - i]));
    } else if j < i {
        assert(b[i - 1 - j] == s.subrange(j, j + b.len())[i - 1 - j]);
        assert(!is_ascii_space(b[i - 1 - j]));
    }
}

/// A whole token of `s` with its place: only the last token of `s` can end
/// where `s` ends.
pub open spec fn token_placed(s: Seq<char>, k: int, i: int) -> bool {
    is_token_at(s, tokens(s)[k], i) && (i + tokens(s)[k].len() == s.len() ==> k == tokens(s).len() - 1)
}

pub open spec fn has_place(s: Seq<char>, k: int) -> bool {
    exists|i: int| #[trigger] token_placed(s, k, i)
}

/// Every token of `s` stands in `s` as a whole token; when `s` ends in a
/// character other than whitespace, the last token ends there.
pub proof fn lemma_tokens_placed(s: Seq<char>)
    ensures
        forall|k: int| 0 <= k < tokens(s).len() ==> #[trigger] has_place(s, k),
        s.len() > 0 && !is_ascii_space(s.last()) ==> tokens(s).len() > 0 && is_token_at(
            s,
            tokens(s).last(),
            s.len() - tokens(s).last().len(),
        ),
    decreases s.len(),
{
    if s.len() == 0 {
        return;
    }
    let p = s.drop_last();
    let n = s.len() as int;
    let c = s.last();
    let r = tokens(p);
    lemma_tokens_placed(p);
    lemma_tokens_wf(p);
    assert forall|x: int, y: int| 0 <= x <= y <= n - 1 implies #[trigger] s.subrange(x, y) == p.subrange(x, y) by {
        assert(s.subrange(x, y) =~= p.subrange(x, y));
    }
    if is_ascii_space(c) {
        assert(tokens(s) == r);
        assert forall|k: int| 0 <= k < tokens(s).len() implies #[trigger] has_place(s, k) by {
            assert(has_place(p, k));
                let i = choose|i: int| #[trigger] token_placed(p, k, i);
            let t = r[k];
            assert(s.subrange(i, i + t.len()) == p.subrange(i, i + t.len()));
            if i > 0 {
                assert(s[i - 1] == p[i - 1]);
            }
            if i + t.len() < n - 1 {
                assert(s[i + t.len()] == p[i + t.len()]);
            }
            assert(token_placed(s, k, i));
        }
    } else if n >= 2 && !is_ascii_space(s[n - 2]) {
        assert(p.last() == s[n - 2]);
        let m = r.len() - 1;
        let l = r.last();
        let i0 = n - 1 - l.len();
        assert(tokens(s) == r.update(m, l.push(c)));
        assert forall|k: int| 0 <= k < tokens(s).len() implies #[trigger] has_place(s, k) by {
            if k < m {
                assert(has_place(p, k));
                let i = choose|i: int| #[trigger] token_placed(p, k, i);
                let t = r[k];
                assert(tokens(s)[k] == t);
                assert(s.subrange(i, i + t.len()) == p.subrange(i, i + t.len()));
                if i > 0 {
                    assert(s[i - 1] == p[i - 1]);
                }
                assert(i + t.len() < n - 1);
                assert(s[i + t.len()] == p[i + t.len()]);
                assert(token_placed(s, k, i));
            } else {
                let t = l.push(c);
                assert(tokens(s)[k] == t);
                assert(s.subrange(i0, n) =~= p.subrange(i0, n - 1).push(c));
                assert forall|j: int| 0 <= j < t.len() implies !is_ascii_space(#[trigger] t[j]) by {
                    if j < l.len() {
                        assert(t[j] == l[j]);
                        assert(l == r[m]);
                    }
                }
                if i0 > 0 {
                    assert(s[i0 - 1] == p[i0 - 1]);
                }
                assert(token_placed(s, k, i0));
            }
        }
        let t = l.push(c);
        assert(s.subrange(i0, n) =~= p.subrange(i0, n - 1).push(c));
        assert forall|j: int| 0 <= j < t.len() implies !is_ascii_space(#[trigger] t[j]) by {
            if j < l.len() {
                assert(t[j] == l[j]);
                assert(l == r[m]);
            }
        }
        if i0 > 0 {
            assert(s[i0 - 1] == p[i0 - 1]);
        }
    } else {
        let t = seq![c];
        assert(tokens(s) == r.push(t));
        assert forall|k: int| 0 <= k < tokens(s).len() implies #[trigger] has_place(s, k) by {
            if k < r.len() {
                assert(has_place(p, k));
                let i = choose|i: int| #[trigger] token_placed(p, k, i);
                let u = r[k];
                assert(tokens(s)[k] == u);
                assert(s.subrange(i, i + u.len()) == p.subrange(i, i + u.len()));
                if i > 0 {
                    assert(s[i - 1] == p[i - 1]);
                }
                if i + u.len() == n - 1 {
                    assert(u[u.len() - 1] == p.subrange(i, i + u.len())[u.len() - 1]);
                    assert(false);
                }
                assert(s[i + u.len()] == p[i + u.len()]);
                assert(token_placed(s, k, i));
            } else {
                assert(s.subrange(n - 1, n) =~= t);
                assert(token_placed(s, k, n - 1));
            }
        }
        assert(s.subrange(n - 1, n) =~= t);
    }
}

/// Every whole token of `s` is one of `tokens(s)`; one that ends before
/// `s` does, when `s` ends in something other than whitespace, is not the
/// last of them.
pub proof fn lemma_whole_token_listed(s: Seq<char>, t: Seq<char>, i: int)
    requires
        is_token_at(s, t, i),
    ensures
        exists|k: int| 0 <= k < tokens(s).len() && #[trigger] tokens(s)[k] == t
            && (i + t.len() < s.len() && !is_ascii_space(s.last()) ==> k < tokens(s).len() - 1),
    decreases s.len(),
{
    let p = s.drop_last();
    let n = s.len() as int;
    let c = s.last();
    let r = tokens(p);
    let end = i + t.len();
    assert(s.subrange(i, end)[end - 1 - i] == s[end - 1]);
    if is_ascii_space(c) {
        assert(end <= n - 1);
        assert(p.subrange(i, end) =~= s.subrange(i, end));
        if i > 0 {
            assert(s[i - 1] == p[i - 1]);
        }
        if end < n - 1 {
            assert(s[end] == p[end]);
        }
        lemma_whole_token_listed(p, t, i);
        assert(tokens(s) == r);
    } else if end < n {
        assert(end <= n - 2);
        assert(p.subrange(i, end) =~= s.subrange(i, end));
        if i > 0 {
            assert(s[i - 1] == p[i - 1]);
        }
        assert(s[end] == p[end]);
        lemma_whole_token_listed(p, t, i);
        let k = choose|k: int| 0 <= k < r.len() && #[trigger] r[k] == t
            && (end < p.len() && !is_ascii_space(p.last()) ==> k < r.len() - 1);
        if n >= 2 && !is_ascii_space(s[n - 2]) {
            assert(p.last() == s[n - 2]);
            assert(tokens(s) == r.update(r.len() - 1, r.last().push(c)));
            assert(tokens(s)[k] == t);
        } else {
            assert(tokens(s) == r.push(seq![c]));
            assert(tokens(s)[k] == t);
        }
    } else if n >= 2 && !is_ascii_space(s[n - 2]) {
        assert(p.last() == s[n - 2]);
        lemma_tokens_placed(p);
        lemma_tokens_wf(p);
        let l = r.last();
        let i0 = n - 1 - l.len();
        if t.len() == 1 {
            assert(i == n - 1);
            assert(false);
        }
        let u = t.drop_last();
        assert(p.subrange(i, n - 1) =~= u);
        assert forall|j: int| 0 <= j < u.len() implies !is_ascii_space(#[trigger] u[j]) by {
            assert(u[j] == t[j]);
        }
        if i > 0 {
            assert(s[i - 1] == p[i - 1]);
        }
        assert(is_token_at(p, u, i));
        lemma_token_end_unique(p, u, i, l, i0);
        assert(t =~= l.push(c));
        assert(tokens(s) == r.update(r.len() - 1, l.push(c)));
        assert(tokens(s)[r.len() - 1] == t);
    } else {
        if t.len() >= 2 {
            assert(s.subrange(i, end)[t.len() - 2] == s[n - 2]);
            assert(false);
        }
        assert(t =~= seq![c]);
        assert(tokens(s) == r.push(seq![c]));
        assert(tokens(s)[r.len() as int] == t);
    }
}

/// `t` is one of the whitespace-separated tokens of `s` exactly when it
/// stands in `s` as a whole token.
pub proof fn lemma_tokens_contain(s: Seq<char>, t: Seq<char>)
    ensures
        tokens(s).contains(t) <==> is_whole_token(s, t),
{
    if tokens(s).contains(t) {
        let k = choose|k: int| 0 <= k < tokens(s).len() && tokens(s)[k] == t;
        lemma_tokens_placed(s);
        assert(has_place(s, k));
        let i = choose|i: int| #[trigger] token_placed(s, k, i);
        assert(is_token_at(s, t, i));
    }
    if exists|i: int| is_token_at(s, t, i) {
        let i = choose|i: int| is_token_at(s, t, i);
        lemma_whole_token_listed(s, t, i);
    }
}

} // verus!
