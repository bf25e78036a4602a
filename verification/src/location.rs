//! `window.location`: the current URL (`href`, read and write), the parts
//! of it that the URL parser finds (`protocol`, `host`, `hostname`,
//! `port`, `pathname`, `search`, `hash`, `origin`; all empty when the URL
//! does not parse), and the navigation that the script asked for last
//! (`assign`, `replace`, `reload`, or a write to `href`), which the host
//! reads and clears after the script has run.

use vstd::prelude::*;
use crate::text::{append_chars, chars_of, split_once, split_once_exec, string_of};

verus! {

/// A navigation that the script asked for.
#[derive(Debug, Clone, PartialEq, Eq)]
pub enum NavigationIntent {
    /// `location.href = url` or `location.assign(url)`.
    Assign(String),
    /// `location.replace(url)`.
    Replace(String),
    /// `location.reload()`.
    Reload,
}

pub enum NavView {
    Assign(Seq<char>),
    Replace(Seq<char>),
    Reload,
}

impl View for NavigationIntent {
    type V = NavView;

    open spec fn view(&self) -> NavView {
        match self {
            NavigationIntent::Assign(u) => NavView::Assign(u@),
            NavigationIntent::Replace(u) => NavView::Replace(u@),
            NavigationIntent::Reload => NavView::Reload,
        }
    }
}

pub open spec fn assign_word() -> Seq<char> {
    seq!['a', 's', 's', 'i', 'g', 'n']
}

pub open spec fn replace_word() -> Seq<char> {
    seq!['r', 'e', 'p', 'l', 'a', 'c', 'e']
}

pub open spec fn reload_word() -> Seq<char> {
    seq!['r', 'e', 'l', 'o', 'a', 'd']
}

/// How a pending navigation is recorded: its kind, `|`, and its URL.
pub open spec fn encode_nav(n: NavView) -> Seq<char> {
    match n {
        NavView::Assign(u) => assign_word() + seq!['|'] + u,
        NavView::Replace(u) => replace_word() + seq!['|'] + u,
        NavView::Reload => reload_word() + seq!['|'],
    }
}

/// Reads a recorded navigation back: the text before the first `|` (all
/// of it when there is none) names the kind, the rest is the URL.
pub open spec fn decode_nav(s: Seq<char>) -> Option<NavView> {
    let (kind, payload) = match split_once(s, '|') {
        Some(p) => p,
        None => (s, Seq::empty()),
    };
    if kind == assign_word() {
        Some(NavView::Assign(payload))
    } else if kind == replace_word() {
        Some(NavView::Replace(payload))
    } else if kind == reload_word() {
        Some(NavView::Reload)
    } else {
        None
    }
}

/// Records `intent` as text.
pub fn encode_pending_nav(intent: &NavigationIntent) -> (r: String)
    ensures
        r@ == encode_nav(intent@),
{
    let mut out: Vec<char> = Vec::new();
    match intent {
        NavigationIntent::Assign(u) => {
            let w: [char; 6] = ['a', 's', 's', 'i', 'g', 'n'];
            append_chars(&mut out, &w);
            out.push('|');
            let cs = chars_of(u.as_str());
            append_chars(&mut out, &cs);
            assert(out@ =~= encode_nav(intent@));
        },
        NavigationIntent::Replace(u) => {
            let w: [char; 7] = ['r', 'e', 'p', 'l', 'a', 'c', 'e'];
            append_chars(&mut out, &w);
            out.push('|');
            let cs = chars_of(u.as_str());
            append_chars(&mut out, &cs);
            assert(out@ =~= encode_nav(intent@));
        },
        NavigationIntent::Reload => {
            let w: [char; 6] = ['r', 'e', 'l', 'o', 'a', 'd'];
            append_chars(&mut out, &w);
            out.push('|');
            assert(out@ =~= encode_nav(intent@));
        },
    }
    string_of(&out)
}

fn same_word(a: &Vec<char>, w: &[char]) -> (b: bool)
    ensures
        b == (a@ == w@),
{
    crate::text::eq_chars(a, w)
}

/// Reads a recorded navigation back (see [`decode_nav`]).
pub fn decode_pending_nav_string(encoded: &str) -> (r: Option<NavigationIntent>)
    ensures
        match r {
            Some(i) => decode_nav(encoded@) == Some(i@),
            None => decode_nav(encoded@) is None,
        },
{
    let s = chars_of(encoded);
    let (kind, payload) = match split_once_exec(&s, '|') {
        Some(p) => p,
        None => (s, Vec::new()),
    };
    let aw: [char; 6] = ['a', 's', 's', 'i', 'g', 'n'];
    let pw: [char; 7] = ['r', 'e', 'p', 'l', 'a', 'c', 'e'];
    let lw: [char; 6] = ['r', 'e', 'l', 'o', 'a', 'd'];
    assert(aw@ == assign_word());
    assert(pw@ == replace_word());
    assert(lw@ == reload_word());
    if same_word(&kind, &aw) {
        Some(NavigationIntent::Assign(string_of(&payload)))
    } else if same_word(&kind, &pw) {
        Some(NavigationIntent::Replace(string_of(&payload)))
    } else if same_word(&kind, &lw) {
        Some(NavigationIntent::Reload)
    } else {
        None
    }
}

/// A text whose kind (the part before the first `|`, all of it when there
/// is none) is not `assign`, `replace` or `reload` reads back as no
/// navigation.
pub proof fn law_unknown_kind_is_refused(s: Seq<char>)
    requires
        ({
            let kind = match split_once(s, '|') {
                Some(p) => p.0,
                None => s,
            };
            kind != assign_word() && kind != replace_word() && kind != reload_word()
        }),
    ensures
        decode_nav(s) is None,
{
}

/// A recorded navigation reads back as itself: `decode_pending_nav_string`
/// of what `encode_pending_nav` writes for an intent is that intent.
pub proof fn law_nav_round_trip(n: NavView)
    ensures
        decode_nav(encode_nav(n)) == Some(n),
{
    let s = encode_nav(n);
    let w = match n {
        NavView::Assign(_) => assign_word(),
        NavView::Replace(_) => replace_word(),
        NavView::Reload => reload_word(),
    };
    let u = match n {
        NavView::Assign(u) => u,
        NavView::Replace(u) => u,
        NavView::Reload => Seq::empty(),
    };
    assert(s == w + seq!['|'] + u);
    assert(s[w.len() as int] == '|');
    assert(!w.contains('|'));
    crate::text::lemma_first_index(s, '|', w.len() as int);
    assert(s.take(w.len() as int) == w);
    assert(s.skip(w.len() as int + 1) == u);
}

/// The state of `window.location`.
pub struct Location {
    pub href: String,
    /// The last navigation asked for, as [`encode_nav`] writes it.
    pub pending_nav: Option<String>,
}

/// A fresh `location`: empty URL, no navigation asked for.
pub fn build_location_object() -> (l: Location)
    ensures
        l.href@ == Seq::<char>::empty(),
        l.pending_nav is None,
{
    Location { href: String::new(), pending_nav: None }
}

/// The host sets the current URL; no navigation is recorded.
pub fn set_location_href(location: &mut Location, href: &str)
    ensures
        final(location).href@ == href@,
        final(location).pending_nav == old(location).pending_nav,
{
    location.href = href.to_owned();
}

/// The navigation the script asked for last, if any.
pub fn read_pending_navigation(location: &Location) -> (r: Option<NavigationIntent>)
    ensures
        match location.pending_nav {
            None => r is None,
            Some(s) => match r {
                Some(i) => decode_nav(s@) == Some(i@),
                None => decode_nav(s@) is None,
            },
        },
{
    match &location.pending_nav {
        None => None,
        Some(s) => decode_pending_nav_string(s.as_str()),
    }
}

/// The host consumes the pending navigation.
pub fn clear_pending_navigation(location: &mut Location)
    ensures
        final(location).pending_nav is None,
        final(location).href@ == old(location).href@,
{
    location.pending_nav = None;
}

impl Location {
    /// `location.href` (read), also `location.toString()`.
    pub fn href(&self) -> (r: String)
        ensures
            r@ == self.href@,
    {
        self.href.clone()
    }

    /// `location.assign(url)`, and writing `location.href`: the URL
    /// becomes current and an assign navigation is recorded.
    pub fn assign(&mut self, url: &str)
        ensures
            final(self).href@ == url@,
            match final(self).pending_nav {
                Some(s) => s@ == encode_nav(NavView::Assign(url@)),
                None => false,
            },
    {
        self.href = url.to_owned();
        let intent = NavigationIntent::Assign(url.to_owned());
        self.pending_nav = Some(encode_pending_nav(&intent));
    }

    /// `location.replace(url)`.
    pub fn replace(&mut self, url: &str)
        ensures
            final(self).href@ == url@,
            match final(self).pending_nav {
                Some(s) => s@ == encode_nav(NavView::Replace(url@)),
                None => false,
            },
    {
        self.href = url.to_owned();
        let intent = NavigationIntent::Replace(url.to_owned());
        self.pending_nav = Some(encode_pending_nav(&intent));
    }

    /// `location.reload()`: the URL stays, a reload is recorded.
    pub fn reload(&mut self)
        ensures
            final(self).href@ == old(self).href@,
            match final(self).pending_nav {
                Some(s) => s@ == encode_nav(NavView::Reload),
                None => false,
            },
    {
        let intent = NavigationIntent::Reload;
        self.pending_nav = Some(encode_pending_nav(&intent));
    }
}

/// The parts of a URL that `location` reports.
pub struct UrlParts {
    pub scheme: String,
    pub host: Option<String>,
    pub port: Option<u16>,
    pub path: String,
    pub query: Option<String>,
    pub fragment: Option<String>,
}

pub struct UrlView {
    pub scheme: Seq<char>,
    pub host: Option<Seq<char>>,
    pub port: Option<u16>,
    pub path: Seq<char>,
    pub query: Option<Seq<char>>,
    pub fragment: Option<Seq<char>>,
}

pub open spec fn opt_view(o: Option<String>) -> Option<Seq<char>> {
    match o {
        Some(s) => Some(s@),
        None => None,
    }
}

impl View for UrlParts {
    type V = UrlView;

    open spec fn view(&self) -> UrlView {
        UrlView {
            scheme: self.scheme@,
            host: opt_view(self.host),
            port: self.port,
            path: self.path@,
            query: opt_view(self.query),
            fragment: opt_view(self.fragment),
        }
    }
}

pub open spec fn parts_view(p: Option<UrlParts>) -> Option<UrlView> {
    match p {
        Some(u) => Some(u@),
        None => None,
    }
}

/// What `url::Url::parse` makes of `input`: `None` when it refuses it,
/// otherwise the scheme, host, port, path, query and fragment it reports.
pub uninterp spec fn parsed_url(input: Seq<char>) -> Option<UrlView>;

/// Calls `url::Url::parse` and reads the parsed URL's `scheme`,
/// `host_str`, `port`, `path`, `query` and `fragment`.  The contract
/// claims only that the outcome depends on `input` alone.
#[verifier::external_body]
fn parse_url(input: &str) -> (r: Option<UrlParts>)
    ensures
        parts_view(r) == parsed_url(input@),
{
    url::Url::parse(input).ok().map(|u| UrlParts {
        scheme: u.scheme().to_owned(),
        host: u.host_str().map(str::to_owned),
        port: u.port(),
        path: u.path().to_owned(),
        query: u.query().map(str::to_owned),
        fragment: u.fragment().map(str::to_owned),
    })
}

pub open spec fn digit(d: int) -> char {
    if d == 0 {
        '0'
    } else if d == 1 {
        '1'
    } else if d == 2 {
        '2'
    } else if d == 3 {
        '3'
    } else if d == 4 {
        '4'
    } else if d == 5 {
        '5'
    } else if d == 6 {
        '6'
    } else if d == 7 {
        '7'
    } else if d == 8 {
        '8'
    } else {
        '9'
    }
}

/// `n` in decimal.
pub open spec fn decimal(n: nat) -> Seq<char>
    decreases n,
{
    if n < 10 {
        seq![digit(n as int)]
    } else {
        decimal(n / 10).push(digit((n % 10) as int))
    }
}

fn digit_exec(d: u16) -> (c: char)
    requires
        d < 10,
    ensures
        c == digit(d as int),
{
    if d == 0 {
        '0'
    } else if d == 1 {
        '1'
    } else if d == 2 {
        '2'
    } else if d == 3 {
        '3'
    } else if d == 4 {
        '4'
    } else if d == 5 {
        '5'
    } else if d == 6 {
        '6'
    } else if d == 7 {
        '7'
    } else if d == 8 {
        '8'
    } else {
        '9'
    }
}

fn decimal_exec(n: u16) -> (r: Vec<char>)
    ensures
        r@ == decimal(n as nat),
    decreases n,
{
    if n < 10 {
        let mut v: Vec<char> = Vec::new();
        v.push(digit_exec(n));
        assert(v@ == seq![digit(n as int)]);
        v
    } else {
        let mut v = decimal_exec(n / 10);
        v.push(digit_exec(n % 10));
        v
    }
}

pub open spec fn or_empty_text(o: Option<Seq<char>>) -> Seq<char> {
    match o {
        Some(s) => s,
        None => Seq::empty(),
    }
}

/// `location.protocol`: the scheme and `:`.
pub open spec fn protocol_text(u: Option<UrlView>) -> Seq<char> {
    match u {
        Some(v) => v.scheme + seq![':'],
        None => Seq::empty(),
    }
}

/// `location.hostname`: the host.
pub open spec fn hostname_text(u: Option<UrlView>) -> Seq<char> {
    match u {
        Some(v) => or_empty_text(v.host),
        None => Seq::empty(),
    }
}

/// `location.port`: the port in decimal, when the URL names one other
/// than its scheme's default.
pub open spec fn port_text(u: Option<UrlView>) -> Seq<char> {
    match u {
        Some(v) => match v.port {
            Some(p) => decimal(p as nat),
            None => Seq::empty(),
        },
        None => Seq::empty(),
    }
}

/// `location.host`: the host, and `:port` when there is a port.
pub open spec fn host_text(u: Option<UrlView>) -> Seq<char> {
    match u {
        Some(v) => match v.port {
            Some(p) => or_empty_text(v.host) + seq![':'] + decimal(p as nat),
            None => or_empty_text(v.host),
        },
        None => Seq::empty(),
    }
}

/// `location.pathname`: the path.
pub open spec fn pathname_text(u: Option<UrlView>) -> Seq<char> {
    match u {
        Some(v) => v.path,
        None => Seq::empty(),
    }
}

/// `location.search`: `?` and the query, when there is one.
pub open spec fn search_text(u: Option<UrlView>) -> Seq<char> {
    match u {
        Some(v) => match v.query {
            Some(q) => seq!['?'] + q,
            None => Seq::empty(),
        },
        None => Seq::empty(),
    }
}

/// `location.hash`: `#` and the fragment, when there is one.
pub open spec fn hash_text(u: Option<UrlView>) -> Seq<char> {
    match u {
        Some(v) => match v.fragment {
            Some(f) => seq!['#'] + f,
            None => Seq::empty(),
        },
        None => Seq::empty(),
    }
}

/// `location.origin`: `scheme://host` and `:port` when there is a port;
/// empty when the host is.
pub open spec fn origin_text(u: Option<UrlView>) -> Seq<char> {
    match u {
        Some(v) => {
            let host = or_empty_text(v.host);
            if host.len() == 0 {
                Seq::empty()
            } else {
                match v.port {
                    Some(p) => v.scheme + seq![':', '/', '/'] + host + seq![':'] + decimal(p as nat),
                    None => v.scheme + seq![':', '/', '/'] + host,
                }
            }
        },
        None => Seq::empty(),
    }
}

fn append_opt(out: &mut Vec<char>, o: &Option<String>)
    ensures
        final(out)@ == old(out)@ + or_empty_text(opt_view(*o)),
{
    match o {
        Some(s) => {
            let cs = chars_of(s.as_str());
            append_chars(out, &cs);
        },
        None => {
            assert(old(out)@ + Seq::<char>::empty() == old(out)@);
        },
    }
}

/// `location.protocol` of a parse outcome.
pub fn protocol_of(u: &Option<UrlParts>) -> (r: String)
    ensures
        r@ == protocol_text(parts_view(*u)),
{
    let mut out: Vec<char> = Vec::new();
    if let Some(p) = u {
        let cs = chars_of(p.scheme.as_str());
        append_chars(&mut out, &cs);
        out.push(':');
    }
    string_of(&out)
}

/// `location.hostname` of a parse outcome.
pub fn hostname_of(u: &Option<UrlParts>) -> (r: String)
    ensures
        r@ == hostname_text(parts_view(*u)),
{
    let mut out: Vec<char> = Vec::new();
    if let Some(p) = u {
        append_opt(&mut out, &p.host);
    }
    string_of(&out)
}

/// `location.port` of a parse outcome.
pub fn port_of(u: &Option<UrlParts>) -> (r: String)
    ensures
        r@ == port_text(parts_view(*u)),
{
    let mut out: Vec<char> = Vec::new();
    if let Some(p) = u {
        if let Some(n) = p.port {
            let d = decimal_exec(n);
            append_chars(&mut out, &d);
        }
    }
    string_of(&out)
}

/// `location.host` of a parse outcome.
pub fn host_of(u: &Option<UrlParts>) -> (r: String)
    ensures
        r@ == host_text(parts_view(*u)),
{
    let mut out: Vec<char> = Vec::new();
    if let Some(p) = u {
        append_opt(&mut out, &p.host);
        if let Some(n) = p.port {
            out.push(':');
            let d = decimal_exec(n);
            append_chars(&mut out, &d);
        }
    }
    string_of(&out)
}

/// `location.pathname` of a parse outcome.
pub fn pathname_of(u: &Option<UrlParts>) -> (r: String)
    ensures
        r@ == pathname_text(parts_view(*u)),
{
    match u {
        Some(p) => p.path.clone(),
        None => String::new(),
    }
}

/// `location.search` of a parse outcome.
pub fn search_of(u: &Option<UrlParts>) -> (r: String)
    ensures
        r@ == search_text(parts_view(*u)),
{
    let mut out: Vec<char> = Vec::new();
    if let Some(p) = u {
        if let Some(q) = &p.query {
            out.push('?');
            let cs = chars_of(q.as_str());
            append_chars(&mut out, &cs);
        }
    }
    string_of(&out)
}

/// `location.hash` of a parse outcome.
pub fn hash_of(u: &Option<UrlParts>) -> (r: String)
    ensures
        r@ == hash_text(parts_view(*u)),
{
    let mut out: Vec<char> = Vec::new();
    if let Some(p) = u {
        if let Some(f) = &p.fragment {
            out.push('#');
            let cs = chars_of(f.as_str());
            append_chars(&mut out, &cs);
        }
    }
    string_of(&out)
}

/// `location.origin` of a parse outcome.
pub fn origin_of(u: &Option<UrlParts>) -> (r: String)
    ensures
        r@ == origin_text(parts_view(*u)),
{
    let mut out: Vec<char> = Vec::new();
    if let Some(p) = u {
        let mut host: Vec<char> = Vec::new();
        append_opt(&mut host, &p.host);
        assert(host@ =~= or_empty_text(opt_view(p.host)));
        if host.len() > 0 {
            let cs = chars_of(p.scheme.as_str());
            append_chars(&mut out, &cs);
            out.push(':');
            out.push('/');
            out.push('/');
            append_chars(&mut out, &host);
            if let Some(n) = p.port {
                out.push(':');
                let d = decimal_exec(n);
                append_chars(&mut out, &d);
            }
        }
    }
    string_of(&out)
}

impl Location {
    /// `location.protocol`.
    pub fn protocol(&self) -> (r: String)
        ensures
            r@ == protocol_text(parsed_url(self.href@)),
    {
        protocol_of(&parse_url(self.href.as_str()))
    }

    /// `location.host`.
    pub fn host(&self) -> (r: String)
        ensures
            r@ == host_text(parsed_url(self.href@)),
    {
        host_of(&parse_url(self.href.as_str()))
    }

    /// `location.hostname`.
    pub fn hostname(&self) -> (r: String)
        ensures
            r@ == hostname_text(parsed_url(self.href@)),
    {
        hostname_of(&parse_url(self.href.as_str()))
    }

    /// `location.port`.
    pub fn port(&self) -> (r: String)
        ensures
            r@ == port_text(parsed_url(self.href@)),
    {
        port_of(&parse_url(self.href.as_str()))
    }

    /// `location.pathname`.
    pub fn pathname(&self) -> (r: String)
        ensures
            r@ == pathname_text(parsed_url(self.href@)),
    {
        pathname_of(&parse_url(self.href.as_str()))
    }

    /// `location.search`.
    pub fn search(&self) -> (r: String)
        ensures
            r@ == search_text(parsed_url(self.href@)),
    {
        search_of(&parse_url(self.href.as_str()))
    }

    /// `location.hash`.
    pub fn hash(&self) -> (r: String)
        ensures
            r@ == hash_text(parsed_url(self.href@)),
    {
        hash_of(&parse_url(self.href.as_str()))
    }

    /// `location.origin`.
    pub fn origin(&self) -> (r: String)
        ensures
            r@ == origin_text(parsed_url(self.href@)),
    {
        origin_of(&parse_url(self.href.as_str()))
    }
}

} // verus!
