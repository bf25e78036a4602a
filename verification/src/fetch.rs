//! The `Response` that `fetch(url)` resolves to: `ok` (a status from 200
//! up to but excluding 300), `status`, `statusText`, the body for
//! `text()`, and `headers` keyed by lower-cased name (a later header
//! overrides an earlier one of the same name).  Before any request, the
//! argument of `fetch` is checked and its URL parsed with `net_cat`; the
//! request itself is the host's business.

use vstd::prelude::*;
use crate::strmap::{last_value, StrMap};
use crate::text::{append_chars, chars_of, first_index, lower_chars, lower_seq, string_of};

verus! {

/// Whether a response with `status` is `ok`.
pub open spec fn is_ok_status(status: u16) -> bool {
    200 <= status < 300
}

/// `response.ok` for `status`.
pub fn response_ok(status: u16) -> (b: bool)
    ensures
        b == is_ok_status(status),
{
    200 <= status && status < 300
}

/// The headers with their names lower-cased, in order.
pub open spec fn lowered_headers(headers: Seq<(String, String)>) -> Seq<(Seq<char>, Seq<char>)> {
    headers.map_values(|h: (String, String)| (lower_seq(h.0@), h.1@))
}

/// A response as scripts see it.
pub struct FetchResponse {
    pub ok: bool,
    pub status: u16,
    pub status_text: String,
    pub body: String,
    pub headers: StrMap,
}

/// The `headers` object of a response: names lower-cased, a later header
/// overriding an earlier one of the same name.
pub fn build_headers(headers: &Vec<(String, String)>) -> (m: StrMap)
    ensures
        m.wf(),
        forall|k: Seq<char>| #[trigger] m.get_spec(k) == last_value(lowered_headers(headers@), k),
{
    let mut m = StrMap::new();
    let mut i: usize = 0;
    while i < headers.len()
        invariant
            i <= headers@.len(),
            m.wf(),
            forall|k: Seq<char>| #[trigger] m.get_spec(k) == last_value(lowered_headers(headers@).take(i as int), k),
        decreases headers@.len() - i,
    {
        proof {
            let t = lowered_headers(headers@).take(i + 1);
            assert(t.drop_last() == lowered_headers(headers@).take(i as int));
            assert(t.last() == (lower_seq(headers@[i as int].0@), headers@[i as int].1@));
        }
        let name = lower_chars(&chars_of(headers[i].0.as_str()));
        let key = string_of(&name);
        m.insert(key.as_str(), headers[i].1.as_str());
        i = i + 1;
    }
    assert(lowered_headers(headers@).take(headers@.len() as int) == lowered_headers(headers@));
    m
}

/// Builds the response for a reply with `status`, `reason`, `body` and
/// `headers`.
pub fn build_response(status: u16, reason: &str, body: &str, headers: &Vec<(String, String)>) -> (r: FetchResponse)
    ensures
        r.ok == is_ok_status(status),
        r.status == status,
        r.status_text@ == reason@,
        r.body@ == body@,
        r.headers.wf(),
        forall|k: Seq<char>| #[trigger] r.headers.get_spec(k) == last_value(lowered_headers(headers@), k),
{
    FetchResponse {
        ok: response_ok(status),
        status,
        status_text: reason.to_owned(),
        body: body.to_owned(),
        headers: build_headers(headers),
    }
}

impl FetchResponse {
    /// What `response.text()` resolves to: the body.
    pub fn text(&self) -> (r: String)
        ensures
            r@ == self.body@,
    {
        self.body.clone()
    }
}

#[verifier::external_type_specification]
#[verifier::external_body]
pub struct ExNetUrl(net_cat::Url);

/// Whether `://` starts at `i` of `s`.
pub open spec fn scheme_mark_at(s: Seq<char>, i: int) -> bool {
    0 <= i && i + 3 <= s.len() && s[i] == ':' && s[i + 1] == '/' && s[i + 2] == '/'
}

/// The first position from `i` on where `://` starts in `s`; `-1` when
/// there is none.
pub open spec fn scheme_mark_from(s: Seq<char>, i: nat) -> int
    decreases s.len() - i,
{
    if i + 3 > s.len() {
        -1
    } else if scheme_mark_at(s, i as int) {
        i as int
    } else {
        scheme_mark_from(s, i + 1)
    }
}

/// The position of the last `c` in `s`; `-1` when there is none.
pub open spec fn last_index(s: Seq<char>, c: char) -> int
    decreases s.len(),
{
    if s.len() == 0 {
        -1
    } else if s.last() == c {
        s.len() - 1
    } else {
        last_index(s.drop_last(), c)
    }
}

/// The decimal value of the digits `d`.
pub open spec fn digits_value(d: Seq<char>) -> int
    decreases d.len(),
{
    if d.len() == 0 {
        0
    } else {
        digits_value(d.drop_last()) * 10 + (d.last() as int - '0' as int)
    }
}

/// The digits of a port text: what follows a leading `+`, if any.
pub open spec fn port_digits(s: Seq<char>) -> Seq<char> {
    if s.len() > 0 && s[0] == '+' { s.drop_first() } else { s }
}

/// What `str::parse::<u16>` accepts: an optional `+`, then one or more
/// ASCII digits whose value fits in a `u16`.
pub open spec fn is_u16_text(s: Seq<char>) -> bool {
    let d = port_digits(s);
    &&& d.len() > 0
    &&& forall|j: int| 0 <= j < d.len() ==> '0' <= #[trigger] d[j] && d[j] <= '9'
    &&& digits_value(d) <= 65535
}

/// What `str::parse::<u16>` gives for `s`.
pub open spec fn u16_text_value(s: Seq<char>) -> Option<u16> {
    if is_u16_text(s) {
        Some(digits_value(port_digits(s)) as u16)
    } else {
        None
    }
}

/// The port of a URL whose authority names none: 443 for the scheme
/// written exactly `https`, 80 otherwise.
pub open spec fn default_port(scheme: Seq<char>) -> u16 {
    if scheme == "https"@ {
        443
    } else {
        80
    }
}

/// A parsed URL's parts, as plain values.
pub struct NetUrlParts {
    pub scheme: String,
    pub host: String,
    pub port: u16,
    pub path: String,
    pub query: Option<String>,
}

pub struct NetUrlView {
    pub scheme: Seq<char>,
    pub host: Seq<char>,
    pub port: u16,
    pub path: Seq<char>,
    pub query: Option<Seq<char>>,
}

impl View for NetUrlParts {
    type V = NetUrlView;

    open spec fn view(&self) -> NetUrlView {
        NetUrlView {
            scheme: self.scheme@,
            host: self.host@,
            port: self.port,
            path: self.path@,
            query: match self.query {
                Some(q) => Some(q@),
                None => None,
            },
        }
    }
}

/// The parts that `net_cat::Url::parse` finds in `source`, or `None` when
/// it refuses it.  The scheme is the text before the first `://`, which
/// must not be empty, ASCII-lower-cased.  After the `://`, the authority
/// runs up to the first `/` (the whole rest when there is none, the path
/// then being `/`), and must not be empty.  The host is the authority up
/// to its last `:`, and what follows that `:` must parse as a `u16`
/// port; an authority without `:` is all host, with the default port of
/// the scheme as written.  The path runs from the `/` up to the first
/// `?`; what follows the `?` is the query.
pub open spec fn net_url_parts(source: Seq<char>) -> Option<NetUrlView> {
    let i = scheme_mark_from(source, 0);
    if i <= 0 {
        None
    } else {
        let scheme = source.take(i);
        let rest = source.skip(i + 3);
        let slash = first_index(rest, '/');
        let authority = if slash >= 0 { rest.take(slash) } else { rest };
        let tail = if slash >= 0 { rest.skip(slash) } else { seq!['/'] };
        let colon = last_index(authority, ':');
        let host = if colon >= 0 { authority.take(colon) } else { authority };
        let port = if colon >= 0 { u16_text_value(authority.skip(colon + 1)) } else { Some(default_port(scheme)) };
        let q = first_index(tail, '?');
        match port {
            Some(n) => if authority.len() == 0 {
                None
            } else {
                Some(NetUrlView {
                    scheme: lower_seq(scheme),
                    host,
                    port: n,
                    path: if q >= 0 { tail.take(q) } else { tail },
                    query: if q >= 0 { Some(tail.skip(q + 1)) } else { None },
                })
            },
            None => None,
        }
    }
}

/// The text that `{:?}` writes for a string: the string quoted, with its
/// special characters escaped.
pub uninterp spec fn debug_quoted(s: Seq<char>) -> Seq<char>;

/// Calls `net_cat::Url::parse` and reads the parsed URL's parts through
/// its getters.  The contract states the parts (see [`net_url_parts`]);
/// on a refusal, which is always `Error::InvalidUrl` holding `source`, it
/// gives that error's `Display` text, `invalid url: ` and the source as
/// `{:?}` writes it.
#[verifier::external_body]
fn parse_net_url(source: &str) -> (r: Result<(net_cat::Url, NetUrlParts), String>)
    ensures
        match r {
            Ok((_, p)) => net_url_parts(source@) == Some(p@),
            Err(m) => net_url_parts(source@) is None && m@ == "invalid url: "@ + debug_quoted(source@),
        },
{
    let u = match net_cat::Url::parse(source) {
        Ok(u) => u,
        Err(e) => return Err(format!("{e}")),
    };
    let query = u.query().map(String::from);
    let parts = NetUrlParts { scheme: u.scheme().into(), host: u.host().into(), port: u.port(), path: u.path().into(), query };
    Ok((u, parts))
}

/// The rejection message of `fetch` when the argument is not a string.
pub open spec fn missing_url_message() -> Seq<char> {
    "TypeError: fetch() requires a URL string"@
}

/// The start of the rejection message of a failed `fetch`.
pub open spec fn fetch_failed_prefix() -> Seq<char> {
    "TypeError: fetch failed: "@
}

/// The rejection message of a `fetch` that failed with `detail`.
pub fn fetch_failed_message(detail: &str) -> (r: String)
    ensures
        r@ == fetch_failed_prefix() + detail@,
{
    let prefix = "TypeError: fetch failed: ";
    let mut cs = chars_of(prefix);
    let d = chars_of(detail);
    append_chars(&mut cs, &d);
    string_of(&cs)
}

/// The rejection message of a `fetch` whose URL `source` does not parse.
pub open spec fn invalid_url_message(source: Seq<char>) -> Seq<char> {
    fetch_failed_prefix() + "invalid url: "@ + debug_quoted(source)
}

/// What `fetch(arg)` requests: with no string argument, the rejection
/// "requires a URL string"; with a string that `net_cat` parses as a URL,
/// that URL and its parts; otherwise the rejection "TypeError: fetch
/// failed: invalid url: " followed by the string as `{:?}` writes it.
pub fn fetch_target(arg: Option<&str>) -> (r: Result<(net_cat::Url, NetUrlParts), String>)
    ensures
        match arg {
            None => r matches Err(m) && m@ == missing_url_message(),
            Some(s) => match r {
                Ok((_, p)) => net_url_parts(s@) == Some(p@),
                Err(m) => net_url_parts(s@) is None && m@ == invalid_url_message(s@),
            },
        },
{
    match arg {
        None => {
            let m = "TypeError: fetch() requires a URL string";
            Err(string_of(&chars_of(m)))
        },
        Some(s) => match parse_net_url(s) {
            Ok(found) => Ok(found),
            Err(text) => {
                let m = fetch_failed_message(text.as_str());
                assert(m@ =~= invalid_url_message(s@));
                Err(m)
            },
        },
    }
}

} // verus!
