//! The pure half of the connection dispatcher: status lines, request-line
//! parsing, body extraction, routing decisions and response framing. The
//! caller owns the socket: it reads the request text, performs the endpoint
//! it is told to, and writes the framed response back.

use vstd::prelude::*;
use vstd::string::{StrSliceExecFns, StringExecFns};

use crate::method::{spec_parse_method, spec_undefined_method_text};
use crate::router::{
    spec_no_handler_text, spec_resolve, spec_undefined_endpoint_text, split_path, Resolution,
    Router,
};

verus! {

/// The status line of a successful JSON response.
pub const OK_RESPONSE: &'static str = "200 OK\r\nContent-Type: application/json";

/// The status line of a response to an unroutable request.
pub const NOT_FOUND: &'static str = "404 NOT FOUND";

/// The status line of a response to an invalid request.
pub const BAD_REQUEST: &'static str = "400 BAD REQUEST";

/// The status line of a response to a failure inside a handler.
pub const INTERNAL_SERVER_ERROR: &'static str = "500 INTERNAL SERVER ERROR";

/// Whether a character separates the tokens of a request line.
pub open spec fn is_ws(c: char) -> bool {
    c == ' ' || c == '\t' || c == '\r'
}

/// The number of leading characters before the first line break (all, if
/// none occurs).
pub open spec fn line_prefix(s: Seq<char>) -> nat
    decreases s.len(),
{
    if s.len() == 0 || s[0] == '\n' {
        0
    } else {
        1 + line_prefix(s.drop_first())
    }
}

/// The number of leading separator characters.
pub open spec fn ws_prefix(s: Seq<char>) -> nat
    decreases s.len(),
{
    if s.len() == 0 || !is_ws(s[0]) {
        0
    } else {
        1 + ws_prefix(s.drop_first())
    }
}

/// The number of leading non-separator characters.
pub open spec fn token_prefix(s: Seq<char>) -> nat
    decreases s.len(),
{
    if s.len() == 0 || is_ws(s[0]) {
        0
    } else {
        1 + token_prefix(s.drop_first())
    }
}

/// The number of leading characters before the first `'?'` (all, if none
/// occurs).
pub open spec fn query_prefix(s: Seq<char>) -> nat
    decreases s.len(),
{
    if s.len() == 0 || s[0] == '?' {
        0
    } else {
        1 + query_prefix(s.drop_first())
    }
}

proof fn lemma_line_prefix_at(s: Seq<char>, k: int)
    requires
        0 <= k <= s.len(),
        forall|j: int| 0 <= j < k ==> s[j] != '\n',
        k == s.len() || s[k] == '\n',
    ensures
        line_prefix(s) == k,
    decreases k,
{
    if k > 0 {
        lemma_line_prefix_at(s.drop_first(), k - 1);
    }
}

proof fn lemma_ws_prefix_at(s: Seq<char>, k: int)
    requires
        0 <= k <= s.len(),
        forall|j: int| 0 <= j < k ==> is_ws(#[trigger] s[j]),
        k == s.len() || !is_ws(s[k]),
    ensures
        ws_prefix(s) == k,
    decreases k,
{
    if k > 0 {
        lemma_ws_prefix_at(s.drop_first(), k - 1);
    }
}

proof fn lemma_token_prefix_at(s: Seq<char>, k: int)
    requires
        0 <= k <= s.len(),
        forall|j: int| 0 <= j < k ==> !is_ws(#[trigger] s[j]),
        k == s.len() || is_ws(s[k]),
    ensures
        token_prefix(s) == k,
    decreases k,
{
    if k > 0 {
        lemma_token_prefix_at(s.drop_first(), k - 1);
    }
}

proof fn lemma_query_prefix_at(s: Seq<char>, k: int)
    requires
        0 <= k <= s.len(),
        forall|j: int| 0 <= j < k ==> s[j] != '?',
        k == s.len() || s[k] == '?',
    ensures
        query_prefix(s) == k,
    decreases k,
{
    if k > 0 {
        lemma_query_prefix_at(s.drop_first(), k - 1);
    }
}

/// The method token and the path of a request's first line: the line's
/// first two separator-delimited tokens, the second with any query string
/// after `'?'` stripped. `None` when the line has fewer than two tokens.
pub open spec fn spec_parse_request_line(s: Seq<char>) -> Option<(Seq<char>, Seq<char>)> {
    let line = s.take(line_prefix(s) as int);
    let rest0 = line.skip(ws_prefix(line) as int);
    let t0 = rest0.take(token_prefix(rest0) as int);
    let rest1 = rest0.skip(t0.len() as int);
    let rest2 = rest1.skip(ws_prefix(rest1) as int);
    let t1 = rest2.take(token_prefix(rest2) as int);
    if t0.len() == 0 || t1.len() == 0 {
        None
    } else {
        Some((t0, t1.take(query_prefix(t1) as int)))
    }
}

/// Extracts the method token and the routable path from a request's first
/// line.
pub fn parse_request_line(request: &str) -> (r: Option<(String, String)>)
    ensures
        match spec_parse_request_line(request@) {
            Some((mt, pt)) => r matches Some((m, p)) && m@ == mt && p@ == pt,
            None => r is None,
        },
{
    let ghost s = request@;
    let n = request.unicode_len();
    // end of the first line
    let mut e: usize = 0;
    while e < n && request.get_char(e) != '\n'
        invariant
            0 <= e <= n,
            n == s.len(),
            request@ == s,
            forall|j: int| 0 <= j < e ==> s[j] != '\n',
        decreases n - e,
    {
        e = e + 1;
    }
    proof {
        lemma_line_prefix_at(s, e as int);
        assert(s.take(e as int).len() == e);
    }
    let ghost line = s.take(e as int);
    // leading separators
    let mut a0: usize = 0;
    while a0 < e && is_sep(request.get_char(a0))
        invariant
            0 <= a0 <= e <= n,
            n == s.len(),
            request@ == s,
            e as int == line_prefix(s),
            forall|j: int| 0 <= j < a0 ==> is_ws(#[trigger] s[j]),
            forall|j: int| 0 <= j < e ==> s[j] != '\n',
        decreases e - a0,
    {
        a0 = a0 + 1;
    }
    // the method token
    let mut b0: usize = a0;
    while b0 < e && !is_sep(request.get_char(b0))
        invariant
            0 <= a0 <= b0 <= e <= n,
            n == s.len(),
            request@ == s,
            e as int == line_prefix(s),
            forall|j: int| 0 <= j < a0 ==> is_ws(#[trigger] s[j]),
            a0 == e || !is_ws(s[a0 as int]),
            forall|j: int| a0 <= j < b0 ==> !is_ws(#[trigger] s[j]),
            forall|j: int| 0 <= j < e ==> s[j] != '\n',
        decreases e - b0,
    {
        b0 = b0 + 1;
    }
    // separators between the tokens
    let mut a1: usize = b0;
    while a1 < e && is_sep(request.get_char(a1))
        invariant
            0 <= a0 <= b0 <= a1 <= e <= n,
            n == s.len(),
            request@ == s,
            e as int == line_prefix(s),
            forall|j: int| 0 <= j < a0 ==> is_ws(#[trigger] s[j]),
            a0 == e || !is_ws(s[a0 as int]),
            forall|j: int| a0 <= j < b0 ==> !is_ws(#[trigger] s[j]),
            b0 == e || is_ws(s[b0 as int]),
            forall|j: int| b0 <= j < a1 ==> is_ws(#[trigger] s[j]),
            forall|j: int| 0 <= j < e ==> s[j] != '\n',
        decreases e - a1,
    {
        a1 = a1 + 1;
    }
    // the path token
    let mut b1: usize = a1;
    while b1 < e && !is_sep(request.get_char(b1))
        invariant
            0 <= a0 <= b0 <= a1 <= b1 <= e <= n,
            n == s.len(),
            request@ == s,
            e as int == line_prefix(s),
            forall|j: int| 0 <= j < a0 ==> is_ws(#[trigger] s[j]),
            a0 == e || !is_ws(s[a0 as int]),
            forall|j: int| a0 <= j < b0 ==> !is_ws(#[trigger] s[j]),
            b0 == e || is_ws(s[b0 as int]),
            forall|j: int| b0 <= j < a1 ==> is_ws(#[trigger] s[j]),
            a1 == e || !is_ws(s[a1 as int]),
            forall|j: int| a1 <= j < b1 ==> !is_ws(#[trigger] s[j]),
            forall|j: int| 0 <= j < e ==> s[j] != '\n',
        decreases e - b1,
    {
        b1 = b1 + 1;
    }
    proof {
        let rest0 = line.skip(a0 as int);
        assert forall|j: int| 0 <= j < a0 implies is_ws(#[trigger] line[j]) by {
            assert(line[j] == s[j]);
        }
        lemma_ws_prefix_at(line, a0 as int);
        assert forall|j: int| 0 <= j < b0 - a0 implies !is_ws(#[trigger] rest0[j]) by {
            assert(rest0[j] == s[a0 + j]);
        }
        if b0 < e {
            assert(rest0[b0 - a0] == s[b0 as int]);
        }
        lemma_token_prefix_at(rest0, b0 - a0);
        let rest1 = rest0.skip(b0 - a0);
        assert forall|j: int| 0 <= j < a1 - b0 implies is_ws(#[trigger] rest1[j]) by {
            assert(rest1[j] == s[b0 + j]);
        }
        if a1 < e {
            assert(rest1[a1 - b0] == s[a1 as int]);
        }
        lemma_ws_prefix_at(rest1, a1 - b0);
        let rest2 = rest1.skip(a1 - b0);
        assert forall|j: int| 0 <= j < b1 - a1 implies !is_ws(#[trigger] rest2[j]) by {
            assert(rest2[j] == s[a1 + j]);
        }
        if b1 < e {
            assert(rest2[b1 - a1] == s[b1 as int]);
        }
        lemma_token_prefix_at(rest2, b1 - a1);
        assert(rest0 =~= s.subrange(a0 as int, e as int));
        assert(rest0.take(b0 - a0) =~= s.subrange(a0 as int, b0 as int));
        assert(rest1 =~= s.subrange(b0 as int, e as int));
        assert(rest2 =~= s.subrange(a1 as int, e as int));
        assert(rest2.take(b1 - a1) =~= s.subrange(a1 as int, b1 as int));
    }
    if b0 == a0 || b1 == a1 {
        return None;
    }
    // strip the query string from the path token
    let mut qe: usize = a1;
    while qe < b1 && request.get_char(qe) != '?'
        invariant
            a1 <= qe <= b1 <= n,
            n == s.len(),
            request@ == s,
            forall|j: int| a1 <= j < qe ==> s[j] != '?',
        decreases b1 - qe,
    {
        qe = qe + 1;
    }
    let ghost t1 = s.subrange(a1 as int, b1 as int);
    proof {
        assert forall|j: int| 0 <= j < qe - a1 implies t1[j] != '?' by {
            assert(t1[j] == s[a1 + j]);
        }
        if qe < b1 {
            assert(t1[qe - a1] == s[qe as int]);
        }
        lemma_query_prefix_at(t1, qe - a1);
        assert(t1.take(qe - a1) =~= s.subrange(a1 as int, qe as int));
    }
    let mt = request.substring_char(a0, b0).to_owned();
    let pt = request.substring_char(a1, qe).to_owned();
    proof {
        assert(mt@ =~= s.subrange(a0 as int, b0 as int));
        assert(pt@ =~= s.subrange(a1 as int, qe as int));
    }
    Some((mt, pt))
}

/// Whether a character separates the tokens of a request line.
fn is_sep(c: char) -> (r: bool)
    ensures
        r == is_ws(c),
{
    c == ' ' || c == '\t' || c == '\r'
}

/// What the dispatcher decides for one request.
pub enum Dispatch<'a, H> {
    /// The request routed to this handler, with the text of every dynamic
    /// path segment, in order: the caller performs the handler and builds
    /// the response from its outcome.
    Invoke(&'a H, Vec<String>),
    /// The request could not be routed: the caller writes a response with
    /// this status line and this body.
    Reject(String, String),
    /// The request's first line does not hold a method token and a path
    /// token.
    Malformed,
}

/// Decides how to serve one request: parses the request line, resolves the
/// path and method against the router, and either names the handler to
/// invoke (with its captured parameters) or gives the not-found response to
/// write; a request line without two tokens is reported as malformed.
pub fn dispatch<'a, H>(router: &'a Router<H>, request: &str) -> (r: Dispatch<'a, H>)
    requires
        router.wf(),
    ensures
        match spec_parse_request_line(request@) {
            None => r is Malformed,
            Some((mt, pt)) => match spec_parse_method(mt) {
                None => r matches Dispatch::Reject(status, body) && status@ == NOT_FOUND@ && body@
                    == spec_undefined_method_text(mt),
                Some(m) => match spec_resolve(router@.node, split_path(pt), m) {
                    Resolution::Found(h, caps) => r matches Dispatch::Invoke(hr, ps) && *hr == h
                        && ps.deep_view() == caps,
                    Resolution::NoHandler => r matches Dispatch::Reject(status, body) && status@
                        == NOT_FOUND@ && body@ == spec_no_handler_text(m, pt),
                    Resolution::NoPath => r matches Dispatch::Reject(status, body) && status@
                        == NOT_FOUND@ && body@ == spec_undefined_endpoint_text(pt),
                },
            },
        },
{
    let parsed = parse_request_line(request);
    match parsed {
        None => Dispatch::Malformed,
        Some((mt, pt)) => {
            match router.get_handler(pt.as_str(), mt.as_str()) {
                Ok((h, params)) => Dispatch::Invoke(h, params),
                Err(e) => {
                    let body = e.message();
                    Dispatch::Reject(String::from_str(NOT_FOUND), body)
                },
            }
        },
    }
}

/// The blank line that separates a request's head from its body.
pub open spec fn blank_line() -> Seq<char> {
    seq!['\r', '\n', '\r', '\n']
}

/// Whether the four characters at `j` are something other than a blank
/// line.
pub open spec fn no_blank_at(s: Seq<char>, j: int) -> bool {
    s.subrange(j, j + 4) != blank_line()
}

/// The number of leading characters before the first blank line (the whole
/// length, if none occurs).
pub open spec fn sep_scan(s: Seq<char>) -> nat
    decreases s.len(),
{
    if s.len() < 4 {
        s.len()
    } else if s.take(4) == blank_line() {
        0
    } else {
        1 + sep_scan(s.drop_first())
    }
}

/// `sep_scan` finds the first blank line.
proof fn lemma_sep_scan_found(s: Seq<char>, k: int)
    requires
        0 <= k,
        k + 4 <= s.len(),
        s.subrange(k, k + 4) == blank_line(),
        forall|j: int| 0 <= j < k ==> no_blank_at(s, j),
    ensures
        sep_scan(s) == k,
    decreases k,
{
    if k == 0 {
        assert(s.take(4) =~= s.subrange(0, 4));
    } else {
        assert(no_blank_at(s, 0));
        assert(s.take(4) =~= s.subrange(0, 4));
        let t = s.drop_first();
        assert(t.subrange(k - 1, k + 3) =~= s.subrange(k, k + 4));
        assert forall|j: int| 0 <= j < k - 1 implies no_blank_at(t, j) by {
            assert(t.subrange(j, j + 4) =~= s.subrange(j + 1, j + 5));
            assert(no_blank_at(s, j + 1));
        }
        lemma_sep_scan_found(t, k - 1);
    }
}

/// `sep_scan` runs to the end when no blank line occurs.
proof fn lemma_sep_scan_none(s: Seq<char>)
    requires
        forall|j: int| 0 <= j && j + 4 <= s.len() ==> no_blank_at(s, j),
    ensures
        sep_scan(s) == s.len(),
    decreases s.len(),
{
    if s.len() >= 4 {
        assert(no_blank_at(s, 0));
        assert(s.take(4) =~= s.subrange(0, 4));
        let t = s.drop_first();
        assert forall|j: int| 0 <= j && j + 4 <= t.len() implies no_blank_at(t, j) by {
            assert(t.subrange(j, j + 4) =~= s.subrange(j + 1, j + 5));
            assert(no_blank_at(s, j + 1));
        }
        lemma_sep_scan_none(t);
    }
}

/// The request's body: everything after the first blank line, or the whole
/// text when there is none.
pub open spec fn spec_body(s: Seq<char>) -> Seq<char> {
    if sep_scan(s) + 4 <= s.len() {
        s.skip(sep_scan(s) as int + 4)
    } else {
        s
    }
}

/// Extracts the request's body: everything after the first blank line, or
/// the whole text when there is none. Decoding it is the handler's
/// business.
pub fn request_body(request: &str) -> (r: String)
    ensures
        r@ == spec_body(request@),
{
    let ghost s = request@;
    let n = request.unicode_len();
    if n >= 4 {
        let mut i: usize = 0;
        while i <= n - 4
            invariant
                0 <= i <= n - 3,
                4 <= n == s.len(),
                request@ == s,
                forall|j: int| 0 <= j < i ==> no_blank_at(s, j),
            decreases n - i,
        {
            let hit = request.get_char(i) == '\r' && request.get_char(i + 1) == '\n'
                && request.get_char(i + 2) == '\r' && request.get_char(i + 3) == '\n';
            if hit {
                proof {
                    assert(s.subrange(i as int, i + 4) =~= blank_line());
                    lemma_sep_scan_found(s, i as int);
                }
                let b = request.substring_char(i + 4, n).to_owned();
                proof {
                    assert(b@ =~= s.skip(i + 4));
                }
                return b;
            }
            proof {
                assert(no_blank_at(s, i as int)) by {
                    if s.subrange(i as int, i + 4) == blank_line() {
                        assert(s.subrange(i as int, i + 4)[0] == s[i as int]);
                        assert(s.subrange(i as int, i + 4)[1] == s[i + 1]);
                        assert(s.subrange(i as int, i + 4)[2] == s[i + 2]);
                        assert(s.subrange(i as int, i + 4)[3] == s[i + 3]);
                    }
                }
            }
            i = i + 1;
        }
        proof {
            lemma_sep_scan_none(s);
        }
        request.to_owned()
    } else {
        proof {
            lemma_sep_scan_none(s);
        }
        request.to_owned()
    }
}

/// Builds the wire form of one response: the protocol, the status line, a
/// blank line and the body.
pub fn build_response(status_line: &str, content: &str) -> (r: String)
    ensures
        r@ == "HTTP/1.1 "@ + status_line@ + "\r\n\r\n"@ + content@,
{
    let r = String::from_str("HTTP/1.1 ").concat(status_line).concat("\r\n\r\n").concat(content);
    proof {
        assert(r@ =~= "HTTP/1.1 "@ + status_line@ + "\r\n\r\n"@ + content@);
    }
    r
}

} // verus!
