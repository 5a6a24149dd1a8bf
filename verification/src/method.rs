//! The closed set of HTTP methods the router understands, parsed
//! case-insensitively from request text.

use vstd::prelude::*;
use vstd::string::StringExecFns;

verus! {

/// Enumerates the http methods.
#[derive(Clone, Copy, PartialEq, Eq, Hash, Debug, Structural)]
pub enum Method {
    /// The `GET` method.
    Get,
    /// The `POST` method.
    Post,
    /// The `DELETE` method.
    Delete,
}

/// The ASCII-lowercase counterpart of a character; characters outside
/// `'A'..='Z'` are unchanged.
pub open spec fn lower_char(c: char) -> char {
    if 65 <= c as u32 && c as u32 <= 90 {
        ((c as u32) + 32) as char
    } else {
        c
    }
}

/// A character sequence with every ASCII uppercase letter lowered.
pub open spec fn lower(s: Seq<char>) -> Seq<char> {
    s.map_values(|c: char| lower_char(c))
}

/// The canonical upper-case name of a method.
pub open spec fn spec_method_name(m: Method) -> Seq<char> {
    match m {
        Method::Get => "GET"@,
        Method::Post => "POST"@,
        Method::Delete => "DELETE"@,
    }
}

/// The method a request token denotes, ignoring ASCII case; `None` for a
/// token outside the closed set.
pub open spec fn spec_parse_method(s: Seq<char>) -> Option<Method> {
    if lower(s) == lower("GET"@) {
        Some(Method::Get)
    } else if lower(s) == lower("POST"@) {
        Some(Method::Post)
    } else if lower(s) == lower("DELETE"@) {
        Some(Method::Delete)
    } else {
        None
    }
}

/// The message reported for a token outside the closed method set.
pub open spec fn spec_undefined_method_text(token: Seq<char>) -> Seq<char> {
    "Undefined method "@ + token
}

/// Relies on `uncased::eq`: it returns whether the two strings are equal
/// once every ASCII uppercase letter is lowered, and reads nothing else.
#[verifier::external_body]
fn eq_ignoring_case(a: &str, b: &str) -> (r: bool)
    ensures
        r == (lower(a@) == lower(b@)),
{
    uncased::eq(a, b)
}

impl Method {
    /// The canonical upper-case name of this method.
    pub fn as_str(self) -> (r: &'static str)
        ensures
            r@ == spec_method_name(self),
    {
        match self {
            Method::Get => "GET",
            Method::Post => "POST",
            Method::Delete => "DELETE",
        }
    }

    /// Parses a request token into a method, ignoring ASCII case; a token
    /// outside the closed set is an error carrying a descriptive message.
    pub fn from_str(s: &str) -> (r: Result<Method, String>)
        ensures
            match spec_parse_method(s@) {
                Some(m) => r == Ok::<Method, String>(m),
                None => r matches Err(e) && e@ == spec_undefined_method_text(s@),
            },
    {
        if eq_ignoring_case(s, "GET") {
            Ok(Method::Get)
        } else if eq_ignoring_case(s, "POST") {
            Ok(Method::Post)
        } else if eq_ignoring_case(s, "DELETE") {
            Ok(Method::Delete)
        } else {
            Err(String::from_str("Undefined method ").concat(s))
        }
    }
}

} // verus!
