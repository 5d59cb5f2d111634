//! The cross-origin headers that every response carries.

use crate::response::Status;
use vstd::prelude::*;

verus! {

/// A response header.
#[derive(Debug, PartialEq, Eq)]
pub struct Header {
    pub name: String,
    pub value: String,
}

/// The headers as pairs of name and value.
pub open spec fn header_views(v: Seq<Header>) -> Seq<(Seq<char>, Seq<char>)> {
    Seq::new(v.len(), |i: int| (v[i].name@, v[i].value@))
}

/// The headers set on every response.
pub open spec fn common_headers() -> Seq<(Seq<char>, Seq<char>)> {
    seq![
        ("Access-Control-Allow-Origin"@, "*"@),
        ("Access-Control-Allow-Methods"@, "GET, POST, OPTIONS"@),
        ("Access-Control-Allow-Headers"@, "*"@),
        ("Access-Control-Allow-Credentials"@, "true"@),
    ]
}

/// The header added to the answer to an `OPTIONS` request.
pub open spec fn max_age_header() -> (Seq<char>, Seq<char>) {
    ("Access-Control-Max-Age"@, "3600"@)
}

/// The headers for a response, given whether the request was `OPTIONS`.
pub open spec fn headers_for(is_options: bool) -> Seq<(Seq<char>, Seq<char>)> {
    if is_options {
        common_headers().push(max_age_header())
    } else {
        common_headers()
    }
}

/// What to change on a response.
#[derive(Debug, PartialEq, Eq)]
pub struct Amendment {
    /// The headers to set.
    pub headers: Vec<Header>,
    /// The status to set, if the response's own is to be replaced.
    pub status: Option<Status>,
}

/// The rule by which cross-origin headers are added to responses.
#[derive(Clone, Copy, Debug, PartialEq, Eq, Structural)]
pub struct CORS;

impl CORS {
    /// The name under which the rule is registered.
    pub fn info(&self) -> (name: String)
        ensures
            name@ == "Add CORS headers to responses"@,
    {
        "Add CORS headers to responses".to_owned()
    }

    /// What to change on the response to a request.  Every response gets
    /// the common headers; the answer to `OPTIONS` also gets a maximal age
    /// and the status `NoContent`.
    pub fn on_response(&self, is_options: bool) -> (r: Amendment)
        ensures
            header_views(r.headers@) == headers_for(is_options),
            r.status == if is_options {
                Some(Status::NoContent)
            } else {
                None::<Status>
            },
    {
        let mut headers: Vec<Header> = Vec::new();
        headers.push(
            Header { name: "Access-Control-Allow-Origin".to_owned(), value: "*".to_owned() },
        );
        headers.push(
            Header {
                name: "Access-Control-Allow-Methods".to_owned(),
                value: "GET, POST, OPTIONS".to_owned(),
            },
        );
        headers.push(
            Header { name: "Access-Control-Allow-Headers".to_owned(), value: "*".to_owned() },
        );
        headers.push(
            Header {
                name: "Access-Control-Allow-Credentials".to_owned(),
                value: "true".to_owned(),
            },
        );
        if is_options {
            headers.push(
                Header { name: "Access-Control-Max-Age".to_owned(), value: "3600".to_owned() },
            );
            assert(header_views(headers@) =~= headers_for(true));
            Amendment { headers, status: Some(Status::NoContent) }
        } else {
            assert(header_views(headers@) =~= headers_for(false));
            Amendment { headers, status: None }
        }
    }
}

} // verus!
