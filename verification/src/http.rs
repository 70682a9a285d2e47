//! The HTTP requests the client makes and the responses it reads, as plain values.
use vstd::prelude::*;

use crate::text::lowercase_of;

verus! {

/// The HTTP method of a request.
#[derive(Debug, Clone, Copy, PartialEq, Eq, Structural)]
pub enum Method {
    Get,
    Post,
}

/// An HTTP request: method, URL, headers in order, and body.
#[derive(Debug, Clone)]
pub struct HttpRequest {
    pub method: Method,
    pub url: String,
    pub headers: Vec<(String, String)>,
    pub body: Vec<u8>,
}

/// An HTTP response: status code, headers in order, and body.
#[derive(Debug, Clone)]
pub struct HttpResponse {
    pub status: u16,
    pub headers: Vec<(String, String)>,
    pub bytes: Vec<u8>,
}

/// A request as plain values.
pub struct RequestView {
    pub method: Method,
    pub url: Seq<char>,
    pub headers: Seq<(Seq<char>, Seq<char>)>,
    pub body: Seq<u8>,
}

impl View for HttpRequest {
    type V = RequestView;

    open spec fn view(&self) -> RequestView {
        RequestView {
            method: self.method,
            url: self.url@,
            headers: self.headers@.map_values(|h: (String, String)| (h.0@, h.1@)),
            body: self.body@,
        }
    }
}

/// The value of the first header whose name, lowercased, equals the lowercased key.
pub open spec fn header_value(headers: Seq<(String, String)>, key: Seq<char>) -> Option<Seq<char>>
    decreases headers.len(),
{
    if headers.len() == 0 {
        None
    } else if lowercase_of(headers[0].0@) == lowercase_of(key) {
        Some(headers[0].1@)
    } else {
        header_value(headers.drop_first(), key)
    }
}

/// The header value found for a key is that of the first header whose lowercased name is
/// the lowercased key; none is found when no header's name matches.
pub proof fn lemma_header_value_first_match(headers: Seq<(String, String)>, key: Seq<char>)
    ensures
        match header_value(headers, key) {
            Some(v) => exists|i: int|
                0 <= i < headers.len() && lowercase_of(#[trigger] headers[i].0@) == lowercase_of(key)
                    && headers[i].1@ == v && forall|j: int|
                    0 <= j < i ==> lowercase_of(#[trigger] headers[j].0@) != lowercase_of(key),
            None => forall|i: int| 0 <= i < headers.len() ==> lowercase_of(#[trigger] headers[i].0@) != lowercase_of(key),
        },
    decreases headers.len(),
{
    if headers.len() > 0 {
        let rest = headers.drop_first();
        lemma_header_value_first_match(rest, key);
        if lowercase_of(headers[0].0@) != lowercase_of(key) {
            match header_value(rest, key) {
                Some(v) => {
                    let i = choose|i: int|
                        0 <= i < rest.len() && lowercase_of(#[trigger] rest[i].0@) == lowercase_of(key)
                            && rest[i].1@ == v && forall|j: int|
                            0 <= j < i ==> lowercase_of(#[trigger] rest[j].0@) != lowercase_of(key);
                    assert(headers[i + 1] == rest[i]);
                    assert forall|j: int| 0 <= j < i + 1 implies lowercase_of(#[trigger] headers[j].0@) != lowercase_of(key) by {
                        if j > 0 {
                            assert(headers[j] == rest[j - 1]);
                        }
                    }
                },
                None => {
                    assert forall|i: int| 0 <= i < headers.len() implies lowercase_of(#[trigger] headers[i].0@) != lowercase_of(key) by {
                        if i > 0 {
                            assert(headers[i] == rest[i - 1]);
                        }
                    }
                },
            }
        }
    }
}

/// Looks a header up with ehttp's `Headers::get`, which returns the value of the first header
/// whose name matches the key case-insensitively (both sides passed through
/// `str::to_lowercase`). The contract states exactly that.
#[verifier::external_body]
pub(crate) fn header_get(headers: &Vec<(String, String)>, key: &str) -> (r: Option<String>)
    ensures
        match r {
            Some(v) => header_value(headers@, key@) == Some(v@),
            None => header_value(headers@, key@) is None,
        },
{
    let h = ehttp::Headers { headers: headers.clone() };
    h.get(key).map(str::to_owned)
}

} // verus!
