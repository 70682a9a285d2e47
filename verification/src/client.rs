//! HTTP client for interacting with the GDTF Share API.
//!
//! The client builds each request and reads each response; sending a request and receiving
//! its response is left to the caller.
use vstd::prelude::*;

use crate::error::Error;
use crate::http::{header_get, header_value, HttpRequest, HttpResponse, Method, RequestView};
use crate::text::{decimal, push_decimal};
use crate::Session;

verus! {

/// The bytes serde_json writes for the JSON object of a map from the keys to the string
/// values.
pub uninterp spec fn json_object(fields: Seq<(Seq<char>, Seq<char>)>) -> Seq<u8>;

/// The texts of a list of key and value strings.
pub open spec fn text_pairs(v: Seq<(String, String)>) -> Seq<(Seq<char>, Seq<char>)> {
    v.map_values(|p: (String, String)| (p.0@, p.1@))
}

/// Encodes a `serde_json::Map` from the keys to the string values with `serde_json::to_vec`.
/// The keys are strings and the output goes into a `Vec`, so it cannot fail; its bytes are
/// named `json_object` of the pairs.
#[verifier::external_body]
fn encode_json_object(fields: &Vec<(String, String)>) -> (r: Result<Vec<u8>, serde_json::Error>)
    ensures
        r is Ok,
        r matches Ok(b) ==> b@ == json_object(text_pairs(fields@)),
{
    let map: serde_json::Map<String, serde_json::Value> = fields.iter().map(
        |(k, v)| (k.clone(), serde_json::Value::String(v.clone())),
    ).collect();
    serde_json::to_vec(&map)
}

/// The address of the login endpoint.
pub open spec fn login_url() -> Seq<char> {
    "https://gdtf-share.com/apis/public/login.php"@
}

/// The address of the endpoint that lists all entries.
pub open spec fn list_url() -> Seq<char> {
    "https://gdtf-share.com/apis/public/getList.php"@
}

/// The address of the download endpoint.
pub open spec fn download_url() -> Seq<char> {
    "https://gdtf-share.com/apis/public/downloadFile.php"@
}

/// The JSON object with the user name under `user` and the password under `password`
/// that the login request sends.
pub open spec fn login_body(user: Seq<char>, password: Seq<char>) -> Seq<u8> {
    json_object(seq![("user"@, user), ("password"@, password)])
}

/// The login request for a user name and password.
pub open spec fn login_request(user: Seq<char>, password: Seq<char>) -> RequestView {
    RequestView {
        method: Method::Post,
        url: login_url(),
        headers: seq![("Content-Type"@, "application/json"@)],
        body: login_body(user, password),
    }
}

/// The request that lists all entries, sent with the session cookie.
pub open spec fn list_request(cookie: Seq<char>) -> RequestView {
    RequestView {
        method: Method::Get,
        url: list_url(),
        headers: seq![("Cookie"@, cookie)],
        body: Seq::empty(),
    }
}

/// The request that downloads revision `rid`, sent with the session cookie.
pub open spec fn download_request(cookie: Seq<char>, rid: u32) -> RequestView {
    RequestView {
        method: Method::Get,
        url: download_url() + "?rid="@ + decimal(rid as nat),
        headers: seq![("Cookie"@, cookie)],
        body: Seq::empty(),
    }
}

/// The error for a response status other than 200; 404 is `NotFound` only where the call
/// expects it.
pub open spec fn status_error(status: u16, knows_not_found: bool) -> Error {
    if status == 400 {
        Error::BadRequest
    } else if status == 401 {
        Error::Unauthorized
    } else if knows_not_found && status == 404 {
        Error::NotFound
    } else {
        Error::UnexpectedStatusCode(status)
    }
}

/// Reading any response, status 400 is a bad request and 401 is unauthorized; 404 is
/// "not found" only where the call expects it (a download), and otherwise, like every other
/// status, an unexpected status carrying the code.
pub proof fn lemma_status_errors(status: u16)
    ensures
        status == 400 ==> status_error(status, false) == Error::BadRequest && status_error(status, true)
            == Error::BadRequest,
        status == 401 ==> status_error(status, false) == Error::Unauthorized && status_error(status, true)
            == Error::Unauthorized,
        status == 404 ==> status_error(status, true) == Error::NotFound && status_error(status, false)
            == Error::UnexpectedStatusCode(404),
        status != 400 && status != 401 && status != 404 ==> status_error(status, false)
            == Error::UnexpectedStatusCode(status) && status_error(status, true) == Error::UnexpectedStatusCode(
            status,
        ),
{
}

/// The error for a response status other than 200.
fn error_for(status: u16, knows_not_found: bool) -> (e: Error)
    ensures
        e == status_error(status, knows_not_found),
{
    if status == 400 {
        Error::BadRequest
    } else if status == 401 {
        Error::Unauthorized
    } else if knows_not_found && status == 404 {
        Error::NotFound
    } else {
        Error::UnexpectedStatusCode(status)
    }
}

/// The cookie a login response sets: on status 200, the value of its `Set-Cookie` header.
pub open spec fn login_cookie(res: HttpResponse) -> Option<Seq<char>> {
    if res.status == 200 {
        header_value(res.headers@, "set-cookie"@)
    } else {
        None
    }
}

/// The session cookie after reading a login response: the cookie the response sets, or
/// the one held before when it sets none.
pub open spec fn session_after_login(before: Option<Seq<char>>, res: HttpResponse) -> Option<Seq<char>> {
    match login_cookie(res) {
        Some(c) => Some(c),
        None => before,
    }
}

/// A login answered with status 200 and a `Set-Cookie` value `c` leaves the client holding
/// `c`, and the list and download requests then carry `c` as their `Cookie` header; any
/// other answer leaves the session as it was.
pub proof fn lemma_login_then_requests(before: Option<Seq<char>>, res: HttpResponse, rid: u32)
    ensures
        res.status == 200 ==> match header_value(res.headers@, "set-cookie"@) {
            Some(c) => session_after_login(before, res) == Some(c) && list_request(c).headers
                == seq![("Cookie"@, c)] && download_request(c, rid).headers == seq![("Cookie"@, c)],
            None => session_after_login(before, res) == before,
        },
        res.status != 200 ==> session_after_login(before, res) == before,
{
}

/// API client for managing a GDTF Share session.
#[derive(Debug)]
pub struct Client {
    session: Option<Session>,
}

impl Client {
    /// The cookie of the client's session, if it is logged in.
    pub closed spec fn cookie(&self) -> Option<Seq<char>> {
        match self.session {
            Some(s) => Some(s.cookie@),
            None => None,
        }
    }

    /// Creates a new unauthenticated GDTF Share API client.
    pub fn new() -> (r: Client)
        ensures
            r.cookie() is None,
    {
        Client { session: None }
    }

    /// The login request for a user name and password.
    ///
    /// # Errors
    ///
    /// * [`Error::Json`] - The credentials could not be encoded.
    pub fn login_req(&self, user: &str, password: &str) -> (r: Result<HttpRequest, Error>)
        ensures
            r matches Ok(req) && req@ == login_request(user@, password@),
    {
        let mut fields: Vec<(String, String)> = Vec::new();
        fields.push(("user".to_string(), user.to_string()));
        fields.push(("password".to_string(), password.to_string()));
        let body = match encode_json_object(&fields) {
            Ok(b) => b,
            Err(e) => return Err(Error::Json(e)),
        };
        assert(text_pairs(fields@) =~= seq![("user"@, user@), ("password"@, password@)]);
        let mut headers: Vec<(String, String)> = Vec::new();
        headers.push(("Content-Type".to_string(), "application/json".to_string()));
        let req = HttpRequest {
            method: Method::Post,
            url: "https://gdtf-share.com/apis/public/login.php".to_string(),
            headers,
            body,
        };
        assert(req@.headers =~= seq![("Content-Type"@, "application/json"@)]);
        assert(req@.body =~= login_body(user@, password@));
        Ok(req)
    }

    /// Reads the answer to a login request: on status 200 the session takes the `Set-Cookie`
    /// header's value.
    ///
    /// # Errors
    ///
    /// * [`Error::Unauthorized`] - Invalid username or password.
    /// * [`Error::BadRequest`] - The request payload was malformed.
    /// * [`Error::MissingCookie`] - The response missing the `Set-Cookie` header.
    /// * [`Error::UnexpectedStatusCode`] - Any other status.
    pub fn handle_login_res(&mut self, res: HttpResponse) -> (r: Result<(), Error>)
        ensures
            res.status == 200 ==> match header_value(res.headers@, "set-cookie"@) {
                Some(c) => r is Ok && final(self).cookie() == Some(c),
                None => r == Err::<(), Error>(Error::MissingCookie) && final(self).cookie()
                    == old(self).cookie(),
            },
            res.status != 200 ==> r == Err::<(), Error>(status_error(res.status, false))
                && final(self).cookie() == old(self).cookie(),
            final(self).cookie() == session_after_login(old(self).cookie(), res),
    {
        if res.status == 200 {
            match header_get(&res.headers, "set-cookie") {
                Some(cookie) => {
                    self.session = Some(Session { cookie });
                    Ok(())
                },
                None => Err(Error::MissingCookie),
            }
        } else {
            Err(error_for(res.status, false))
        }
    }

    /// The request that lists all entries.
    ///
    /// # Errors
    ///
    /// * [`Error::NoSession`] - Client is unauthenticated.
    pub fn get_list_req(&self) -> (r: Result<HttpRequest, Error>)
        ensures
            match self.cookie() {
                Some(c) => r matches Ok(req) && req@ == list_request(c),
                None => r == Err::<HttpRequest, Error>(Error::NoSession),
            },
    {
        let session = match &self.session {
            Some(s) => s,
            None => return Err(Error::NoSession),
        };
        let mut headers: Vec<(String, String)> = Vec::new();
        headers.push(("Cookie".to_string(), session.cookie.clone()));
        let req = HttpRequest {
            method: Method::Get,
            url: "https://gdtf-share.com/apis/public/getList.php".to_string(),
            headers,
            body: Vec::new(),
        };
        assert(req@.headers =~= seq![("Cookie"@, session.cookie@)]);
        Ok(req)
    }

    /// Reads the answer to the list request: on status 200, the JSON body that holds the
    /// entry list.
    ///
    /// # Errors
    ///
    /// * [`Error::BadRequest`], [`Error::Unauthorized`] - Status 400 or 401 (session cookie
    ///   has expired or is invalid).
    /// * [`Error::UnexpectedStatusCode`] - Any other status.
    pub fn handle_get_list_res(&self, res: HttpResponse) -> (r: Result<Vec<u8>, Error>)
        ensures
            res.status == 200 ==> (r matches Ok(b) && b@ == res.bytes@),
            res.status != 200 ==> r == Err::<Vec<u8>, Error>(status_error(res.status, false)),
    {
        if res.status == 200 {
            Ok(res.bytes)
        } else {
            Err(error_for(res.status, false))
        }
    }

    /// The request that downloads a GDTF zip archive by Revision ID (RID).
    ///
    /// # Errors
    ///
    /// * [`Error::NoSession`] - Client is unauthenticated.
    pub fn download_req(&self, rid: u32) -> (r: Result<HttpRequest, Error>)
        ensures
            match self.cookie() {
                Some(c) => r matches Ok(req) && req@ == download_request(c, rid),
                None => r == Err::<HttpRequest, Error>(Error::NoSession),
            },
    {
        let session = match &self.session {
            Some(s) => s,
            None => return Err(Error::NoSession),
        };
        let mut url = "https://gdtf-share.com/apis/public/downloadFile.php?rid=".to_string();
        push_decimal(&mut url, rid as u64);
        let mut headers: Vec<(String, String)> = Vec::new();
        headers.push(("Cookie".to_string(), session.cookie.clone()));
        let req = HttpRequest { method: Method::Get, url, headers, body: Vec::new() };
        proof {
            reveal_strlit("https://gdtf-share.com/apis/public/downloadFile.php?rid=");
            reveal_strlit("https://gdtf-share.com/apis/public/downloadFile.php");
            reveal_strlit("?rid=");
        }
        assert(req@.url =~= download_url() + "?rid="@ + decimal(rid as nat));
        assert(req@.headers =~= seq![("Cookie"@, session.cookie@)]);
        Ok(req)
    }

    /// Reads the answer to a download request: on status 200, the archive's bytes.
    ///
    /// # Errors
    ///
    /// * [`Error::NotFound`] - Revision ID (`rid`) does not exist.
    /// * [`Error::BadRequest`], [`Error::Unauthorized`] - Status 400 or 401.
    /// * [`Error::UnexpectedStatusCode`] - Any other status.
    pub fn handle_download_res(&self, res: HttpResponse) -> (r: Result<Vec<u8>, Error>)
        ensures
            res.status == 200 ==> (r matches Ok(b) && b@ == res.bytes@),
            res.status != 200 ==> r == Err::<Vec<u8>, Error>(status_error(res.status, true)),
    {
        if res.status == 200 {
            Ok(res.bytes)
        } else {
            Err(error_for(res.status, true))
        }
    }
}

impl Default for Client {
    fn default() -> (r: Client)
        ensures
            r.cookie() is None,
    {
        Client::new()
    }
}

} // verus!
