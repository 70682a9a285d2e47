use gdtf_share::http::{HttpResponse, Method};
use gdtf_share::{Client, Error};

fn response(status: u16, headers: &[(&str, &str)], body: &[u8]) -> HttpResponse {
    HttpResponse {
        status,
        headers: headers.iter().map(|(k, v)| (k.to_string(), v.to_string())).collect(),
        bytes: body.to_vec(),
    }
}

#[test]
fn new_client_has_no_session() {
    let client = Client::new();
    assert!(matches!(client.get_list_req(), Err(Error::NoSession)));
    assert!(matches!(client.download_req(1), Err(Error::NoSession)));
}

#[test]
fn login_request_posts_json_credentials() {
    let client = Client::new();
    let req = client.login_req("Username", "P455w0rd").unwrap();
    assert_eq!(req.method, Method::Post);
    assert_eq!(req.url, "https://gdtf-share.com/apis/public/login.php");
    assert_eq!(req.headers, vec![("Content-Type".to_string(), "application/json".to_string())]);
    assert_eq!(req.body, br#"{"password":"P455w0rd","user":"Username"}"#.to_vec());
}

#[test]
fn login_request_escapes_json_strings() {
    let client = Client::new();
    let req = client.login_req("a\"b", "c\\d\n").unwrap();
    assert_eq!(req.body, br#"{"password":"c\\d\n","user":"a\"b"}"#.to_vec());
}

#[test]
fn login_response_with_cookie_starts_a_session() {
    let mut client = Client::new();
    let res = response(200, &[("content-type", "text/html"), ("Set-Cookie", "PHPSESSID=abc")], b"");
    assert!(client.handle_login_res(res).is_ok());
    let req = client.get_list_req().unwrap();
    assert_eq!(req.method, Method::Get);
    assert_eq!(req.url, "https://gdtf-share.com/apis/public/getList.php");
    assert_eq!(req.headers, vec![("Cookie".to_string(), "PHPSESSID=abc".to_string())]);
    assert!(req.body.is_empty());
    let req = client.download_req(12345).unwrap();
    assert_eq!(req.url, "https://gdtf-share.com/apis/public/downloadFile.php?rid=12345");
    assert_eq!(req.headers, vec![("Cookie".to_string(), "PHPSESSID=abc".to_string())]);
}

#[test]
fn login_response_uses_the_first_set_cookie_header() {
    let mut client = Client::new();
    let res = response(200, &[("set-cookie", "first"), ("SET-COOKIE", "second")], b"");
    assert!(client.handle_login_res(res).is_ok());
    assert_eq!(client.get_list_req().unwrap().headers[0].1, "first");
}

#[test]
fn login_response_errors_keep_the_session() {
    let mut client = Client::new();
    assert!(matches!(client.handle_login_res(response(200, &[], b"")), Err(Error::MissingCookie)));
    assert!(matches!(client.handle_login_res(response(400, &[], b"")), Err(Error::BadRequest)));
    assert!(matches!(client.handle_login_res(response(401, &[], b"")), Err(Error::Unauthorized)));
    assert!(matches!(
        client.handle_login_res(response(404, &[("Set-Cookie", "x")], b"")),
        Err(Error::UnexpectedStatusCode(404))
    ));
    assert!(matches!(client.get_list_req(), Err(Error::NoSession)));
    client.handle_login_res(response(200, &[("Set-Cookie", "one")], b"")).unwrap();
    assert!(client.handle_login_res(response(401, &[], b"")).is_err());
    assert_eq!(client.get_list_req().unwrap().headers[0].1, "one");
}

#[test]
fn list_and_download_responses() {
    let client = Client::new();
    assert_eq!(client.handle_get_list_res(response(200, &[], b"{\"list\":[]}")).unwrap(), b"{\"list\":[]}".to_vec());
    assert!(matches!(client.handle_get_list_res(response(401, &[], b"")), Err(Error::Unauthorized)));
    assert!(matches!(client.handle_get_list_res(response(404, &[], b"")), Err(Error::UnexpectedStatusCode(404))));
    assert_eq!(client.handle_download_res(response(200, &[], b"PK\x03\x04")).unwrap(), b"PK\x03\x04".to_vec());
    assert!(matches!(client.handle_download_res(response(404, &[], b"")), Err(Error::NotFound)));
    assert!(matches!(client.handle_download_res(response(400, &[], b"")), Err(Error::BadRequest)));
    assert!(matches!(client.handle_download_res(response(503, &[], b"")), Err(Error::UnexpectedStatusCode(503))));
}

#[test]
fn error_messages() {
    assert_eq!(Error::Unauthorized.to_string(), "Unauthorized (401)");
    assert_eq!(Error::BadRequest.to_string(), "Bad Request (400)");
    assert_eq!(Error::NotFound.to_string(), "Not Found (404)");
    assert_eq!(Error::UnexpectedStatusCode(418).to_string(), "Unexpected status code: 418");
    assert_eq!(Error::MissingCookie.to_string(), "Set-Cookie header was missing from the response");
    assert_eq!(Error::ClientError("timeout".to_string()).to_string(), "Client Error: timeout");
    assert_eq!(Error::NoSession.to_string(), "No session available. Please login first.");
    let json = serde_json::from_slice::<u32>(b"x").unwrap_err();
    let detail = json.to_string();
    assert_eq!(Error::Json(json).to_string(), format!("JSON Error: {detail}"));
}

#[test]
fn default_client_is_logged_out() {
    let client = Client::default();
    assert!(matches!(client.get_list_req(), Err(Error::NoSession)));
}
