use rust_cgi::headers::HeaderError;
use rust_cgi::meta::{content_length, MetaVariables};
use rust_cgi::request::{
    assemble_request, parse_request, parse_request_with, request_target, MethodPolicy, Request,
    RequestError, Version,
};

fn env(input: Vec<(&str, &str)>) -> MetaVariables {
    let mut vars = MetaVariables::new();
    for (name, value) in input {
        vars.insert(name, value);
    }
    vars
}

const PROGRAM: &str = "/usr/lib/cgi-bin/programme";

fn build(input: Vec<(&str, &str)>) -> Result<Request, RequestError> {
    parse_request(&env(input), PROGRAM, Vec::new())
}

fn failure(input: Vec<(&str, &str)>) -> RequestError {
    match build(input) {
        Ok(_) => panic!("a request was built"),
        Err(e) => e,
    }
}

fn header(req: &Request, name: &str) -> Option<Vec<u8>> {
    req.headers().get(name.as_bytes()).map(|v| v.to_vec())
}

#[test]
fn test_empty() {
    let env_vars = env(vec![]);
    let stdin = Vec::new();
    let req = parse_request(&env_vars, PROGRAM, stdin).unwrap();
    assert_eq!(req.method(), b"GET");
}

#[test]
fn test_parse_request() {
    let env_vars = env(vec![
        ("REQUEST_METHOD", "GET"),
        ("SCRIPT_NAME", "/my/path/script"),
        ("SERVER_PROTOCOL", "HTTP/1.0"),
        ("HTTP_USER_AGENT", "MyBrowser/1.0"),
        ("QUERY_STRING", "foo=bar&baz=bop"),
    ]);
    let stdin = Vec::new();
    let req = parse_request(&env_vars, PROGRAM, stdin).unwrap();
    assert_eq!(req.method(), b"GET");
    assert_eq!(req.target(), b"/my/path/script?foo=bar&baz=bop");
    let uri = http::Uri::try_from(req.target()).unwrap();
    assert_eq!(uri, "/my/path/script?foo=bar&baz=bop");
    assert_eq!(uri.path(), "/my/path/script");
    assert_eq!(uri.query(), Some("foo=bar&baz=bop"));
    assert_eq!(req.path(), b"/my/path/script");
    assert_eq!(req.query(), Some(&b"foo=bar&baz=bop"[..]));
    assert_eq!(req.version(), Some(Version::Http10));
    assert_eq!(
        req.headers().get(http::header::USER_AGENT.as_str().as_bytes()),
        Some(&b"MyBrowser/1.0"[..])
    );
    assert_eq!(req.body(), &vec![] as &Vec<u8>);
}

#[test]
fn target_without_query_is_the_script_name() {
    let req = build(vec![("SCRIPT_NAME", "/my/path/script")]).unwrap();
    assert_eq!(req.target(), b"/my/path/script");
    let req = build(vec![("SCRIPT_NAME", "/my/path/script"), ("QUERY_STRING", "")]).unwrap();
    assert_eq!(req.target(), b"/my/path/script");
}

#[test]
fn target_falls_back_to_the_programme() {
    let req = build(vec![("QUERY_STRING", "a=1")]).unwrap();
    assert_eq!(req.target(), b"/usr/lib/cgi-bin/programme?a=1");
    assert_eq!(request_target(&env(vec![]), "/bin/x"), b"/bin/x".to_vec());
}

#[test]
fn target_comes_apart_at_the_first_question_mark() {
    let req = build(vec![("SCRIPT_NAME", "/s")]).unwrap();
    assert_eq!(req.path(), b"/s");
    assert_eq!(req.query(), None);
    let req = build(vec![("SCRIPT_NAME", "/s"), ("QUERY_STRING", "")]).unwrap();
    assert_eq!(req.path(), b"/s");
    assert_eq!(req.query(), None);
    let req = build(vec![("SCRIPT_NAME", "/s"), ("QUERY_STRING", "a=1?b=%3f")]).unwrap();
    assert_eq!(req.path(), b"/s");
    assert_eq!(req.query(), Some(&b"a=1?b=%3f"[..]));
    let req = build(vec![("SCRIPT_NAME", "/s?"), ("QUERY_STRING", "q")]).unwrap();
    assert_eq!(req.target(), b"/s??q");
    assert_eq!(req.path(), b"/s");
    assert_eq!(req.query(), Some(&b"?q"[..]));
    let req = build(vec![("SCRIPT_NAME", "/s?")]).unwrap();
    assert_eq!(req.path(), b"/s");
    assert_eq!(req.query(), Some(&b""[..]));
}

#[test]
fn query_is_not_decoded() {
    let req = build(vec![("SCRIPT_NAME", "/s"), ("QUERY_STRING", "a=%20b+c")]).unwrap();
    assert_eq!(req.target(), b"/s?a=%20b+c");
}

#[test]
fn versions() {
    let version = |v: &str| build(vec![("SERVER_PROTOCOL", v)]).map(|r| r.version());
    assert_eq!(version("HTTP/0.9"), Ok(Some(Version::Http09)));
    assert_eq!(version("HTTP/1.0"), Ok(Some(Version::Http10)));
    assert_eq!(version("HTTP/1.1"), Ok(Some(Version::Http11)));
    assert_eq!(version("HTTP/2.0"), Ok(Some(Version::Http2)));
    assert_eq!(version("HTTP/3.0"), Err(RequestError::UnsupportedProtocol));
    assert_eq!(version("http/1.1"), Err(RequestError::UnsupportedProtocol));
    assert_eq!(version(""), Err(RequestError::UnsupportedProtocol));
    assert_eq!(build(vec![]).unwrap().version(), None);
}

#[test]
fn http_variables_become_headers() {
    let req = build(vec![
        ("HTTP_USER_AGENT", "MyBrowser/1.0"),
        ("HTTP_ACCEPT_LANGUAGE", "  en, de \t"),
        ("HTTPS", "on"),
        ("HTTP_X", ""),
    ])
    .unwrap();
    assert_eq!(header(&req, "User-Agent"), Some(b"MyBrowser/1.0".to_vec()));
    assert_eq!(header(&req, "user-agent"), Some(b"MyBrowser/1.0".to_vec()));
    assert_eq!(header(&req, "USER-AGENT"), Some(b"MyBrowser/1.0".to_vec()));
    assert_eq!(header(&req, "accept-language"), Some(b"en, de".to_vec()));
    assert_eq!(header(&req, "x"), Some(Vec::new()));
    assert_eq!(header(&req, "s"), None);
    assert_eq!(req.headers().len(), 3);
    assert_eq!(req.headers().fields()[0].0, b"user-agent");
    assert_eq!(req.headers().fields()[1].0, b"accept-language");
    assert_eq!(req.headers().fields()[1].1, b"en, de");
}

#[test]
fn header_values_lose_unicode_white_space() {
    let req = build(vec![("HTTP_A", "\u{a0}\u{3000} v \u{2028}\u{85}")]).unwrap();
    assert_eq!(header(&req, "a"), Some(b"v".to_vec()));
    let req = build(vec![("HTTP_A", "\u{200b}v")]).unwrap();
    assert_eq!(header(&req, "a"), Some("\u{200b}v".as_bytes().to_vec()));
}

#[test]
fn shadow_headers() {
    let all = vec![
        ("AUTH_TYPE", "Basic"),
        ("CONTENT_LENGTH", "0"),
        ("CONTENT_TYPE", "text/plain"),
        ("GATEWAY_INTERFACE", "CGI/1.1"),
        ("PATH_INFO", "/extra"),
        ("PATH_TRANSLATED", "/srv/extra"),
        ("QUERY_STRING", "a=1"),
        ("REMOTE_ADDR", "127.0.0.1"),
        ("REMOTE_HOST", "localhost"),
        ("REMOTE_IDENT", "ident"),
        ("REMOTE_USER", "user"),
        ("REQUEST_METHOD", "POST"),
        ("SCRIPT_NAME", "/script"),
        ("SERVER_PORT", "80"),
        ("SERVER_PROTOCOL", "HTTP/1.1"),
        ("SERVER_SOFTWARE", "server/1"),
    ];
    let names = [
        "X-CGI-Auth-Type",
        "X-CGI-Content-Length",
        "X-CGI-Content-Type",
        "X-CGI-Gateway-Interface",
        "X-CGI-Path-Info",
        "X-CGI-Path-Translated",
        "X-CGI-Query-String",
        "X-CGI-Remote-Addr",
        "X-CGI-Remote-Host",
        "X-CGI-Remote-Ident",
        "X-CGI-Remote-User",
        "X-CGI-Request-Method",
        "X-CGI-Script-Name",
        "X-CGI-Server-Port",
        "X-CGI-Server-Protocol",
        "X-CGI-Server-Software",
    ];
    let mut reversed = all.clone();
    reversed.reverse();
    let req = build(reversed).unwrap();
    assert_eq!(req.headers().len(), 16);
    for i in 0..16 {
        assert_eq!(req.headers().fields()[i].0, names[i].to_ascii_lowercase().as_bytes());
        assert_eq!(req.headers().fields()[i].1, all[i].1.as_bytes());
        assert_eq!(header(&req, names[i]), Some(all[i].1.as_bytes().to_vec()));
    }
    let req = build(vec![("REMOTE_ADDR", " 10.0.0.1 ")]).unwrap();
    assert_eq!(req.headers().len(), 1);
    assert_eq!(header(&req, "x-cgi-remote-addr"), Some(b" 10.0.0.1 ".to_vec()));
    assert_eq!(build(vec![]).unwrap().headers().len(), 0);
}

#[test]
fn http_headers_stand_before_shadow_headers() {
    let req = build(vec![("REMOTE_USER", "u"), ("HTTP_X_CGI_REMOTE_USER", "forged")]).unwrap();
    assert_eq!(req.headers().len(), 2);
    assert_eq!(req.headers().fields()[0].1, b"forged");
    assert_eq!(req.headers().fields()[1].1, b"u");
    assert_eq!(header(&req, "x-cgi-remote-user"), Some(b"forged".to_vec()));
}

#[test]
fn body_is_attached_verbatim() {
    let body = vec![0u8, 255, 10, 13, 0];
    let req = parse_request(&env(vec![]), PROGRAM, body.clone()).unwrap();
    assert_eq!(req.body(), &body[..]);
}

#[test]
fn errors() {
    assert_eq!(failure(vec![("REQUEST_METHOD", "")]), RequestError::InvalidMethod);
    assert_eq!(failure(vec![("REQUEST_METHOD", "GE T")]), RequestError::InvalidMethod);
    assert_eq!(failure(vec![("SCRIPT_NAME", "/a b")]), RequestError::InvalidUri);
    assert_eq!(failure(vec![("SCRIPT_NAME", "")]), RequestError::InvalidUri);
    assert_eq!(failure(vec![("HTTP_", "v")]), RequestError::InvalidHeaderName);
    assert_eq!(failure(vec![("HTTP_A B", "v")]), RequestError::InvalidHeaderName);
    assert_eq!(failure(vec![("HTTP_A", "a\nb")]), RequestError::InvalidHeaderValue);
    assert_eq!(failure(vec![("PATH_INFO", "a\u{7f}")]), RequestError::InvalidHeaderValue);
    let both = vec![("SERVER_PROTOCOL", "SPDY"), ("REQUEST_METHOD", "?"), ("HTTP_", "\n")];
    assert_eq!(failure(both), RequestError::UnsupportedProtocol);
    let rest = vec![("REQUEST_METHOD", "?"), ("SCRIPT_NAME", " "), ("HTTP_", "\n")];
    assert_eq!(failure(rest), RequestError::InvalidMethod);
    let headers = vec![("HTTP_A", "a\nb"), ("HTTP_", "v")];
    assert_eq!(failure(headers), RequestError::InvalidHeaderValue);
    let headers = vec![("HTTP_", "a\nb"), ("HTTP_A", "a\nb")];
    assert_eq!(failure(headers), RequestError::InvalidHeaderName);
    let headers = vec![("HTTP_A", "\n"), ("HTTP_", "v")];
    assert_eq!(failure(headers), RequestError::InvalidHeaderName);
}

#[test]
fn method_policy() {
    let none = env(vec![]);
    let required = parse_request_with(&none, PROGRAM, MethodPolicy::Required, Vec::new());
    assert_eq!(required.err(), Some(RequestError::MissingMethod));
    let default = parse_request_with(&none, PROGRAM, MethodPolicy::DefaultGet, Vec::new());
    assert_eq!(default.unwrap().method(), b"GET");
    let post = env(vec![("REQUEST_METHOD", "POST")]);
    let required = parse_request_with(&post, PROGRAM, MethodPolicy::Required, Vec::new());
    assert_eq!(required.unwrap().method(), b"POST");
    let bad = env(vec![("SERVER_PROTOCOL", "x")]);
    let required = parse_request_with(&bad, PROGRAM, MethodPolicy::Required, Vec::new());
    assert_eq!(required.err(), Some(RequestError::MissingMethod));
}

#[test]
fn assemble_takes_the_verdict_on_the_target() {
    let vars = env(vec![("SCRIPT_NAME", "/s")]);
    let ok = assemble_request(&vars, PROGRAM, MethodPolicy::DefaultGet, true, vec![1]);
    assert_eq!(ok.unwrap().target(), b"/s");
    let no = assemble_request(&vars, PROGRAM, MethodPolicy::DefaultGet, false, vec![1]);
    assert_eq!(no.err(), Some(RequestError::InvalidUri));
}

#[test]
fn meta_variables_behave_as_a_map() {
    let mut vars = env(vec![("A", "1"), ("B", "2")]);
    assert_eq!(vars.get("A"), Some("1"));
    assert_eq!(vars.get("a"), None);
    vars.insert("A", "3");
    assert_eq!(vars.len(), 2);
    assert_eq!(vars.name(0), "A");
    assert_eq!(vars.value(0), "3");
    assert_eq!(vars.get("B"), Some("2"));
    vars.insert("C", "");
    assert_eq!(vars.len(), 3);
    assert_eq!(vars.get("C"), Some(""));
}

#[test]
fn content_length_degrades_to_zero() {
    let of = |v: &str| content_length(&env(vec![("CONTENT_LENGTH", v)]));
    assert_eq!(content_length(&env(vec![])), 0);
    assert_eq!(of("0"), 0);
    assert_eq!(of(""), 0);
    assert_eq!(of("17"), 17);
    assert_eq!(of("+17"), 17);
    assert_eq!(of("0017"), 17);
    assert_eq!(of("-17"), 0);
    assert_eq!(of("+"), 0);
    assert_eq!(of(" 17"), 0);
    assert_eq!(of("17 "), 0);
    assert_eq!(of("1_7"), 0);
    assert_eq!(of("0x11"), 0);
    assert_eq!(of("1.0"), 0);
    assert_eq!(of("99999999999999999999999999"), 0);
    assert_eq!(of(&usize::MAX.to_string()), usize::MAX);
    assert_eq!(of("18446744073709551616"), "18446744073709551616".parse::<usize>().unwrap_or(0));
    for v in ["5", "+5", "05", "", "+", "-0", "٣", "5a", "184467440737095516150"] {
        assert_eq!(of(v), v.parse::<usize>().unwrap_or(0));
    }
}

#[test]
fn header_errors_name_the_part() {
    let mut headers = rust_cgi::headers::Headers::new();
    assert_eq!(headers.append(b"a b", b"v"), Err(HeaderError::InvalidName));
    assert_eq!(headers.append(b"", b"v"), Err(HeaderError::InvalidName));
    assert_eq!(headers.append(b"a", b"\r"), Err(HeaderError::InvalidValue));
    assert_eq!(headers.append(b"a b", b"\r"), Err(HeaderError::InvalidName));
    assert_eq!(headers.len(), 0);
    assert_eq!(headers.append(b"A", b"\xfftab\there"), Ok(()));
    assert_eq!(headers.append(&vec![b'a'; 65535], b""), Ok(()));
    assert_eq!(headers.append(&vec![b'a'; 65536], b""), Err(HeaderError::InvalidName));
    assert_eq!(headers.len(), 2);
    assert_eq!(headers.get(b"a"), Some(&b"\xfftab\there"[..]));
    assert_eq!(headers.append(b"a", b"second"), Ok(()));
    assert_eq!(headers.get(b"A"), Some(&b"\xfftab\there"[..]));
    assert_eq!(headers.get(b"a b"), None);
}

#[test]
fn too_many_headers() {
    let mut vars = MetaVariables::new();
    for i in 0..6000 {
        vars.insert(&format!("HTTP_N{}", i), "v");
    }
    let req = parse_request(&vars, PROGRAM, Vec::new()).unwrap();
    assert_eq!(req.headers().len(), 6000);
    assert_eq!(req.headers().get(b"n5999"), Some(&b"v"[..]));
    for i in 6000..25000 {
        vars.insert(&format!("HTTP_N{}", i), "v");
    }
    assert!(vars.len() + 16 >= rust_cgi::FIELD_LIMIT);
    let built = parse_request(&vars, PROGRAM, Vec::new());
    assert_eq!(built.err(), Some(RequestError::TooManyHeaders));
    vars.insert("SERVER_PROTOCOL", "HTTP/7");
    let built = parse_request(&vars, PROGRAM, Vec::new());
    assert_eq!(built.err(), Some(RequestError::UnsupportedProtocol));
}
