use rust_cgi::dispatch::{respond, try_respond};
use rust_cgi::headers::HeaderError;
use rust_cgi::meta::MetaVariables;
use rust_cgi::request::{Request, RequestError};
use rust_cgi::response::{
    binary_response, empty_response, err_to_500, html_response, string_response, text_response,
    Response,
};
use rust_cgi::serialize::{serialize_response, serialize_with_reason};

const PROGRAM: &str = "/usr/lib/cgi-bin/programme";

fn response(status: u16, headers: &[(&str, &str)], body: &str) -> Response {
    let mut resp = Response::new(status, String::from(body).into_bytes()).unwrap();
    for (name, value) in headers {
        resp.append_header(name, value).unwrap();
    }
    resp
}

fn test_serialized_response(resp: Response, expected_output: &str) {
    let output = serialize_response(resp);
    let expected_output = String::from(expected_output).into_bytes();

    if output != expected_output {
        println!(
            "output: {}\nexptected: {}",
            std::str::from_utf8(&output).unwrap(),
            std::str::from_utf8(&expected_output).unwrap()
        );
    }

    assert_eq!(output, expected_output);
}

#[test]
fn test_serialized_response1() {
    test_serialized_response(
        response(200, &[], "Hello World"),
        "Status: 200 OK\n\nHello World",
    );

    test_serialized_response(
        response(
            200,
            &[
                ("Content-Type", "text/html"),
                ("Content-Language", "en"),
                ("Cache-Control", "max-age=3600"),
            ],
            "<html><body><h1>Hello</h1></body></html>",
        ),
        "Status: 200 OK\ncache-control: max-age=3600\ncontent-language: en\ncontent-type: text/html\n\n<html><body><h1>Hello</h1></body></html>"
    );
}

#[test]
fn test_shortcuts1() {
    assert_eq!(std::str::from_utf8(&serialize_response(html_response(200, "<html><body><h1>Hello World</h1></body></html>"))).unwrap(),
        "Status: 200 OK\ncontent-length: 46\ncontent-type: text/html; charset=utf-8\n\n<html><body><h1>Hello World</h1></body></html>"
    );
}

#[test]
fn test_shortcuts2() {
    assert_eq!(
        std::str::from_utf8(&serialize_response(binary_response(
            200,
            None,
            vec![65, 66, 67]
        )))
        .unwrap(),
        "Status: 200 OK\ncontent-length: 3\n\nABC"
    );

    assert_eq!(
        std::str::from_utf8(&serialize_response(binary_response(
            200,
            Some("application/octet-stream"),
            vec![65, 66, 67]
        )))
        .unwrap(),
        "Status: 200 OK\ncontent-length: 3\ncontent-type: application/octet-stream\n\nABC"
    );

    let ct: String = "image/png".to_string();
    assert_eq!(
        std::str::from_utf8(&serialize_response(binary_response(
            200,
            Some(ct.as_str()),
            vec![65, 66, 67]
        )))
        .unwrap(),
        "Status: 200 OK\ncontent-length: 3\ncontent-type: image/png\n\nABC"
    );
}

#[test]
fn test_handle_success() {
    let outcome = try_respond(&MetaVariables::new(), PROGRAM, vec![], |_req: Request| {
        Ok::<Response, String>(text_response(200, "All good"))
    })
    .unwrap();

    let written = outcome.output;
    assert_eq!(String::from_utf8(written).unwrap(), "Status: 200 OK\ncontent-length: 8\ncontent-type: text/plain; charset=utf-8\n\nAll good");
    assert!(outcome.failure.is_none());
}

#[test]
fn test_handle_error() {
    let outcome =
        try_respond(&MetaVariables::new(), PROGRAM, vec![], |_req: Request| Err("Not good"))
            .unwrap();

    let written = outcome.output;
    assert_eq!(
        String::from_utf8(written).unwrap(),
        "Status: 500 Internal Server Error\n\n"
    );
    let error = outcome.failure.map(|e| format!("{:?}\n", e));
    assert_eq!(error.unwrap(), "\"Not good\"\n");
}

#[test]
fn header_lines_ignore_insertion_order() {
    let fields = [
        ("Content-Type", "text/html"),
        ("Content-Language", "en"),
        ("Cache-Control", "max-age=3600"),
    ];
    let expected = "Status: 200 OK\ncache-control: max-age=3600\ncontent-language: en\ncontent-type: text/html\n\n";
    let orders = [[0, 1, 2], [0, 2, 1], [1, 0, 2], [1, 2, 0], [2, 0, 1], [2, 1, 0]];
    for order in orders {
        let picked: Vec<(&str, &str)> = order.iter().map(|&i| fields[i]).collect();
        test_serialized_response(response(200, &picked, ""), expected);
    }
}

#[test]
fn header_lines_follow_byte_order() {
    test_serialized_response(
        response(
            200,
            &[("b", "1"), ("ab", "2"), ("a", "3"), ("a-", "4"), ("B0", "5"), ("a1", "6"), ("~", "7"), ("!", "8")],
            "",
        ),
        "Status: 200 OK\n!: 8\na: 3\na-: 4\na1: 6\nab: 2\nb: 1\nb0: 5\n~: 7\n\n",
    );
}

#[test]
fn repeated_name_gives_a_line_for_every_value() {
    test_serialized_response(
        response(200, &[("Set-Cookie", "a=1"), ("X", "y"), ("set-cookie", "b=2")], "body"),
        "Status: 200 OK\nset-cookie: a=1\nset-cookie: b=2\nx: y\n\nbody",
    );
    test_serialized_response(
        response(
            200,
            &[("b", "3"), ("a", "z"), ("b", "1"), ("a", "y"), ("b", "2"), ("a", "z")],
            "",
        ),
        "Status: 200 OK\na: z\na: y\na: z\nb: 3\nb: 1\nb: 2\n\n",
    );
    let resp = response(200, &[("Set-Cookie", "a=1"), ("Set-Cookie", "b=2")], "");
    let fields = resp.headers().len();
    let out = String::from_utf8(serialize_response(resp)).unwrap();
    assert!(out.contains("set-cookie: a=1\n"));
    assert!(out.contains("set-cookie: b=2\n"));
    assert_eq!(out.matches(": ").count(), fields + 1);
}

#[test]
fn status_line_with_and_without_reason() {
    test_serialized_response(response(404, &[], ""), "Status: 404 Not Found\n\n");
    test_serialized_response(response(500, &[], ""), "Status: 500 Internal Server Error\n\n");
    test_serialized_response(response(100, &[], ""), "Status: 100 Continue\n\n");
    test_serialized_response(response(299, &[], ""), "Status: 299\n\n");
    test_serialized_response(response(999, &[], "x"), "Status: 999\n\nx");
    test_serialized_response(response(418, &[], ""), "Status: 418 I'm a teapot\n\n");
}

#[test]
fn reason_can_be_given() {
    let out = serialize_with_reason(response(200, &[("a", "b")], "c"), Some(b"Fine".to_vec()));
    assert_eq!(out, b"Status: 200 Fine\na: b\n\nc".to_vec());
    let out = serialize_with_reason(response(200, &[], ""), None);
    assert_eq!(out, b"Status: 200\n\n".to_vec());
}

#[test]
fn body_is_not_touched() {
    let body = vec![0u8, 10, 10, 255, 13];
    let out = serialize_response(Response::new(204, body.clone()).unwrap());
    let mut expected = b"Status: 204 No Content\n\n".to_vec();
    expected.extend_from_slice(&body);
    assert_eq!(out, expected);
    test_serialized_response(
        response(200, &[("Content-Length", "999")], "ab"),
        "Status: 200 OK\ncontent-length: 999\n\nab",
    );
}

#[test]
fn new_refuses_what_is_no_status_code() {
    assert!(Response::new(99, vec![]).is_none());
    assert!(Response::new(1000, vec![]).is_none());
    assert!(Response::new(0, vec![]).is_none());
    assert_eq!(Response::new(100, vec![]).unwrap().status(), 100);
    assert_eq!(Response::new(999, vec![7]).unwrap().body(), &[7u8][..]);
}

#[test]
fn append_header_refuses_bad_fields() {
    let mut resp = response(200, &[("a", "b")], "");
    assert_eq!(resp.append_header("a:", "v"), Err(HeaderError::InvalidName));
    assert_eq!(resp.append_header("", "v"), Err(HeaderError::InvalidName));
    assert_eq!(resp.append_header("é", "v"), Err(HeaderError::InvalidName));
    assert_eq!(resp.append_header("a", "x\ny"), Err(HeaderError::InvalidValue));
    assert_eq!(resp.append_header("a", "x\0"), Err(HeaderError::InvalidValue));
    assert_eq!(resp.headers().len(), 1);
    assert_eq!(resp.append_header("A", "é\t"), Ok(()));
    assert_eq!(resp.headers().len(), 2);
    assert_eq!(resp.headers().fields()[1].0, b"a");
    assert_eq!(resp.append_header("0", "first"), Ok(()));
    assert_eq!(resp.append_header("a", "last"), Ok(()));
    assert_eq!(resp.headers().fields()[2], (b"a".to_vec(), b"last".to_vec()));
    assert_eq!(resp.headers().fields()[3], (b"0".to_vec(), b"first".to_vec()));
    test_serialized_response(
        resp,
        "Status: 200 OK\n0: first\na: b\na: é\t\na: last\n\n",
    );
}

#[test]
fn shortcuts_announce_the_length_of_the_body() {
    let text = "grüße";
    test_serialized_response(
        text_response(201, text),
        "Status: 201 Created\ncontent-length: 7\ncontent-type: text/plain; charset=utf-8\n\ngrüße",
    );
    test_serialized_response(
        html_response(200, ""),
        "Status: 200 OK\ncontent-length: 0\ncontent-type: text/html; charset=utf-8\n\n",
    );
    test_serialized_response(
        string_response(200, "0123456789"),
        "Status: 200 OK\ncontent-length: 10\n\n0123456789",
    );
    let long = binary_response(200, None, vec![b'x'; 12345]);
    assert_eq!(long.headers().get(b"Content-Length"), Some(&b"12345"[..]));
    assert_eq!(long.headers().get(b"Content-Type"), None);
    let typed = binary_response(200, Some("image/png"), vec![1, 2]);
    assert_eq!(typed.headers().get(b"Content-Length"), Some(&b"2"[..]));
    assert_eq!(typed.headers().get(b"Content-Type"), Some(&b"image/png"[..]));
    assert_eq!(html_response(200, "a").headers().fields()[0].0, b"content-type");
    assert_eq!(text_response(200, "a").headers().fields()[0].0, b"content-length");
}

#[test]
fn empty_response_announces_length_zero() {
    for code in [200u16, 404, 500] {
        let resp = empty_response(code);
        assert_eq!(resp.status(), code);
        assert!(resp.body().is_empty());
        assert_eq!(resp.headers().len(), 1);
        assert_eq!(resp.headers().get(b"content-length"), Some(&b"0"[..]));
        assert_eq!(resp.headers().get(b"content-type"), None);
    }
    test_serialized_response(
        empty_response(500),
        "Status: 500 Internal Server Error\ncontent-length: 0\n\n",
    );
    test_serialized_response(empty_response(204), "Status: 204 No Content\ncontent-length: 0\n\n");
}

#[test]
fn err_to_500_keeps_a_response_and_replaces_a_failure() {
    let kept = err_to_500(Ok::<Response, String>(text_response(200, "ok")));
    assert_eq!(kept.status(), 200);
    assert_eq!(kept.body(), b"ok");
    let replaced = err_to_500(Err::<Response, String>(String::from("bad")));
    assert_eq!(replaced.status(), 500);
    assert_eq!(replaced.headers().len(), 0);
    assert_eq!(replaced.body(), b"");
}

#[test]
fn respond_hands_the_request_to_the_handler() {
    let mut vars = MetaVariables::new();
    vars.insert("REQUEST_METHOD", "POST");
    vars.insert("SCRIPT_NAME", "/echo");
    vars.insert("HTTP_X_TOKEN", " t ");
    let out = respond(&vars, PROGRAM, b"ping".to_vec(), |req: Request| {
        let mut body = req.method().to_vec();
        body.push(b' ');
        body.extend_from_slice(req.target());
        body.push(b' ');
        body.extend_from_slice(req.headers().get(b"x-token").unwrap());
        body.push(b' ');
        body.extend_from_slice(req.body());
        binary_response(200, None, body)
    });
    assert_eq!(
        String::from_utf8(out.unwrap()).unwrap(),
        "Status: 200 OK\ncontent-length: 17\n\nPOST /echo t ping"
    );
}

#[test]
fn respond_fails_before_the_handler_runs() {
    let mut vars = MetaVariables::new();
    vars.insert("SERVER_PROTOCOL", "HTTP/9");
    let out = respond(&vars, PROGRAM, vec![], |_req: Request| panic!("the handler ran"));
    assert_eq!(out, Err(RequestError::UnsupportedProtocol));
    let out = try_respond(&vars, PROGRAM, vec![], |_req: Request| {
        if true {
            panic!("the handler ran")
        }
        Err::<Response, ()>(())
    });
    assert_eq!(out.err(), Some(RequestError::UnsupportedProtocol));
}
