use saba_core::client::HttpClient;
use saba_core::error::Error;
use saba_core::http::HttpResponse;

#[test]
fn test_invalid() {
    let raw = "HTTP/1.1 200 OK".to_string();
    assert!(HttpResponse::new(raw).is_err());
}

#[test]
fn test_status_line_only() {
    let raw = "HTTP/1.1 200 OK\n\n".to_string();
    let res = HttpResponse::new(raw).expect("failed to parse http response");
    assert_eq!(res.version(), "HTTP/1.1");
    assert_eq!(res.status_code(), 200);
    assert_eq!(res.reason(), "OK");
}

#[test]
fn test_one_header() {
    let raw = "HTTP/1.1 200 OK\nDate:xx xx xx\n\n".to_string();
    let res = HttpResponse::new(raw).expect("failed to parse http response");
    assert_eq!(res.version(), "HTTP/1.1");
    assert_eq!(res.status_code(), 200);
    assert_eq!(res.reason(), "OK");

    assert_eq!(res.header_value("Date"), Ok("xx xx xx".to_string()));
}

#[test]
fn test_two_headers_with_white_space() {
    let raw = "HTTP/1.1 200 OK\nDate: xx xx xx\nContent-Length: 42\n\n".to_string();
    let res = HttpResponse::new(raw).expect("failed to parse http response");
    assert_eq!(res.version(), "HTTP/1.1");
    assert_eq!(res.status_code(), 200);
    assert_eq!(res.reason(), "OK");

    assert_eq!(res.header_value("Date"), Ok("xx xx xx".to_string()));
    assert_eq!(res.header_value("Content-Length"), Ok("42".to_string()));
}

#[test]
fn test_body() {
    let raw = "HTTP/1.1 200 OK\nDate: xx xx xx\n\nbody message".to_string();
    let res = HttpResponse::new(raw).expect("failed to parse http response");
    assert_eq!(res.version(), "HTTP/1.1");
    assert_eq!(res.status_code(), 200);
    assert_eq!(res.reason(), "OK");

    assert_eq!(res.header_value("Date"), Ok("xx xx xx".to_string()));

    assert_eq!(res.body(), "body message".to_string());
}

#[test]
fn missing_line_end_is_malformed() {
    let res = HttpResponse::new("HTTP/1.1 200 OK".to_string());
    assert_eq!(res.err(), Some(Error::MalformedResponse));
}

#[test]
fn status_line_only_has_no_headers() {
    let res = HttpResponse::new("HTTP/1.1 200 OK\n\n".to_string()).unwrap();
    assert!(res.headers().is_empty());
    assert_eq!(res.body(), "");
}

#[test]
fn blank_line_after_status_line_ends_headers() {
    let raw = "HTTP/1.1 200 OK\n\nA: b\n\nrest".to_string();
    let res = HttpResponse::new(raw).unwrap();
    assert!(res.headers().is_empty());
    assert_eq!(res.body(), "A: b\n\nrest");
}

#[test]
fn two_headers_keep_their_order() {
    let raw = "HTTP/1.1 200 OK\nDate: xx xx xx\nContent-Length: 42\n\n".to_string();
    let res = HttpResponse::new(raw).unwrap();
    let headers = res.headers();
    assert_eq!(headers.len(), 2);
    assert_eq!(headers[0].name, "Date");
    assert_eq!(headers[0].value, "xx xx xx");
    assert_eq!(headers[1].name, "Content-Length");
    assert_eq!(headers[1].value, "42");
    assert_eq!(res.body(), "");
}

#[test]
fn short_status_lines_are_malformed() {
    assert_eq!(
        HttpResponse::new("HTTP/1.1 200\n\n".to_string()).err(),
        Some(Error::MalformedResponse)
    );
    assert_eq!(
        HttpResponse::new("HTTP/1.1\n\n".to_string()).err(),
        Some(Error::MalformedResponse)
    );
    assert_eq!(HttpResponse::new("\n".to_string()).err(), Some(Error::MalformedResponse));
    assert_eq!(HttpResponse::new("".to_string()).err(), Some(Error::MalformedResponse));
}

#[test]
fn status_code_falls_back_to_404() {
    let bad = HttpResponse::new("HTTP/1.1 abc OK\n".to_string()).unwrap();
    assert_eq!(bad.status_code(), 404);
    let too_large = HttpResponse::new("HTTP/1.1 4294967296 OK\n".to_string()).unwrap();
    assert_eq!(too_large.status_code(), 404);
    let largest = HttpResponse::new("HTTP/1.1 4294967295 OK\n".to_string()).unwrap();
    assert_eq!(largest.status_code(), 4294967295);
    let plus = HttpResponse::new("HTTP/1.1 +301 Moved\n".to_string()).unwrap();
    assert_eq!(plus.status_code(), 301);
    let empty = HttpResponse::new("HTTP/1.1  OK\n".to_string()).unwrap();
    assert_eq!(empty.status_code(), 404);
    assert_eq!(empty.reason(), "OK");
}

#[test]
fn reason_is_third_token_only() {
    let res = HttpResponse::new("HTTP/1.1 404 Not Found\n".to_string()).unwrap();
    assert_eq!(res.status_code(), 404);
    assert_eq!(res.reason(), "Not");
    assert_eq!(res.body(), "");
}

#[test]
fn leading_whitespace_and_reversed_line_ends() {
    let raw = "  \n HTTP/1.0 200 OK\n\rA: 1\n\r\n\rbody\n\rend".to_string();
    let res = HttpResponse::new(raw).unwrap();
    assert_eq!(res.version(), "HTTP/1.0");
    assert_eq!(res.header_value("A"), Ok("1".to_string()));
    assert_eq!(res.body(), "body\nend");
}

#[test]
fn lines_without_colon_are_skipped() {
    let raw = "HTTP/1.1 200 OK\nnot a header\n\nX: a:b\n\n".to_string();
    let res = HttpResponse::new(raw).unwrap();
    assert!(res.headers().is_empty());
    assert_eq!(res.body(), "X: a:b\n\n");

    let raw = "HTTP/1.1 200 OK\nnot a header\nX: a:b\n\n".to_string();
    let res = HttpResponse::new(raw).unwrap();
    assert_eq!(res.headers().len(), 1);
    assert_eq!(res.header_value("X"), Ok("a:b".to_string()));
}

#[test]
fn header_lookup_is_exact_and_takes_the_first() {
    let raw = "HTTP/1.1 200 OK\nSet: one\nSet: two\n\n".to_string();
    let res = HttpResponse::new(raw).unwrap();
    assert_eq!(res.header_value("Set"), Ok("one".to_string()));
    assert_eq!(
        res.header_value("set"),
        Err("failed to find set in headers".to_string())
    );
}

#[test]
fn parsing_twice_gives_equal_responses() {
    let raw = "HTTP/1.1 200 OK\nDate: xx xx xx\n\nbody message";
    let a = HttpResponse::new(raw.to_string()).unwrap();
    let b = HttpResponse::new(raw.to_string()).unwrap();
    assert_eq!(a.version(), b.version());
    assert_eq!(a.status_code(), b.status_code());
    assert_eq!(a.reason(), b.reason());
    assert_eq!(a.body(), b.body());
    let (ha, hb) = (a.headers(), b.headers());
    assert_eq!(ha.len(), hb.len());
    for i in 0..ha.len() {
        assert_eq!(ha[i].name, hb[i].name);
        assert_eq!(ha[i].value, hb[i].value);
    }
}

#[test]
fn get_request_text() {
    let req = HttpClient::build_get_request("example.com", "index.html");
    assert_eq!(
        req,
        "GET /index.html HTTP/1.1\nHost: example.com\nAccept: text/html\nConnection: close\n\n"
    );
}

#[test]
fn response_from_received_bytes() {
    let res = HttpClient::response_from_bytes("HTTP/1.1 200 OK\nA: b\n\nhé".as_bytes()).unwrap();
    assert_eq!(res.status_code(), 200);
    assert_eq!(res.body(), "hé");
    let bad = HttpClient::response_from_bytes(&[0x48, 0xff, 0x0a]);
    assert!(matches!(bad, Err(Error::Decoding(_))));
    let short = HttpClient::response_from_bytes(b"HTTP/1.1 200 OK");
    assert_eq!(short.err(), Some(Error::MalformedResponse));
}
