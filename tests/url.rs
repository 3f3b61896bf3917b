use saba_core::url::Url;

#[test]
fn test_urls() {
    let mut url = Url::new(
        "http://google.github.io:8080/comprehensive-rust/types-and-values/values?page=10"
            .to_string(),
    );

    assert_eq!(url.parse().is_ok(), true);
    assert_eq!(url.host(), "google.github.io");
    assert_eq!(url.port(), "8080");
    assert_eq!(url.path(), "comprehensive-rust/types-and-values/values");
    assert_eq!(url.searchpart(), "page=10");
}

#[test]
fn test_url() {
    let url = "http://example.com".to_string();
    let expected = Ok(Url {
        url: url.clone(),
        host: "example.com".to_string(),
        port: "80".to_string(),
        path: "".to_string(),
        searchpart: "".to_string(),
    });
    assert_eq!(expected, Url::new(url).parse());
}

#[test]
fn test_url_with_port() {
    let url = "http://example.com:8888".to_string();
    let expected = Ok(Url {
        url: url.clone(),
        host: "example.com".to_string(),
        port: "8888".to_string(),
        path: "".to_string(),
        searchpart: "".to_string(),
    });
    assert_eq!(expected, Url::new(url).parse());
}

#[test]
fn test_url_with_path() {
    let url = "http://example.com/index.html".to_string();
    let expected = Ok(Url {
        url: url.clone(),
        host: "example.com".to_string(),
        port: "80".to_string(),
        path: "index.html".to_string(),
        searchpart: "".to_string(),
    });
    assert_eq!(expected, Url::new(url).parse());
}

#[test]
fn test_url_with_port_path() {
    let url = "http://example.com:8888/index.html".to_string();
    let expected = Ok(Url {
        url: url.clone(),
        host: "example.com".to_string(),
        port: "8888".to_string(),
        path: "index.html".to_string(),
        searchpart: "".to_string(),
    });
    assert_eq!(expected, Url::new(url).parse());
}

#[test]
fn test_url_with_port_path_searchpart() {
    let url = "http://example.com:8888/index.html?a=123&b=456".to_string();
    let expected = Ok(Url {
        url: url.clone(),
        host: "example.com".to_string(),
        port: "8888".to_string(),
        path: "index.html".to_string(),
        searchpart: "a=123&b=456".to_string(),
    });
    assert_eq!(expected, Url::new(url).parse());
}

#[test]
fn test_localhost() {
    let url = "http://localhost:8000".to_string();
    let expected = Ok(Url {
        url: url.clone(),
        host: "localhost".to_string(),
        port: "8000".to_string(),
        path: "".to_string(),
        searchpart: "".to_string(),
    });
    assert_eq!(expected, Url::new(url).parse());
}

#[test]
fn test_no_scheme() {
    let url = "example.com".to_string();
    let expected = Err("Only HTTP scheme is supported.".to_string());
    assert_eq!(expected, Url::new(url).parse());
}

#[test]
fn test_unsupported_scheme() {
    let url = "https://example.com:8888/index.html".to_string();
    let expected = Err("Only HTTP scheme is supported.".to_string());
    assert_eq!(expected, Url::new(url).parse());
}

#[test]
fn host_stops_at_first_colon_or_slash() {
    let mut a = Url::new("http://a.b.c/x:y".to_string());
    assert!(a.parse().is_ok());
    assert_eq!(a.host(), "a.b.c");
    assert_eq!(a.port(), "80");
    assert_eq!(a.path(), "x:y");

    let mut b = Url::new("http://host:1/p".to_string());
    assert!(b.parse().is_ok());
    assert_eq!(b.host(), "host");
    assert_eq!(b.port(), "1");
}

#[test]
fn https_url_is_rejected() {
    let mut url = Url::new("https://example.com".to_string());
    assert_eq!(url.parse(), Err("Only HTTP scheme is supported.".to_string()));
    assert_eq!(url.host(), "");
    assert_eq!(url.port(), "80");
    assert_eq!(url.path(), "");
    assert_eq!(url.searchpart(), "");
}

#[test]
fn scheme_found_anywhere_is_accepted() {
    let mut url = Url::new("foo.http://bar".to_string());
    assert!(url.parse().is_ok());
    assert_eq!(url.host(), "foo.http");
    assert_eq!(url.port(), "");
    assert_eq!(url.path(), "/bar");
    assert_eq!(url.searchpart(), "");
}

#[test]
fn only_one_scheme_prefix_is_stripped() {
    let mut url = Url::new("http://http://example.com/a".to_string());
    assert!(url.parse().is_ok());
    assert_eq!(url.host(), "http");
    assert_eq!(url.port(), "");
    assert_eq!(url.path(), "/example.com/a");
    assert_eq!(url.searchpart(), "");
}

#[test]
fn query_without_path() {
    let mut url = Url::new("http://example.com?q=1".to_string());
    assert!(url.parse().is_ok());
    assert_eq!(url.host(), "example.com?q=1");
    assert_eq!(url.path(), "");
    assert_eq!(url.searchpart(), "q=1");
}

#[test]
fn parsing_twice_gives_equal_urls() {
    let raw = "http://example.com:8888/index.html?a=123&b=456".to_string();
    let first = Url::new(raw.clone()).parse();
    let second = Url::new(raw).parse();
    assert_eq!(first, second);
    let mut again = first.clone().unwrap();
    assert_eq!(again.parse(), first);
}
