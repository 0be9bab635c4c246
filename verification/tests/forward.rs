use rift::forward::{
    answer, request_host, respond_status, upstream_error_reply, upstream_target, Reply,
    UpstreamError,
};
use rift::rules::parse;

#[test]
fn host_comes_from_the_header_without_its_port() {
    assert_eq!(request_host(Some("api.example.com:8080"), Some("other")), Some("api.example.com".to_string()));
    assert_eq!(request_host(Some("api.example.com"), None), Some("api.example.com".to_string()));
    assert_eq!(request_host(Some(":80"), None), Some(String::new()));
    assert_eq!(request_host(Some("[::1]:80"), None), Some("[".to_string()));
}

#[test]
fn host_falls_back_to_the_uri() {
    assert_eq!(request_host(None, Some("h2.example")), Some("h2.example".to_string()));
    assert_eq!(request_host(None, None), None);
}

#[test]
fn respond_codes_outside_the_status_range_become_200() {
    assert_eq!(respond_status(204), 204);
    assert_eq!(respond_status(100), 100);
    assert_eq!(respond_status(999), 999);
    assert_eq!(respond_status(99), 200);
    assert_eq!(respond_status(1000), 200);
    assert_eq!(respond_status(0), 200);
    for code in 0..=u16::MAX {
        let want = hyper::StatusCode::from_u16(code).map(|s| s.as_u16()).unwrap_or(200);
        assert_eq!(respond_status(code), want);
    }
}

#[test]
fn answer_follows_the_first_matching_rule() {
    let r = parse(
        "route path \"/health\" -> respond 204 \"ok\"\nroute path \"/odd\" -> respond 7\nroute path \"/api\" -> upstream \"http://127.0.0.1:9001\"",
    )
    .unwrap();
    match answer(&r, None, "/health", &[]) {
        Reply::Inline(code, body) => {
            assert_eq!(code, 204);
            assert_eq!(body, "ok");
        }
        other => panic!("{other:?}"),
    }
    match answer(&r, None, "/odd", &[]) {
        Reply::Inline(code, body) => {
            assert_eq!(code, 200);
            assert_eq!(body, "");
        }
        other => panic!("{other:?}"),
    }
    match answer(&r, None, "/api/x", &[]) {
        Reply::Forward(url) => assert_eq!(url, "http://127.0.0.1:9001"),
        other => panic!("{other:?}"),
    }
    match answer(&r, None, "/nothing", &[]) {
        Reply::Inline(code, body) => {
            assert_eq!(code, 502);
            assert_eq!(body, "rift: no route matched\n");
        }
        other => panic!("{other:?}"),
    }
}

#[test]
fn upstream_target_takes_scheme_and_authority_from_the_url() {
    let t = upstream_target("https://10.0.0.5:80/ignored?x=1", Some("/v1/users?id=3")).unwrap();
    assert_eq!(t.scheme, "https");
    assert_eq!(t.authority, "10.0.0.5:80");
    assert_eq!(t.path_and_query, "/v1/users?id=3");
    let t = upstream_target("http://127.0.0.1:9001", None).unwrap();
    assert_eq!(t.scheme, "http");
    assert_eq!(t.authority, "127.0.0.1:9001");
    assert_eq!(t.path_and_query, "/");
}

#[test]
fn upstream_target_defaults_the_scheme_to_http() {
    let url = "example.com:8080";
    let u: hyper::Uri = url.parse().unwrap();
    assert!(u.scheme_str().is_none());
    let t = upstream_target(url, Some("/p")).unwrap();
    assert_eq!(t.scheme, "http");
    assert_eq!(t.authority, "example.com:8080");
}

#[test]
fn upstream_target_refuses_bad_urls_and_urls_without_host() {
    assert_eq!(upstream_target("http://exa mple.com", None).unwrap_err(), UpstreamError::BadUrl);
    assert_eq!(upstream_target("", None).unwrap_err(), UpstreamError::BadUrl);
    assert_eq!(upstream_target("/only/a/path", None).unwrap_err(), UpstreamError::NoHost);
}

#[test]
fn forwarding_failures_have_fixed_replies() {
    assert_eq!(upstream_error_reply(UpstreamError::BadUrl), (502, "rift: bad upstream url\n".to_string()));
    assert_eq!(upstream_error_reply(UpstreamError::NoHost), (502, "rift: upstream has no host\n".to_string()));
    assert_eq!(
        upstream_error_reply(UpstreamError::CannotBuild),
        (500, "rift: could not build upstream uri\n".to_string())
    );
    assert_eq!(
        upstream_error_reply(UpstreamError::Unreachable),
        (502, "rift: upstream unreachable\n".to_string())
    );
}
