use wave_core::request::{Request, RequestError, UrlParts};
use wave_core::shield::ResourceType;

fn parts(url: &str, scheme: &str, hostname: &str, domain: &str, at: usize) -> UrlParts {
    UrlParts {
        url: url.to_string(),
        scheme: scheme.to_string(),
        hostname: hostname.to_string(),
        domain: domain.to_string(),
        host_start: at,
        host_end: at + hostname.chars().count(),
    }
}

#[test]
fn request_is_normalised() {
    let r = Request::new(
        "HTTPS://Ads.BadSite.com:443/Banner.js?Q=1",
        "https://WWW.MySite.com/page",
        ResourceType::Script,
    )
    .unwrap();
    assert_eq!(r.address(), "https://ads.badsite.com/banner.js?q=1");
    assert_eq!(r.host(), "ads.badsite.com");
    assert_eq!(r.source(), "www.mysite.com");
    assert!(r.third_party());
    assert_eq!(r.resource_type(), ResourceType::Script);
    assert_eq!(r.host_start(), 8);
    assert_eq!(r.host_end(), 23);
}

#[test]
fn only_the_default_port_is_removed() {
    let source = "https://mysite.com";
    let get = |url: &str| Request::new(url, source, ResourceType::Other).unwrap().address();
    assert_eq!(get("http://a.example:80/x"), "http://a.example/x");
    assert_eq!(get("http://a.example:8080/x"), "http://a.example:8080/x");
    assert_eq!(get("http://a.example:443/x"), "http://a.example:443/x");
    assert_eq!(get("https://a.example:443"), "https://a.example");
    assert_eq!(get("https://a.example:4430/"), "https://a.example:4430/");
    assert_eq!(get("ws://a.example:80/s"), "ws://a.example/s");
    assert_eq!(get("wss://a.example:443/s"), "wss://a.example/s");
    assert_eq!(get("ftp://a.example:21/f"), "ftp://a.example/f");
}

#[test]
fn same_site_is_first_party() {
    let r = Request::new(
        "https://cdn.mysite.com/app.js",
        "https://www.mysite.com/",
        ResourceType::Script,
    )
    .unwrap();
    assert!(!r.third_party());
    let s = Request::new(
        "https://mysite.org/app.js",
        "https://mysite.com/",
        ResourceType::Script,
    )
    .unwrap();
    assert!(s.third_party());
}

#[test]
fn unreadable_addresses_are_told_apart() {
    let e = Request::new("no scheme here", "https://mysite.com", ResourceType::Other);
    assert_eq!(e.err(), Some(RequestError::Target));
    let f = Request::new("https://a.example/", "", ResourceType::Other);
    assert_eq!(f.err(), Some(RequestError::Source));
    let g = Request::new("", "", ResourceType::Other);
    assert_eq!(g.err(), Some(RequestError::Target));
    let h = Request::new("data:text/plain,hello", "https://mysite.com", ResourceType::Other);
    assert_eq!(h.err(), Some(RequestError::Target));
}

#[test]
fn parts_are_tested_before_use() {
    let good = || parts("https://a.example/x", "https", "a.example", "a.example", 8);
    let source = || parts("https://b.example/", "https", "b.example", "b.example", 8);
    let ok = Request::from_parts(Some(good()), Some(source()), ResourceType::Image).unwrap();
    assert_eq!(ok.address(), "https://a.example/x");
    assert!(ok.third_party());

    let mut shifted = good();
    shifted.host_start = 7;
    shifted.host_end = 16;
    let e = Request::from_parts(Some(shifted), Some(source()), ResourceType::Image);
    assert_eq!(e.err(), Some(RequestError::Target));

    let mut beyond = good();
    beyond.host_end = 100;
    let e = Request::from_parts(Some(beyond), Some(source()), ResourceType::Image);
    assert_eq!(e.err(), Some(RequestError::Target));

    let mut empty = good();
    empty.host_end = empty.host_start;
    empty.hostname = String::new();
    let e = Request::from_parts(Some(empty), Some(source()), ResourceType::Image);
    assert_eq!(e.err(), Some(RequestError::Target));

    let e = Request::from_parts(None, Some(source()), ResourceType::Image);
    assert_eq!(e.err(), Some(RequestError::Target));
    let e = Request::from_parts(Some(good()), None, ResourceType::Image);
    assert_eq!(e.err(), Some(RequestError::Source));
    let e = Request::from_parts(None, None, ResourceType::Image);
    assert_eq!(e.err(), Some(RequestError::Target));
}

#[test]
fn party_goes_by_the_domains_given() {
    let target = parts("https://x.a.example/", "https", "x.a.example", "A.example", 8);
    let source = parts("https://y.a.example/", "https", "y.a.example", "a.EXAMPLE", 8);
    let r = Request::from_parts(Some(target), Some(source), ResourceType::Other).unwrap();
    assert!(!r.third_party());
    assert_eq!(r.source(), "y.a.example");
}
