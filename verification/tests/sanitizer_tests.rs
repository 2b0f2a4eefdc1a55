use wave_core::sanitizer::{sanitize, tracking_key};

fn key(s: &str) -> Vec<char> {
    s.chars().collect()
}

#[test]
fn tracking_parameters_are_removed() {
    assert_eq!(
        sanitize("https://shop.example/item?id=3&utm_source=mail&color=red&fbclid=abc"),
        "https://shop.example/item?id=3&color=red"
    );
}

#[test]
fn order_and_values_of_the_rest_are_kept() {
    assert_eq!(
        sanitize("https://a.example/?z=1&gclid=x&a=2&a=3&utm_campaign=c&m"),
        "https://a.example/?z=1&a=2&a=3&m"
    );
}

#[test]
fn question_mark_goes_with_the_last_parameter() {
    assert_eq!(sanitize("https://a.example/p?utm_source=x"), "https://a.example/p");
    assert_eq!(
        sanitize("https://a.example/p?utm_source=x&gclid=1#top"),
        "https://a.example/p#top"
    );
}

#[test]
fn fragment_is_kept() {
    assert_eq!(
        sanitize("https://a.example/p?x=1&msclkid=9#sec?utm_source=no"),
        "https://a.example/p?x=1#sec?utm_source=no"
    );
    assert_eq!(
        sanitize("https://a.example/p#frag?utm_source=x"),
        "https://a.example/p#frag?utm_source=x"
    );
}

#[test]
fn address_without_tracking_is_unchanged() {
    for url in [
        "https://a.example/",
        "https://a.example/p?x=1&y=2",
        "https://a.example/p?",
        "https://a.example/p?&&",
        "https://a.example/p?x=utm_source",
        "https://a.example/utm_source=1",
        "",
        "?",
        "#",
    ] {
        assert_eq!(sanitize(url), url);
    }
}

#[test]
fn names_match_in_either_case_and_without_value() {
    assert_eq!(sanitize("https://a.example/?UTM_Source=x&b=1"), "https://a.example/?b=1");
    assert_eq!(sanitize("https://a.example/?fbclid&b=1"), "https://a.example/?b=1");
    assert_eq!(sanitize("https://a.example/?b=1&utm_anything=2"), "https://a.example/?b=1");
}

#[test]
fn sanitize_twice_is_sanitize_once() {
    for url in [
        "https://shop.example/item?id=3&utm_source=mail&color=red&fbclid=abc",
        "https://a.example/p?utm_source=x",
        "https://a.example/p?utm_source=x&gclid=1#top",
        "https://a.example/p?&utm_source=x&&",
        "https://a.example/p?a=1#x?fbclid=2",
        "?gclid=1?x&y",
        "https://a.example/",
    ] {
        let once = sanitize(url);
        assert_eq!(sanitize(&once), once);
    }
}

#[test]
fn registry_of_names() {
    for name in [
        "gclid", "gclsrc", "dclid", "gbraid", "wbraid", "fbclid", "msclkid", "yclid", "twclid",
        "ttclid", "igshid", "mc_cid", "mc_eid", "_ga", "_gl", "ref_src", "ref_url", "utm_source",
        "utm_medium", "utm_campaign", "utm_term", "utm_content", "utm_id", "UTM_SOURCE",
    ] {
        assert!(tracking_key(&key(name)), "{}", name);
    }
    for name in ["", "id", "utm", "ref", "gclid2", "xfbclid", "q"] {
        assert!(!tracking_key(&key(name)), "{}", name);
    }
}
