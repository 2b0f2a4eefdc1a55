use wave_core::request::RequestError;
use wave_core::shield::{Decision, ResourceType, WaveShield};

fn lines(list: &[&str]) -> Vec<String> {
    list.iter().map(|s| s.to_string()).collect()
}

#[test]
fn test_shield_blocking() {
    let mut shield = WaveShield::new();

    // Load a simple blocking rule
    let rules = vec!["||ads.badsite.com^".to_string()];
    shield.load_filters(rules);

    // url: the bad ad url; source: the site we are visiting; type: script
    let decision = shield.should_allow_request(
        "https://ads.badsite.com/banner.js",
        "https://mysite.com",
        "script",
    );

    match decision {
        Decision::Block => assert!(true),
        _ => panic!("Should have blocked the ad url"),
    }

    let decision_allow = shield.should_allow_request(
        "https://mysite.com/style.css",
        "https://mysite.com",
        "stylesheet",
    );

    match decision_allow {
        Decision::Allow => assert!(true),
        _ => panic!("Should have allowed the safe url"),
    }
}

#[test]
fn exception_overrides_block() {
    let mut shield = WaveShield::new();
    let report = shield.load_filters(lines(&[
        "||ads.badsite.com^",
        "@@||ads.badsite.com/banner.js^",
    ]));
    assert_eq!(report.accepted, 2);
    assert_eq!(report.skipped, 0);
    let d = shield.should_allow_request(
        "https://ads.badsite.com/banner.js",
        "https://mysite.com",
        "script",
    );
    assert_eq!(d, Decision::Allow);
    let other = shield.should_allow_request(
        "https://ads.badsite.com/other.js",
        "https://mysite.com",
        "script",
    );
    assert_eq!(other, Decision::Block);
}

#[test]
fn exception_wins_whatever_the_order() {
    let mut shield = WaveShield::new();
    shield.load_filters(lines(&[
        "@@||ads.badsite.com/banner.js^",
        "||ads.badsite.com^",
    ]));
    let d = shield.should_allow_request(
        "https://ads.badsite.com/banner.js",
        "https://mysite.com",
        "script",
    );
    assert_eq!(d, Decision::Allow);
}

#[test]
fn new_shield_allows_everything() {
    let shield = WaveShield::new();
    assert!(shield.is_enabled());
    let d = shield.should_allow_request(
        "https://ads.badsite.com/banner.js",
        "https://mysite.com",
        "script",
    );
    assert_eq!(d, Decision::Allow);
}

#[test]
fn empty_batch_installs_empty_index() {
    let mut shield = WaveShield::new();
    shield.load_filters(lines(&["||ads.badsite.com^"]));
    let report = shield.load_filters(Vec::new());
    assert_eq!(report.accepted, 0);
    assert_eq!(report.skipped, 0);
    let d = shield.should_allow_request(
        "https://ads.badsite.com/banner.js",
        "https://mysite.com",
        "script",
    );
    assert_eq!(d, Decision::Allow);
}

#[test]
fn all_skipped_batch_installs_empty_index() {
    let mut shield = WaveShield::new();
    shield.load_filters(lines(&["||ads.badsite.com^"]));
    let report = shield.load_filters(lines(&["||", "! a comment", "", "x$nonsense", "*"]));
    assert_eq!(report.accepted, 0);
    assert_eq!(report.skipped, 3);
    let d = shield.should_allow_request(
        "https://ads.badsite.com/banner.js",
        "https://mysite.com",
        "script",
    );
    assert_eq!(d, Decision::Allow);
}

#[test]
fn reload_replaces_the_rules() {
    let mut shield = WaveShield::new();
    shield.load_filters(lines(&["||ads.badsite.com^"]));
    shield.load_filters(lines(&["||tracker.example^"]));
    assert_eq!(
        shield.should_allow_request(
            "https://ads.badsite.com/banner.js",
            "https://mysite.com",
            "script"
        ),
        Decision::Allow
    );
    assert_eq!(
        shield.should_allow_request("https://tracker.example/p.gif", "https://mysite.com", "image"),
        Decision::Block
    );
}

#[test]
fn disabled_shield_allows() {
    let mut shield = WaveShield::new();
    shield.load_filters(lines(&["||ads.badsite.com^"]));
    shield.set_enabled(false);
    assert!(!shield.is_enabled());
    let v = shield.check_request(
        "https://ads.badsite.com/banner.js",
        "https://mysite.com",
        "script",
    );
    assert_eq!(v.decision, Decision::Allow);
    assert_eq!(v.rule, None);
    assert_eq!(v.fault, None);
    shield.set_enabled(true);
    assert_eq!(
        shield.should_allow_request(
            "https://ads.badsite.com/banner.js",
            "https://mysite.com",
            "script"
        ),
        Decision::Block
    );
}

#[test]
fn unreadable_target_fails_open() {
    let mut shield = WaveShield::new();
    shield.load_filters(lines(&["banner"]));
    let v = shield.check_request("not an address/banner", "https://mysite.com", "script");
    assert_eq!(v.decision, Decision::Allow);
    assert_eq!(v.fault, Some(RequestError::Target));
    assert_eq!(v.rule, None);
}

#[test]
fn unreadable_source_fails_open() {
    let mut shield = WaveShield::new();
    shield.load_filters(lines(&["banner"]));
    let v = shield.check_request("https://ads.badsite.com/banner.js", "", "script");
    assert_eq!(v.decision, Decision::Allow);
    assert_eq!(v.fault, Some(RequestError::Source));
    let ok = shield.check_request(
        "https://ads.badsite.com/banner.js",
        "https://mysite.com",
        "script",
    );
    assert_eq!(ok.decision, Decision::Block);
    assert_eq!(ok.fault, None);
    assert_eq!(ok.rule, Some(0));
}

#[test]
fn first_blocking_rule_is_reported() {
    let mut shield = WaveShield::new();
    shield.load_filters(lines(&[
        "||other.example^",
        "/banner.",
        "||ads.badsite.com^",
        "banner.js",
    ]));
    let v = shield.check_request(
        "https://ads.badsite.com/banner.js",
        "https://mysite.com",
        "script",
    );
    assert_eq!(v.decision, Decision::Block);
    assert_eq!(v.rule, Some(1));
}

#[test]
fn strip_rule_sanitizes() {
    let mut shield = WaveShield::new();
    shield.load_filters(lines(&["||shop.example^$strip", "?fbclid="]));
    let v = shield.check_request(
        "https://shop.example/item?id=3",
        "https://mysite.com",
        "other",
    );
    assert_eq!(v.decision, Decision::Sanitize);
    assert_eq!(v.rule, Some(0));
    let w = shield.check_request(
        "https://news.example/a?fbclid=abc",
        "https://mysite.com",
        "other",
    );
    assert_eq!(w.decision, Decision::Sanitize);
    assert_eq!(w.rule, Some(1));
}

#[test]
fn block_beats_strip() {
    let mut shield = WaveShield::new();
    shield.load_filters(lines(&["utm_source=", "||tracker.example^"]));
    let v = shield.check_request(
        "https://tracker.example/p?utm_source=x",
        "https://mysite.com",
        "image",
    );
    assert_eq!(v.decision, Decision::Block);
    assert_eq!(v.rule, Some(1));
}

#[test]
fn exception_beats_strip() {
    let mut shield = WaveShield::new();
    shield.load_filters(lines(&["utm_source=", "@@||trusted.example^"]));
    assert_eq!(
        shield.should_allow_request(
            "https://trusted.example/p?utm_source=x",
            "https://mysite.com",
            "image"
        ),
        Decision::Allow
    );
}

#[test]
fn domain_constrained_rule() {
    let mut shield = WaveShield::new();
    shield.load_filters(lines(&["/pattern/$domain=mysite.com"]));
    let target = "https://cdn.example/pattern/x.js";
    assert_eq!(
        shield.should_allow_request(target, "https://mysite.com/page", "script"),
        Decision::Block
    );
    assert_eq!(
        shield.should_allow_request(target, "https://blog.mysite.com/page", "script"),
        Decision::Block
    );
    assert_eq!(
        shield.should_allow_request(target, "https://notmysite.com/page", "script"),
        Decision::Allow
    );
    assert_eq!(
        shield.should_allow_request(target, "https://mysite.com.evil.example/", "script"),
        Decision::Allow
    );
}

#[test]
fn excluded_domain_is_spared() {
    let mut shield = WaveShield::new();
    shield.load_filters(lines(&["/pattern/$domain=~mysite.com"]));
    let target = "https://cdn.example/pattern/x.js";
    assert_eq!(
        shield.should_allow_request(target, "https://mysite.com/page", "script"),
        Decision::Allow
    );
    assert_eq!(
        shield.should_allow_request(target, "https://sub.mysite.com/page", "script"),
        Decision::Allow
    );
    assert_eq!(
        shield.should_allow_request(target, "https://other.example/page", "script"),
        Decision::Block
    );
}

#[test]
fn third_party_rule() {
    let mut shield = WaveShield::new();
    shield.load_filters(lines(&["||widgets.example^$third-party"]));
    assert_eq!(
        shield.should_allow_request(
            "https://cdn.widgets.example/w.js",
            "https://www.widgets.example/",
            "script"
        ),
        Decision::Allow
    );
    assert_eq!(
        shield.should_allow_request(
            "https://cdn.widgets.example/w.js",
            "https://mysite.com/",
            "script"
        ),
        Decision::Block
    );
}

#[test]
fn third_party_goes_by_registrable_domain() {
    let mut shield = WaveShield::new();
    shield.load_filters(lines(&["/w.js$third-party"]));
    // two sites under one public suffix are two parties
    assert_eq!(
        shield.should_allow_request("https://a.co.uk/w.js", "https://b.co.uk/", "script"),
        Decision::Block
    );
    assert_eq!(
        shield.should_allow_request("https://x.a.co.uk/w.js", "https://y.a.co.uk/", "script"),
        Decision::Allow
    );
}

#[test]
fn resource_type_rule() {
    let mut shield = WaveShield::new();
    shield.load_filters(lines(&["||ads.badsite.com^$script,image"]));
    let target = "https://ads.badsite.com/x";
    let source = "https://mysite.com";
    assert_eq!(shield.should_allow_request(target, source, "script"), Decision::Block);
    assert_eq!(shield.should_allow_request(target, source, "image"), Decision::Block);
    assert_eq!(shield.should_allow_request(target, source, "stylesheet"), Decision::Allow);
    assert_eq!(shield.should_allow_request(target, source, "xhr"), Decision::Allow);
    assert_eq!(shield.should_allow_request(target, source, "something"), Decision::Allow);
}

#[test]
fn decide_is_repeatable() {
    let mut shield = WaveShield::new();
    shield.load_filters(lines(&["||ads.badsite.com^", "@@/allowed/", "utm_medium="]));
    let cases = [
        ("https://ads.badsite.com/banner.js", "https://mysite.com", "script"),
        ("https://ads.badsite.com/allowed/x", "https://mysite.com", "script"),
        ("https://site.example/?utm_medium=mail", "https://mysite.com", "other"),
        ("https://site.example/", "https://mysite.com", "other"),
    ];
    for (url, source, kind) in cases {
        let first = shield.check_request(url, source, kind);
        let second = shield.check_request(url, source, kind);
        assert_eq!(first, second);
    }
}

#[test]
fn resource_type_tags() {
    assert_eq!(ResourceType::from_tag("script"), ResourceType::Script);
    assert_eq!(ResourceType::from_tag("image"), ResourceType::Image);
    assert_eq!(ResourceType::from_tag("xhr"), ResourceType::XHR);
    assert_eq!(ResourceType::from_tag("frame"), ResourceType::Frame);
    assert_eq!(ResourceType::from_tag("stylesheet"), ResourceType::Stylesheet);
    assert_eq!(ResourceType::from_tag("other"), ResourceType::Other);
    assert_eq!(ResourceType::from_tag("Script"), ResourceType::Other);
    assert_eq!(ResourceType::from_tag(""), ResourceType::Other);
}
