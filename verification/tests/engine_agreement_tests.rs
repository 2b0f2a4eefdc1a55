use adblock::lists::ParseOptions;
use adblock::request::Request;
use adblock::Engine;
use wave_core::shield::{Decision, WaveShield};

fn both(rules: &[&str], url: &str, source: &str, kind: &str) -> (Decision, bool) {
    let lines: Vec<String> = rules.iter().map(|s| s.to_string()).collect();
    let mut shield = WaveShield::new();
    shield.load_filters(lines.clone());
    let ours = shield.should_allow_request(url, source, kind);
    let engine = Engine::from_rules(&lines, ParseOptions::default());
    let request = Request::new(url, source, kind).unwrap();
    let theirs = engine.check_network_request(&request).matched;
    (ours, theirs)
}

#[test]
fn blocks_what_the_adblock_engine_blocks() {
    let rules = [
        "||ads.badsite.com^",
        "@@||ads.badsite.com/banner.js^",
        "/tracking/pixel.",
        "||cdn.example^$image",
        "||widgets.example^$third-party",
        "/sponsored/$domain=news.example",
        "|https://start.example/",
    ];
    let cases = [
        ("https://ads.badsite.com/banner.js", "https://mysite.com", "script"),
        ("https://ads.badsite.com/other.js", "https://mysite.com", "script"),
        ("https://sub.ads.badsite.com/x", "https://mysite.com", "image"),
        ("https://notads.badsite.com/x", "https://mysite.com", "image"),
        ("https://mysite.com/style.css", "https://mysite.com", "stylesheet"),
        ("https://a.example/tracking/pixel.gif", "https://mysite.com", "image"),
        ("https://a.example/tracking/pixels", "https://mysite.com", "image"),
        ("https://cdn.example/i.png", "https://mysite.com", "image"),
        ("https://cdn.example/i.js", "https://mysite.com", "script"),
        ("https://x.widgets.example/w.js", "https://mysite.com", "script"),
        ("https://x.widgets.example/w.js", "https://www.widgets.example", "script"),
        ("https://a.example/sponsored/1", "https://news.example/today", "script"),
        ("https://a.example/sponsored/1", "https://m.news.example/today", "script"),
        ("https://a.example/sponsored/1", "https://other.example/today", "script"),
        ("https://start.example/page", "https://mysite.com", "script"),
        ("https://a.example/?u=https://start.example/", "https://mysite.com", "script"),
    ];
    for (url, source, kind) in cases {
        let (ours, theirs) = both(&rules, url, source, kind);
        assert_eq!(ours == Decision::Block, theirs, "{} from {} as {}", url, source, kind);
        assert_ne!(ours, Decision::Sanitize);
    }
}

#[test]
fn single_rule_scenarios_agree() {
    let (ours, theirs) = both(
        &["||ads.badsite.com^"],
        "https://ads.badsite.com/banner.js",
        "https://mysite.com",
        "script",
    );
    assert_eq!(ours, Decision::Block);
    assert!(theirs);
    let (ours, theirs) = both(
        &["||ads.badsite.com^"],
        "https://mysite.com/style.css",
        "https://mysite.com",
        "stylesheet",
    );
    assert_eq!(ours, Decision::Allow);
    assert!(!theirs);
}
