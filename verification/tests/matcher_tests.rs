use wave_core::matcher::{host_within, pattern_found, rule_applies, rule_strips};
use wave_core::parser::{read_line, ParsedLine};
use wave_core::request::Request;
use wave_core::rule::FilterRule;
use wave_core::shield::ResourceType;

fn rule(line: &str) -> FilterRule {
    match read_line(line) {
        ParsedLine::Rule(r) => r,
        other => panic!("no rule from {:?}: {:?}", line, other),
    }
}

fn request(url: &str) -> Request {
    Request::new(url, "https://mysite.com/", ResourceType::Script).unwrap()
}

fn found(line: &str, url: &str) -> bool {
    pattern_found(&rule(line), &request(url))
}

fn chars(s: &str) -> Vec<char> {
    s.chars().collect()
}

#[test]
fn plain_pattern_matches_anywhere() {
    assert!(found("banner", "https://ads.example/img/banner.png"));
    assert!(found("banner", "https://banner.example/"));
    assert!(!found("banner", "https://ads.example/img/bann.png"));
    assert!(found("BANNER", "https://ads.example/img/Banner.png"));
}

#[test]
fn host_anchor_matches_at_label_starts() {
    assert!(found("||badsite.com^", "https://badsite.com/"));
    assert!(found("||badsite.com^", "https://ads.badsite.com/x"));
    assert!(!found("||badsite.com^", "https://notbadsite.com/x"));
    assert!(!found("||badsite.com^", "https://good.example/badsite.com/"));
    assert!(!found("||badsite.com^", "https://good.example/?u=.badsite.com/"));
    assert!(found("||ads.", "https://x.ads.example/"));
    assert!(found("||example.co", "https://example.com/"));
}

#[test]
fn host_anchor_may_run_into_the_path() {
    assert!(found("||ads.badsite.com/banner.js^", "https://ads.badsite.com/banner.js"));
    assert!(found("||ads.badsite.com/banner.js^", "https://ads.badsite.com/banner.js?x=1"));
    assert!(!found("||ads.badsite.com/banner.js^", "https://ads.badsite.com/banner.jsx"));
    assert!(found("||badsite.com/banner", "https://ads.badsite.com:8080/banner") == false);
    assert!(found("||badsite.com/banner", "https://ads.badsite.com:443/banner"));
}

#[test]
fn start_anchor_matches_at_the_start() {
    assert!(found("|https://ads.", "https://ads.example/"));
    assert!(!found("|ads.", "https://ads.example/"));
    assert!(!found("|http://", "https://ads.example/?u=http://x"));
}

#[test]
fn end_anchor_wants_a_separator_or_the_end() {
    assert!(found("||badsite.com^", "https://badsite.com"));
    assert!(found("||badsite.com^", "https://badsite.com:8080/"));
    assert!(found("||badsite.com^", "https://badsite.com?x"));
    assert!(!found("||badsite.com^", "https://badsite.community/"));
    assert!(!found("||badsite.com^", "https://badsite.com.example/"));
    assert!(!found("||badsite.com^", "https://badsite.com-x.example/"));
    assert!(found("/ads^", "https://a.example/ads/x"));
    assert!(found("/ads^", "https://a.example/ads"));
    assert!(!found("/ads^", "https://a.example/adserver"));
    assert!(!found("/ads^", "https://a.example/ads_x"));
    assert!(!found("/ads^", "https://a.example/ads%20"));
}

#[test]
fn end_anchor_looks_past_an_early_occurrence() {
    assert!(found("ads^", "https://a.example/adsx/ads/"));
    assert!(found("a*ads^", "https://a.example/adsx/ads"));
}

#[test]
fn wildcard_gaps_keep_the_order() {
    assert!(found("/a/*/b/", "https://x.example/a/1/2/b/"));
    assert!(found("/a/*/b/", "https://x.example/a//b/"));
    assert!(!found("/a/*/b/", "https://x.example/b/1/a/"));
    assert!(!found("/a/*/b/", "https://x.example/a/b/"));
    assert!(found("ab*ab", "https://x.example/abab"));
    assert!(!found("ab*ab", "https://x.example/aba"));
    assert!(found("x*y*z", "https://q.example/1x2y3z4"));
    assert!(!found("x*y*z", "https://q.example/1z2y3x4"));
}

#[test]
fn each_condition_can_hold_a_rule_back() {
    let req = request("https://ads.badsite.com/banner.js");
    assert!(rule_applies(&rule("||ads.badsite.com^"), &req));
    assert!(rule_applies(&rule("||ads.badsite.com^$script"), &req));
    assert!(!rule_applies(&rule("||ads.badsite.com^$image"), &req));
    assert!(rule_applies(&rule("||ads.badsite.com^$third-party"), &req));
    assert!(rule_applies(&rule("||ads.badsite.com^$domain=mysite.com"), &req));
    assert!(!rule_applies(&rule("||ads.badsite.com^$domain=other.example"), &req));
    assert!(!rule_applies(&rule("||ads.badsite.com^$domain=~mysite.com"), &req));
    assert!(!rule_applies(&rule("||nothere.example^"), &req));
    let own = Request::new(
        "https://ads.badsite.com/banner.js",
        "https://www.badsite.com/",
        ResourceType::Script,
    )
    .unwrap();
    assert!(!rule_applies(&rule("||ads.badsite.com^$third-party"), &own));
}

#[test]
fn subdomains_belong_to_a_domain() {
    assert!(host_within(&chars("mysite.com"), &chars("mysite.com")));
    assert!(host_within(&chars("a.b.mysite.com"), &chars("mysite.com")));
    assert!(!host_within(&chars("notmysite.com"), &chars("mysite.com")));
    assert!(!host_within(&chars("mysite.com"), &chars("a.mysite.com")));
    assert!(!host_within(&chars("mysite.com.evil"), &chars("mysite.com")));
    assert!(!host_within(&chars(""), &chars("mysite.com")));
}

#[test]
fn stripping_rules_are_told() {
    assert!(rule_strips(&rule("x$strip")));
    assert!(rule_strips(&rule("utm_source=")));
    assert!(rule_strips(&rule("?fbclid=")));
    assert!(rule_strips(&rule("&gclid=")));
    assert!(rule_strips(&rule("||a.example/*&utm_medium=")));
    assert!(!rule_strips(&rule("utm_source=mail")));
    assert!(!rule_strips(&rule("fbclid")));
    assert!(!rule_strips(&rule("id=")));
    assert!(!rule_strips(&rule("||ads.badsite.com^")));
}
