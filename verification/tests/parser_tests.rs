use wave_core::parser::{parse, read_line, LineError, ParsedLine};
use wave_core::rule::FilterRule;
use wave_core::shield::ResourceType;

fn rule(line: &str) -> FilterRule {
    match read_line(line) {
        ParsedLine::Rule(r) => r,
        other => panic!("no rule from {:?}: {:?}", line, other),
    }
}

fn error(line: &str) -> LineError {
    match read_line(line) {
        ParsedLine::Skipped(e) => e,
        other => panic!("no error from {:?}: {:?}", line, other),
    }
}

fn tokens(r: &FilterRule) -> Vec<String> {
    (0..r.token_count()).map(|k| r.token(k).iter().collect()).collect()
}

fn texts(list: &Vec<Vec<char>>) -> Vec<String> {
    list.iter().map(|d| d.iter().collect()).collect()
}

#[test]
fn blank_lines_and_comments_are_ignored() {
    assert!(matches!(read_line(""), ParsedLine::Ignored));
    assert!(matches!(read_line("   \t "), ParsedLine::Ignored));
    assert!(matches!(read_line("! Title: a list"), ParsedLine::Ignored));
    assert!(matches!(read_line("  !indented comment"), ParsedLine::Ignored));
}

#[test]
fn host_anchored_rule() {
    let r = rule("||ads.badsite.com^");
    assert_eq!(tokens(&r), vec!["ads.badsite.com"]);
    assert!(r.host_anchor());
    assert!(!r.start_anchor());
    assert!(r.end_anchor());
    assert!(!r.is_exception());
    assert!(!r.third_party_only());
    assert!(!r.strip());
    assert!(r.resource_types().is_empty());
    assert!(r.included().is_empty());
    assert!(r.excluded().is_empty());
}

#[test]
fn exception_rule() {
    let r = rule("@@||ads.badsite.com/banner.js^");
    assert!(r.is_exception());
    assert!(r.host_anchor());
    assert!(r.end_anchor());
    assert_eq!(tokens(&r), vec!["ads.badsite.com/banner.js"]);
}

#[test]
fn start_anchor_and_wildcards() {
    let r = rule("|https://*.example/*/ads/");
    assert!(r.start_anchor());
    assert!(!r.host_anchor());
    assert!(!r.end_anchor());
    assert_eq!(tokens(&r), vec!["https://", ".example/", "/ads/"]);
}

#[test]
fn anchors_next_to_wildcards_are_dropped() {
    let r = rule("||*ads^");
    assert!(!r.host_anchor());
    assert!(r.end_anchor());
    assert_eq!(tokens(&r), vec!["ads"]);
    let s = rule("|ads*^");
    assert!(s.start_anchor());
    assert!(!s.end_anchor());
    let t = rule("**a***b**");
    assert_eq!(tokens(&t), vec!["a", "b"]);
}

#[test]
fn letters_are_folded_and_blanks_trimmed() {
    let r = rule("  ||Ads.BadSite.COM^$Script  ");
    assert_eq!(tokens(&r), vec!["ads.badsite.com"]);
    assert!(r.resource_types().contains(ResourceType::Script));
}

#[test]
fn options_are_read() {
    let r = rule("/track/$script,image,third-party,domain=a.com|~b.com|c.org,strip");
    assert_eq!(tokens(&r), vec!["/track/"]);
    let t = r.resource_types();
    assert!(t.script && t.image);
    assert!(!t.xhr && !t.frame && !t.stylesheet && !t.other);
    assert!(r.third_party_only());
    assert!(r.strip());
    assert_eq!(texts(r.included()), vec!["a.com", "c.org"]);
    assert_eq!(texts(r.excluded()), vec!["b.com"]);
}

#[test]
fn every_type_word_is_known() {
    let r = rule("x$script,image,stylesheet,xhr,frame,other");
    let t = r.resource_types();
    assert!(t.script && t.image && t.stylesheet && t.xhr && t.frame && t.other);
}

#[test]
fn repeated_domains_are_kept_once() {
    let r = rule("x$domain=a.com|a.com,domain=b.com|a.com");
    assert_eq!(texts(r.included()), vec!["a.com", "b.com"]);
}

#[test]
fn pattern_without_literal_is_skipped() {
    assert_eq!(error("||"), LineError::NoLiteral);
    assert_eq!(error("@@"), LineError::NoLiteral);
    assert_eq!(error("*"), LineError::NoLiteral);
    assert_eq!(error("|*^"), LineError::NoLiteral);
    assert_eq!(error("$script"), LineError::NoLiteral);
    assert_eq!(error("^"), LineError::NoLiteral);
}

#[test]
fn stray_anchor_or_blank_is_skipped() {
    assert_eq!(error("ads^banner"), LineError::BadPattern);
    assert_eq!(error("ads|banner"), LineError::BadPattern);
    assert_eq!(error("|||ads"), LineError::BadPattern);
    assert_eq!(error("ads banner"), LineError::BadPattern);
    assert_eq!(error("ads^^"), LineError::BadPattern);
}

#[test]
fn bad_option_is_skipped() {
    assert_eq!(error("ads$nonsense"), LineError::BadOption);
    assert_eq!(error("ads$script,"), LineError::BadOption);
    assert_eq!(error("ads$"), LineError::BadOption);
    assert_eq!(error("ads$domain="), LineError::BadOption);
    assert_eq!(error("ads$domain=a.com||b.com"), LineError::BadOption);
    assert_eq!(error("ads$domain=~"), LineError::BadOption);
    assert_eq!(error("ads$domain=~~a.com"), LineError::BadOption);
    assert_eq!(error("ads$domain=a b"), LineError::BadOption);
    assert_eq!(error("ads$script$image"), LineError::BadOption);
}

#[test]
fn conflicting_domains_are_skipped() {
    assert_eq!(error("ads$domain=a.com|~a.com"), LineError::DomainConflict);
    assert_eq!(error("ads$domain=~a.com,domain=b.com|a.com"), LineError::DomainConflict);
}

#[test]
fn pattern_fault_comes_before_option_fault() {
    assert_eq!(error("a^b$nonsense"), LineError::BadPattern);
    assert_eq!(error("*$nonsense"), LineError::NoLiteral);
}

#[test]
fn batch_counts_and_keeps_order() {
    let lines: Vec<String> = [
        "! comment",
        "||first.example^",
        "",
        "||",
        "second",
        "bad$what",
        "@@third",
    ]
    .iter()
    .map(|s| s.to_string())
    .collect();
    let out = parse(&lines);
    assert_eq!(out.skipped, 2);
    assert_eq!(out.rules.len(), 3);
    assert_eq!(out.rules[0].to_line(), "||first.example^");
    assert_eq!(out.rules[1].to_line(), "second");
    assert_eq!(out.rules[2].to_line(), "@@third");
}

#[test]
fn empty_batch_gives_nothing() {
    let out = parse(&Vec::new());
    assert_eq!(out.skipped, 0);
    assert!(out.rules.is_empty());
}

#[test]
fn rule_is_written_as_it_was_read() {
    for line in [
        "||ads.badsite.com^",
        "@@||ads.badsite.com/banner.js^",
        "|https://*.example/*/ads/",
        "ads",
        "a*b*c^",
        "/track/$script,image,third-party,strip,domain=a.com|c.org|~b.com",
        "x$stylesheet,xhr,frame,other",
        "x$domain=~b.com",
        "@@!x",
    ] {
        assert_eq!(rule(line).to_line(), line);
    }
}

#[test]
fn written_rule_is_normalised() {
    assert_eq!(rule("  ||ADS.example^  ").to_line(), "||ads.example^");
    assert_eq!(rule("||*ads*").to_line(), "ads");
    assert_eq!(rule("x$image,script").to_line(), "x$script,image");
    assert_eq!(rule("x$domain=~b.com|a.com").to_line(), "x$domain=a.com|~b.com");
    assert_eq!(rule("*!x").to_line(), "*!x");
    assert_eq!(rule("*@@x").to_line(), "*@@x");
    assert_eq!(rule("*@x").to_line(), "@x");
}

#[test]
fn written_rule_reads_back_the_same() {
    for line in [
        "||ads.badsite.com^",
        "@@|http://x/*y^$domain=a.com|~b.a.com,third-party",
        "*!x*y$strip",
        "*@@x",
        "@@@@x",
        "a*b$script,other,domain=~z",
        "  Mixed*CASE$IMAGE ",
    ] {
        let first = rule(line).to_line();
        let second = rule(&first).to_line();
        assert_eq!(first, second);
    }
}
