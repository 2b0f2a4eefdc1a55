use wave_core::index::CompiledIndex;
use wave_core::parser::parse;
use wave_core::request::Request;
use wave_core::shield::{Decision, ResourceType};

fn index(list: &[&str]) -> CompiledIndex {
    let lines: Vec<String> = list.iter().map(|s| s.to_string()).collect();
    let out = parse(&lines);
    assert_eq!(out.skipped, 0);
    CompiledIndex::compile(out.rules)
}

fn request(url: &str) -> Request {
    Request::new(url, "https://mysite.com/", ResourceType::Script).unwrap()
}

#[test]
fn rules_keep_their_order() {
    let ix = index(&["||ads.badsite.com^", "banner", "@@ab", "||ads.other.example^"]);
    assert_eq!(ix.len(), 4);
    assert_eq!(ix.rule(0).to_line(), "||ads.badsite.com^");
    assert_eq!(ix.rule(1).to_line(), "banner");
    assert_eq!(ix.rule(2).to_line(), "@@ab");
    assert_eq!(ix.rule(3).to_line(), "||ads.other.example^");
}

#[test]
fn rules_with_one_key_share_a_bucket_in_order() {
    let ix = index(&["||ads.badsite.com^", "banner", "@@ab", "||ads.other.example^", "ban"]);
    let anchored = ix.key_at(0).unwrap();
    assert_eq!(ix.key_at(3), Some(anchored));
    assert_eq!(ix.bucket_members(anchored), vec![0, 3]);
    let plain = ix.key_at(1).unwrap();
    assert_eq!(ix.key_at(4), Some(plain));
    assert_ne!(plain, anchored);
    assert_eq!(ix.bucket_members(plain), vec![1, 4]);
    assert_eq!(ix.key_at(2), None);
    assert_eq!(ix.keyless_members(), vec![2]);
}

#[test]
fn key_value_is_made_of_three_characters() {
    let ix = index(&["abc", "||abc", "a*bcd", "||ab*cde"]);
    let c = |ch: char| ch as u64;
    let plain = ((c('a') * 0x20_0000 + c('b')) * 0x20_0000 + c('c')) * 2;
    assert_eq!(ix.key_at(0), Some(plain));
    assert_eq!(ix.key_at(1), Some(plain + 1));
    let bcd = ((c('b') * 0x20_0000 + c('c')) * 0x20_0000 + c('d')) * 2;
    assert_eq!(ix.key_at(2), Some(bcd));
    let cde = ((c('c') * 0x20_0000 + c('d')) * 0x20_0000 + c('e')) * 2;
    assert_eq!(ix.key_at(3), Some(cde));
    assert_eq!(ix.bucket_members(plain), vec![0]);
    assert_eq!(ix.bucket_members(plain + 1), vec![1]);
    assert_eq!(ix.bucket_members(12345), Vec::<usize>::new());
    assert_eq!(ix.keyless_members(), Vec::<usize>::new());
}

#[test]
fn empty_index_allows() {
    let ix = index(&[]);
    assert_eq!(ix.len(), 0);
    let out = ix.decide(&request("https://ads.badsite.com/banner.js"));
    assert_eq!(out.decision, Decision::Allow);
    assert_eq!(out.rule, None);
}

#[test]
fn short_tokens_are_found_through_the_keyless_rules() {
    let ix = index(&["/a", "||b.", "zz*yy"]);
    assert_eq!(ix.keyless_members(), vec![0, 1, 2]);
    assert_eq!(ix.decide(&request("https://x.example/a")).rule, Some(0));
    assert_eq!(ix.decide(&request("https://b.example/")).rule, Some(1));
    assert_eq!(ix.decide(&request("https://x.example/zz/yy")).rule, Some(2));
    assert_eq!(ix.decide(&request("https://x.example/yy/zz")).decision, Decision::Allow);
}

#[test]
fn index_decides_as_the_whole_list_would() {
    let list = [
        "||ads.badsite.com^",
        "banner",
        "@@/allowed/",
        "/x",
        "||cdn.example^$image",
        "utm_source=",
        "@@||good.example^$domain=mysite.com",
        "track*pixel^",
    ];
    let ix = index(&list);
    let lines: Vec<String> = list.iter().map(|s| s.to_string()).collect();
    let rules = parse(&lines).rules;
    for url in [
        "https://ads.badsite.com/banner.js",
        "https://ads.badsite.com/allowed/banner.js",
        "https://site.example/x",
        "https://cdn.example/i.png",
        "https://site.example/?utm_source=a",
        "https://good.example/banner",
        "https://site.example/track/1/pixel",
        "https://site.example/track/1/pixels",
        "https://site.example/",
        "https://ab/",
    ] {
        let req = request(url);
        let mut excepted = false;
        let mut block = None;
        let mut strip = None;
        for (i, r) in rules.iter().enumerate() {
            if wave_core::matcher::rule_applies(r, &req) {
                if r.is_exception() {
                    excepted = true;
                } else if wave_core::matcher::rule_strips(r) {
                    strip = strip.or(Some(i));
                } else {
                    block = block.or(Some(i));
                }
            }
        }
        let expected = if excepted {
            (Decision::Allow, None)
        } else if block.is_some() {
            (Decision::Block, block)
        } else if strip.is_some() {
            (Decision::Sanitize, strip)
        } else {
            (Decision::Allow, None)
        };
        let out = ix.decide(&req);
        assert_eq!((out.decision, out.rule), expected, "{}", url);
    }
}
