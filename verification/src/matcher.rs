//! Matching: whether one rule applies to one request.

use vstd::prelude::*;
use crate::request::{Request, RequestView};
use crate::rule::{FilterRule, RuleView};
use crate::sanitizer::{is_tracking_key, tracking_key};
use crate::text::{copy_range, ends_with, find, index_of, matches_at, occurs_at, views};

verus! {

/// A character that a name is made of. Any other character separates.
pub open spec fn is_word_char(c: char) -> bool {
    ('a' <= c && c <= 'z') || ('A' <= c && c <= 'Z') || ('0' <= c && c <= '9') || c == '_' || c
        == '-' || c == '.' || c == '%'
}

/// The address ends at `at`, or a separator stands there.
pub open spec fn boundary_at(url: Seq<char>, at: int) -> bool {
    at == url.len() || (0 <= at < url.len() && !is_word_char(url[at]))
}

/// A label of the target's host name begins at `p`.
pub open spec fn label_start(req: RequestView, p: int) -> bool {
    req.host_start <= p < req.host_end && (p == req.host_start || req.url[p - 1] == '.')
}

/// Token `k` of the rule may stand at `p`: it occurs there, and where it is
/// the first or the last token, the rule's anchors allow the place.
pub open spec fn fits(rule: RuleView, req: RequestView, k: int, p: int) -> bool {
    &&& occurs_at(req.url, rule.tokens[k], p)
    &&& (k == 0 && rule.host_anchor ==> label_start(req, p))
    &&& (k == 0 && rule.start_anchor ==> p == 0)
    &&& (k == rule.tokens.len() - 1 && rule.end_anchor ==> boundary_at(
        req.url,
        p + rule.tokens[k].len(),
    ))
}

/// The tokens from `k` on can be placed in order, without overlap, at or
/// after `from`.
pub open spec fn placed(rule: RuleView, req: RequestView, k: int, from: int) -> bool
    decreases rule.tokens.len() - k,
{
    if k < 0 || k >= rule.tokens.len() {
        true
    } else {
        exists|p: int|
            from <= p && #[trigger] fits(rule, req, k, p) && placed(
                rule,
                req,
                k + 1,
                p + rule.tokens[k].len(),
            )
    }
}

/// The rule's pattern matches the target address.
pub open spec fn pattern_matches(rule: RuleView, req: RequestView) -> bool {
    placed(rule, req, 0, 0)
}

/// `host` is `domain` or one of its subdomains.
pub open spec fn within_domain(host: Seq<char>, domain: Seq<char>) -> bool {
    host == domain || (host.len() > domain.len() && ends_with(host, domain) && host[host.len()
        - domain.len() - 1] == '.')
}

pub open spec fn within_any(host: Seq<char>, domains: Seq<Seq<char>>) -> bool {
    exists|i: int| 0 <= i < domains.len() && within_domain(host, #[trigger] domains[i])
}

/// The page that asks is one that the rule is for.
pub open spec fn source_admitted(rule: RuleView, req: RequestView) -> bool {
    &&& !within_any(req.source_host, rule.excluded)
    &&& (rule.included.len() == 0 || within_any(req.source_host, rule.included))
}

/// The rule applies to the request: its resource type, the page that asks,
/// the party and the pattern all agree.
pub open spec fn applies(rule: RuleView, req: RequestView) -> bool {
    &&& rule.types.admits(req.resource_type)
    &&& source_admitted(rule, req)
    &&& (rule.third_party_only ==> req.third_party)
    &&& pattern_matches(rule, req)
}

/// The token is the name of a tracking parameter as it stands in a query:
/// the name and its `=`, with or without the `?` or `&` before it.
pub open spec fn names_parameter(token: Seq<char>) -> bool {
    let name = if token.len() > 0 && (token[0] == '?' || token[0] == '&') {
        token.skip(1)
    } else {
        token
    };
    name.len() > 0 && index_of(name, '=') == name.len() - 1 && is_tracking_key(name.drop_last())
}

/// A rule that strips: its author marked it so, or one of its tokens names
/// a tracking parameter. Where such a rule applies the request is let
/// through once its tracking parameters are removed.
pub open spec fn is_stripping(rule: RuleView) -> bool {
    rule.strip || exists|k: int| 0 <= k < rule.tokens.len() && names_parameter(#[trigger] rule.tokens[k])
}

/// Tokens that can be placed from a later position can be placed from an
/// earlier one.
pub proof fn lemma_placed_earlier(rule: RuleView, req: RequestView, k: int, from: int, later: int)
    requires
        from <= later,
        placed(rule, req, k, later),
    ensures
        placed(rule, req, k, from),
{
    if 0 <= k < rule.tokens.len() {
        let p = choose|p: int|
            later <= p && #[trigger] fits(rule, req, k, p) && placed(
                rule,
                req,
                k + 1,
                p + rule.tokens[k].len(),
            );
        assert(from <= p && fits(rule, req, k, p));
    }
}

/// Whoever places the tokens from `k` on places each of them somewhere it fits.
pub proof fn lemma_placed_token_fits(rule: RuleView, req: RequestView, k: int, from: int, j: int)
    requires
        0 <= k <= j < rule.tokens.len(),
        placed(rule, req, k, from),
    ensures
        exists|p: int| from <= p && #[trigger] fits(rule, req, j, p),
    decreases j - k,
{
    let p = choose|p: int|
        from <= p && #[trigger] fits(rule, req, k, p) && placed(
            rule,
            req,
            k + 1,
            p + rule.tokens[k].len(),
        );
    if k < j {
        lemma_placed_token_fits(rule, req, k + 1, p + rule.tokens[k].len(), j);
        let q = choose|q: int| p + rule.tokens[k].len() <= q && #[trigger] fits(rule, req, j, q);
        assert(from <= q && fits(rule, req, j, q));
    } else {
        assert(from <= p && fits(rule, req, j, p));
    }
}

/// A rule that names one domain, and excludes none, applies to the requests
/// of that domain's pages and of its subdomains' pages just as the rule
/// without the domain would, and to the requests of no other page.
pub proof fn lemma_one_domain(rule: RuleView, domain: Seq<char>, req: RequestView)
    requires
        rule.included == seq![domain],
        rule.excluded.len() == 0,
    ensures
        applies(rule, req) ==> within_domain(req.source_host, domain),
        within_domain(req.source_host, domain) ==> (applies(rule, req) <==> applies(
            RuleView { included: Seq::empty(), ..rule },
            req,
        )),
{
    let free = RuleView { included: Seq::empty(), ..rule };
    assert(within_any(req.source_host, rule.included) <==> within_domain(req.source_host, domain))
        by {
        if within_domain(req.source_host, domain) {
            assert(within_domain(req.source_host, rule.included[0]));
        }
    }
    assert(pattern_matches(rule, req) <==> pattern_matches(free, req)) by {
        lemma_placed_same(rule, free, req, 0, 0);
    }
}

/// Whether a pattern can be placed depends on the pattern alone.
pub proof fn lemma_placed_same(a: RuleView, b: RuleView, req: RequestView, k: int, from: int)
    requires
        a.tokens == b.tokens,
        a.host_anchor == b.host_anchor,
        a.start_anchor == b.start_anchor,
        a.end_anchor == b.end_anchor,
    ensures
        placed(a, req, k, from) == placed(b, req, k, from),
    decreases a.tokens.len() - k,
{
    if 0 <= k < a.tokens.len() {
        assert forall|p: int| #![trigger fits(a, req, k, p)]
            placed(a, req, k + 1, p + a.tokens[k].len()) == placed(
                b,
                req,
                k + 1,
                p + b.tokens[k].len(),
            ) && fits(a, req, k, p) == fits(b, req, k, p) by {
            lemma_placed_same(a, b, req, k + 1, p + a.tokens[k].len());
        }
        if placed(a, req, k, from) {
            let p = choose|p: int|
                from <= p && #[trigger] fits(a, req, k, p) && placed(
                    a,
                    req,
                    k + 1,
                    p + a.tokens[k].len(),
                );
            assert(from <= p && fits(b, req, k, p));
        }
        if placed(b, req, k, from) {
            let p = choose|p: int|
                from <= p && #[trigger] fits(b, req, k, p) && placed(
                    b,
                    req,
                    k + 1,
                    p + b.tokens[k].len(),
                );
            assert(fits(a, req, k, p) == fits(b, req, k, p));
            assert(from <= p && fits(a, req, k, p));
        }
    }
}

fn is_word(c: char) -> (r: bool)
    ensures
        r == is_word_char(c),
{
    ('a' <= c && c <= 'z') || ('A' <= c && c <= 'Z') || ('0' <= c && c <= '9') || c == '_' || c
        == '-' || c == '.' || c == '%'
}

/// Whether token `k` of the rule fits at `p`.
fn fits_at(rule: &FilterRule, req: &Request, k: usize, p: usize) -> (r: bool)
    requires
        k < rule@.tokens.len(),
    ensures
        r == fits(rule@, req@, k as int, p as int),
{
    let url = req.url();
    let token = rule.token(k);
    if !matches_at(url, token, p) {
        return false;
    }
    let len = url.len();
    assert(p + token@.len() <= len);
    if k == 0 && rule.host_anchor() {
        if !(req.host_start() <= p && p < req.host_end() && (p == req.host_start() || url[p - 1]
            == '.')) {
            return false;
        }
    }
    if k == 0 && rule.start_anchor() && p != 0 {
        return false;
    }
    if k == rule.token_count() - 1 && rule.end_anchor() {
        let end = p + token.len();
        if !(end == len || !is_word(url[end])) {
            return false;
        }
    }
    true
}

/// The first place at or after `from` where token `k` fits.
fn first_fit(rule: &FilterRule, req: &Request, k: usize, from: usize) -> (at: Option<usize>)
    requires
        k < rule@.tokens.len(),
    ensures
        match at {
            Some(p) => from <= p && fits(rule@, req@, k as int, p as int) && forall|q: int|
                from <= q < p ==> !fits(rule@, req@, k as int, q),
            None => forall|q: int| from <= q ==> !fits(rule@, req@, k as int, q),
        },
{
    let url = req.url();
    let token = rule.token(k);
    if token.len() > url.len() || from > url.len() - token.len() {
        return None;
    }
    let last = url.len() - token.len();
    let mut p: usize = from;
    while p <= last
        invariant
            from <= p <= last + 1,
            last == url@.len() - token@.len(),
            last < usize::MAX,
            url@ == req@.url,
            token@ == rule@.tokens[k as int],
            token@.len() > 0,
            k < rule@.tokens.len(),
            forall|q: int| from <= q < p ==> !fits(rule@, req@, k as int, q),
        decreases last + 1 - p,
    {
        if fits_at(rule, req, k, p) {
            return Some(p);
        }
        p += 1;
    }
    None
}

/// Whether the rule's pattern matches the request's target address.
pub fn pattern_found(rule: &FilterRule, req: &Request) -> (found: bool)
    ensures
        found == pattern_matches(rule@, req@),
{
    let n = rule.token_count();
    let mut k: usize = 0;
    let mut from: usize = 0;
    while k < n
        invariant
            k <= n,
            n == rule@.tokens.len(),
            from <= req@.url.len(),
            pattern_matches(rule@, req@) == placed(rule@, req@, k as int, from as int),
        decreases n - k,
    {
        let url = req.url();
        match first_fit(rule, req, k, from) {
            Some(p) => {
                let len = url.len();
                assert(occurs_at(req@.url, rule@.tokens[k as int], p as int));
                let next = p + rule.token(k).len();
                proof {
                    if placed(rule@, req@, k as int, from as int) {
                        let q = choose|q: int|
                            from <= q && #[trigger] fits(rule@, req@, k as int, q) && placed(
                                rule@,
                                req@,
                                k + 1,
                                q + rule@.tokens[k as int].len(),
                            );
                        lemma_placed_earlier(
                            rule@,
                            req@,
                            k + 1,
                            next as int,
                            q + rule@.tokens[k as int].len(),
                        );
                    }
                }
                from = next;
                k += 1;
            },
            None => {
                return false;
            },
        }
    }
    true
}

fn token_names_parameter(token: &Vec<char>) -> (r: bool)
    ensures
        r == names_parameter(token@),
{
    let from: usize = if token.len() > 0 && (token[0] == '?' || token[0] == '&') {
        1
    } else {
        0
    };
    let name = copy_range(token, from, token.len());
    assert(name@ =~= token@.skip(from as int));
    assert(token@.skip(0) =~= token@);
    if name.len() == 0 {
        return false;
    }
    assert(name@.skip(0) =~= name@);
    if find(&name, 0, '=') != name.len() - 1 {
        return false;
    }
    let key = copy_range(&name, 0, name.len() - 1);
    assert(key@ =~= name@.drop_last());
    tracking_key(&key)
}

/// Whether the rule strips.
pub fn rule_strips(rule: &FilterRule) -> (r: bool)
    ensures
        r == is_stripping(rule@),
{
    if rule.strip() {
        return true;
    }
    let n = rule.token_count();
    let mut k: usize = 0;
    while k < n
        invariant
            k <= n,
            n == rule@.tokens.len(),
            forall|j: int| 0 <= j < k ==> !names_parameter(#[trigger] rule@.tokens[j]),
        decreases n - k,
    {
        if token_names_parameter(rule.token(k)) {
            return true;
        }
        k += 1;
    }
    false
}

/// Whether `host` is `domain` or one of its subdomains.
pub fn host_within(host: &Vec<char>, domain: &Vec<char>) -> (r: bool)
    ensures
        r == within_domain(host@, domain@),
{
    if host.len() < domain.len() {
        return false;
    }
    let at = host.len() - domain.len();
    assert(host@.subrange(0, host@.len() as int) =~= host@);
    if !matches_at(host, domain, at) {
        return false;
    }
    if at == 0 {
        return true;
    }
    host[at - 1] == '.'
}

fn host_within_any(host: &Vec<char>, domains: &Vec<Vec<char>>) -> (r: bool)
    ensures
        r == within_any(host@, views(domains@)),
{
    let mut i: usize = 0;
    while i < domains.len()
        invariant
            i <= domains.len(),
            forall|j: int| 0 <= j < i ==> !within_domain(host@, #[trigger] views(domains@)[j]),
        decreases domains.len() - i,
    {
        if host_within(host, &domains[i]) {
            assert(within_domain(host@, views(domains@)[i as int]));
            return true;
        }
        i += 1;
    }
    false
}

/// Whether the rule applies to the request. The cheap tests come first.
pub fn rule_applies(rule: &FilterRule, req: &Request) -> (r: bool)
    ensures
        r == applies(rule@, req@),
{
    let types = rule.resource_types();
    if !types.is_empty() && !types.contains(req.resource_type()) {
        return false;
    }
    if host_within_any(req.source_host(), rule.excluded()) {
        return false;
    }
    if rule.included().len() > 0 && !host_within_any(req.source_host(), rule.included()) {
        return false;
    }
    if rule.third_party_only() && !req.third_party() {
        return false;
    }
    pattern_found(rule, req)
}

} // verus!
