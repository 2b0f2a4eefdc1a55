//! The compiled index: the rules of a list, each filed under a short key, its
//! discriminator, so that a request is held against few of them, and the
//! decision taken over it.

use std::collections::HashMap;
use vstd::prelude::*;
use crate::matcher::{
    applies, fits, is_stripping, label_start, lemma_placed_token_fits, rule_applies, rule_strips,
};
use crate::request::{Request, RequestView};
use crate::rule::{rule_views, FilterRule, RuleView};
use crate::shield::Decision;

verus! {

/// The length of a key's text.
pub open spec fn key_len() -> int {
    3
}

/// The key made of the three characters of `text` from `at` on; a key for
/// an anchored token differs from the key of the same characters elsewhere.
pub open spec fn gram_key(text: Seq<char>, at: int, anchored: bool) -> u64 {
    (((text[at] as u32 * 0x20_0000 + text[at + 1] as u32) * 0x20_0000 + text[at + 2] as u32) * 2
        + if anchored {
        1int
    } else {
        0int
    }) as u64
}

/// The first token from `from` on that is long enough to give a key, or the
/// number of tokens where none is.
pub open spec fn first_long(tokens: Seq<Seq<char>>, from: int) -> int
    decreases tokens.len() - from,
{
    if from < 0 || from >= tokens.len() {
        tokens.len() as int
    } else if tokens[from].len() >= key_len() {
        from
    } else {
        first_long(tokens, from + 1)
    }
}

/// The key that a rule is filed under: that of its first token where the rule
/// is host-anchored and the token long enough, else that of its first token
/// that is long enough; none where all its tokens are short.
pub open spec fn rule_key(rule: RuleView) -> Option<u64> {
    if rule.host_anchor && rule.tokens.len() > 0 && rule.tokens[0].len() >= key_len() {
        Some(gram_key(rule.tokens[0], 0, true))
    } else {
        let j = first_long(rule.tokens, 0);
        if j < rule.tokens.len() {
            Some(gram_key(rule.tokens[j], 0, false))
        } else {
            None
        }
    }
}

/// A key that the request gives: that of three characters of its address,
/// anchored where they begin a label of the host.
pub open spec fn request_key(req: RequestView, p: int, anchored: bool) -> u64 {
    gram_key(req.url, p, anchored)
}

pub open spec fn gives_key(req: RequestView, key: u64) -> bool {
    exists|p: int, anchored: bool|
        0 <= p && p + key_len() <= req.url.len() && (anchored ==> label_start(req, p))
            && #[trigger] request_key(req, p, anchored) == key
}

/// Rule `i` applies to the request.
pub open spec fn hit(rules: Seq<RuleView>, req: RequestView, i: int) -> bool {
    0 <= i < rules.len() && applies(rules[i], req)
}

pub open spec fn excepts(rules: Seq<RuleView>, req: RequestView, i: int) -> bool {
    hit(rules, req, i) && rules[i].is_exception
}

pub open spec fn blocks(rules: Seq<RuleView>, req: RequestView, i: int) -> bool {
    hit(rules, req, i) && !rules[i].is_exception && !is_stripping(rules[i])
}

pub open spec fn strips(rules: Seq<RuleView>, req: RequestView, i: int) -> bool {
    hit(rules, req, i) && !rules[i].is_exception && is_stripping(rules[i])
}

/// The decision over the rules of a list: an exception that applies allows
/// the request, whatever else applies; else a blocking rule that applies
/// blocks it; else a stripping rule that applies has it sanitised; else it
/// is allowed.
pub open spec fn decision_for(rules: Seq<RuleView>, req: RequestView) -> Decision {
    if exists|i: int| excepts(rules, req, i) {
        Decision::Allow
    } else if exists|i: int| blocks(rules, req, i) {
        Decision::Block
    } else if exists|i: int| strips(rules, req, i) {
        Decision::Sanitize
    } else {
        Decision::Allow
    }
}

/// The first rule, in the order of the list, that makes the decision what it
/// is: the first blocking rule that applies where the request is blocked,
/// the first stripping rule that applies where it is sanitised, none where
/// it is allowed.
pub open spec fn deciding_rule(rules: Seq<RuleView>, req: RequestView, rule: Option<usize>) -> bool {
    match decision_for(rules, req) {
        Decision::Allow => rule is None,
        Decision::Block => rule is Some && blocks(rules, req, rule->0 as int) && forall|i: int|
            blocks(rules, req, i) ==> rule->0 <= i,
        Decision::Sanitize => rule is Some && strips(rules, req, rule->0 as int) && forall|i: int|
            strips(rules, req, i) ==> rule->0 <= i,
    }
}

/// The decision and the rule that is reported with it depend on the rules
/// and the request alone: two reports for the same rules and request are
/// the same.
pub proof fn lemma_one_outcome(
    rules: Seq<RuleView>,
    req: RequestView,
    first: Option<usize>,
    second: Option<usize>,
)
    requires
        deciding_rule(rules, req, first),
        deciding_rule(rules, req, second),
    ensures
        first == second,
{
    match decision_for(rules, req) {
        Decision::Allow => {},
        Decision::Block => {
            assert(first->0 <= second->0 && second->0 <= first->0);
        },
        Decision::Sanitize => {
            assert(first->0 <= second->0 && second->0 <= first->0);
        },
    }
}

/// An exception that applies allows the request, whatever other rules apply
/// and wherever in the list they stand.
pub proof fn lemma_exception_allows(rules: Seq<RuleView>, req: RequestView, i: int)
    requires
        excepts(rules, req, i),
    ensures
        decision_for(rules, req) == Decision::Allow,
{
}

/// A rule that does not apply to a request is inert: the decision is the
/// same with it as without it.
pub proof fn lemma_inert_rule(rules: Seq<RuleView>, extra: RuleView, req: RequestView)
    requires
        !applies(extra, req),
    ensures
        decision_for(rules.push(extra), req) == decision_for(rules, req),
{
    let more = rules.push(extra);
    assert forall|i: int|
        (excepts(more, req, i) <==> excepts(rules, req, i)) && (blocks(more, req, i) <==> blocks(
            rules,
            req,
            i,
        )) && (strips(more, req, i) <==> strips(rules, req, i)) by {
        if 0 <= i < rules.len() {
            assert(more[i] == rules[i]);
        }
    }
    if exists|i: int| excepts(rules, req, i) {
        let i = choose|i: int| excepts(rules, req, i);
        assert(excepts(more, req, i));
    } else if exists|i: int| blocks(rules, req, i) {
        let i = choose|i: int| blocks(rules, req, i);
        assert(blocks(more, req, i));
    } else if exists|i: int| strips(rules, req, i) {
        let i = choose|i: int| strips(rules, req, i);
        assert(strips(more, req, i));
    }
}

/// Where no rule applies the request is allowed. A list without rules is
/// the case in point.
pub proof fn lemma_nothing_applies(rules: Seq<RuleView>, req: RequestView)
    requires
        forall|i: int| 0 <= i < rules.len() ==> !applies(#[trigger] rules[i], req),
    ensures
        decision_for(rules, req) == Decision::Allow,
        deciding_rule(rules, req, None),
{
}

/// A rule that applies to a request is filed under a key that the request
/// gives.
pub proof fn lemma_key_given(rule: RuleView, req: RequestView)
    requires
        applies(rule, req),
        rule_key(rule) is Some,
    ensures
        gives_key(req, rule_key(rule)->0),
{
    let anchored = rule.host_anchor && rule.tokens.len() > 0 && rule.tokens[0].len() >= key_len();
    let j = if anchored {
        0
    } else {
        first_long(rule.tokens, 0)
    };
    lemma_first_long(rule.tokens, 0);
    lemma_placed_token_fits(rule, req, 0, 0, j);
    let p = choose|p: int| 0 <= p && #[trigger] fits(rule, req, j, p);
    let token = rule.tokens[j];
    assert(req.url.subrange(p, p + token.len()) == token);
    assert(token[0] == req.url.subrange(p, p + token.len())[0]);
    assert(token[1] == req.url.subrange(p, p + token.len())[1]);
    assert(token[2] == req.url.subrange(p, p + token.len())[2]);
    assert(request_key(req, p, anchored) == rule_key(rule)->0);
}

pub proof fn lemma_first_long(tokens: Seq<Seq<char>>, from: int)
    requires
        0 <= from,
    ensures
        from <= first_long(tokens, from) || first_long(tokens, from) == tokens.len(),
        first_long(tokens, from) <= tokens.len(),
        first_long(tokens, from) < tokens.len() ==> tokens[first_long(tokens, from)].len()
            >= key_len(),
        forall|k: int| from <= k < first_long(tokens, from) ==> tokens[k].len() < key_len(),
    decreases tokens.len() - from,
{
    if from < tokens.len() && tokens[from].len() < key_len() {
        lemma_first_long(tokens, from + 1);
    }
}

/// The places of the rules filed under `key`, in the order of the list;
/// under no key stand the rules that have none.
pub open spec fn filed_under(rules: Seq<RuleView>, key: Option<u64>) -> Seq<usize>
    decreases rules.len(),
{
    if rules.len() == 0 {
        Seq::empty()
    } else if rule_key(rules.last()) == key {
        filed_under(rules.drop_last(), key).push((rules.len() - 1) as usize)
    } else {
        filed_under(rules.drop_last(), key)
    }
}

/// The first `n` rules are filed: the bucket of each key holds the places of
/// the rules under that key and no key shares a bucket; the rules without a
/// key stand apart.
spec fn well_filed(
    rules: Seq<RuleView>,
    n: int,
    slots: Map<u64, usize>,
    buckets: Seq<Vec<usize>>,
    fallback: Seq<usize>,
) -> bool {
    &&& 0 <= n <= rules.len()
    &&& forall|b: int, j: int|
        0 <= b < buckets.len() && 0 <= j < buckets[b]@.len() ==> #[trigger] buckets[b]@[j] < n
    &&& fallback == filed_under(rules.take(n), None)
    &&& forall|k: u64| #[trigger]
        slots.contains_key(k) ==> slots[k] < buckets.len() && buckets[slots[k] as int]@
            == filed_under(rules.take(n), Some(k))
    &&& forall|k: u64|
        !slots.contains_key(k) ==> (#[trigger] filed_under(rules.take(n), Some(k))).len() == 0
    &&& forall|k: u64, h: u64|
        slots.contains_key(k) && slots.contains_key(h) && #[trigger] slots[k] == #[trigger] slots[h]
            ==> k == h
}

/// Every rule stands under its own key, and nothing stands anywhere that is
/// not the place of a rule.
pub proof fn lemma_filed_under(rules: Seq<RuleView>, key: Option<u64>)
    ensures
        forall|j: int|
            0 <= j < filed_under(rules, key).len() ==> (#[trigger] filed_under(rules, key)[j])
                < rules.len(),
        forall|i: int|
            0 <= i < rules.len() && rule_key(rules[i]) == key ==> filed_under(rules, key).contains(
                i as usize,
            ),
    decreases rules.len(),
{
    if rules.len() > 0 {
        let rest = rules.drop_last();
        lemma_filed_under(rest, key);
        let all = filed_under(rules, key);
        assert forall|i: int| 0 <= i < rules.len() && rule_key(rules[i]) == key implies all.contains(
            i as usize,
        ) by {
            if i < rest.len() {
                assert(rest[i] == rules[i]);
                let j = choose|j: int|
                    0 <= j < filed_under(rest, key).len() && filed_under(rest, key)[j]
                        == i as usize;
                assert(all[j] == i as usize);
            } else {
                assert(all[all.len() - 1] == i as usize);
            }
        }
    }
}

/// What was found so far among the rules looked at.
struct Tally {
    excepted: bool,
    block: Option<usize>,
    strip: Option<usize>,
}

/// The tally is that of the rules in `seen`.
spec fn tallied(rules: Seq<RuleView>, req: RequestView, seen: Set<int>, t: Tally) -> bool {
    &&& t.excepted <==> exists|i: int| seen.contains(i) && excepts(rules, req, i)
    &&& match t.block {
        Some(m) => seen.contains(m as int) && blocks(rules, req, m as int) && forall|i: int|
            seen.contains(i) && blocks(rules, req, i) ==> m <= i,
        None => forall|i: int| seen.contains(i) ==> !blocks(rules, req, i),
    }
    &&& match t.strip {
        Some(m) => seen.contains(m as int) && strips(rules, req, m as int) && forall|i: int|
            seen.contains(i) && strips(rules, req, i) ==> m <= i,
        None => forall|i: int| seen.contains(i) ==> !strips(rules, req, i),
    }
}

/// The bucket of `key`, if there is one, has been looked at.
spec fn bucket_seen(slots: Map<u64, usize>, buckets: Seq<Vec<usize>>, seen: Set<int>, key: u64) -> bool {
    slots.contains_key(key) ==> forall|j: int|
        0 <= j < buckets[slots[key] as int]@.len() ==> seen.contains(
            #[trigger] buckets[slots[key] as int]@[j] as int,
        )
}

/// What the index decides of a request.
#[derive(Debug, Clone, Copy, PartialEq, Eq, Structural)]
pub struct Outcome {
    pub decision: Decision,
    /// The first rule of the list that blocks the request, or, where it is
    /// sanitised, the first that strips it.
    pub rule: Option<usize>,
}

/// The rules of a list, compiled for matching.
pub struct CompiledIndex {
    rules: Vec<FilterRule>,
    slots: HashMap<u64, usize>,
    buckets: Vec<Vec<usize>>,
    fallback: Vec<usize>,
}

impl View for CompiledIndex {
    type V = Seq<RuleView>;

    /// The rules, in the order of the list.
    closed spec fn view(&self) -> Seq<RuleView> {
        rule_views(self.rules@)
    }
}

/// Looking at a rule that is no exception leaves what is known of
/// exceptions as it was.
proof fn lemma_tally_kept(
    rules: Seq<RuleView>,
    req: RequestView,
    before: Set<int>,
    cur: Set<int>,
    m: int,
    excepted: bool,
)
    requires
        forall|i: int| cur.contains(i) <==> before.contains(i) || i == m,
        !excepts(rules, req, m),
        excepted <==> exists|i: int| before.contains(i) && excepts(rules, req, i),
    ensures
        excepted <==> exists|i: int| cur.contains(i) && excepts(rules, req, i),
{
    if excepted {
        let w = choose|i: int| before.contains(i) && excepts(rules, req, i);
        assert(cur.contains(w) && excepts(rules, req, w));
    }
    if exists|i: int| cur.contains(i) && excepts(rules, req, i) {
        let w = choose|i: int| cur.contains(i) && excepts(rules, req, i);
        assert(before.contains(w) && excepts(rules, req, w));
    }
}

fn smaller(best: Option<usize>, m: usize) -> (r: Option<usize>)
    ensures
        r == Some(
            if best is Some && best->0 <= m {
                best->0
            } else {
                m
            },
        ),
{
    match best {
        Some(b) => if b <= m {
            Some(b)
        } else {
            Some(m)
        },
        None => Some(m),
    }
}

fn copy_places(places: &Vec<usize>) -> (copy: Vec<usize>)
    ensures
        copy@ == places@,
{
    let mut copy: Vec<usize> = Vec::new();
    let mut i: usize = 0;
    while i < places.len()
        invariant
            i <= places.len(),
            copy@ == places@.take(i as int),
        decreases places.len() - i,
    {
        copy.push(places[i]);
        i += 1;
        assert(places@.take(i as int) =~= places@.take(i - 1).push(places@[i - 1]));
    }
    assert(places@.take(places@.len() as int) =~= places@);
    copy
}

/// The key of the three characters of `text` from `at` on.
fn gram(text: &Vec<char>, at: usize, anchored: bool) -> (key: u64)
    requires
        at + 3 <= text.len(),
    ensures
        key == gram_key(text@, at as int, anchored),
{
    let first: char = text[at];
    let second: char = text[at + 1];
    let third: char = text[at + 2];
    let a: u64 = (first as u32) as u64;
    let b: u64 = (second as u32) as u64;
    let c: u64 = (third as u32) as u64;
    proof {
        vstd::utf8::char_is_scalar(first);
        vstd::utf8::char_is_scalar(second);
        vstd::utf8::char_is_scalar(third);
    }
    let kind: u64 = if anchored {
        1
    } else {
        0
    };
    ((a * 0x20_0000 + b) * 0x20_0000 + c) * 2 + kind
}

/// The key that a rule is filed under.
fn key_of(rule: &FilterRule) -> (key: Option<u64>)
    ensures
        key == rule_key(rule@),
{
    let n = rule.token_count();
    if rule.host_anchor() && rule.token(0).len() >= 3 {
        return Some(gram(rule.token(0), 0, true));
    }
    let mut j: usize = 0;
    while j < n
        invariant
            j <= n,
            n == rule@.tokens.len(),
            !(rule@.host_anchor && rule@.tokens[0].len() >= key_len()),
            first_long(rule@.tokens, 0) == first_long(rule@.tokens, j as int),
        decreases n - j,
    {
        if rule.token(j).len() >= 3 {
            proof {
                lemma_first_long(rule@.tokens, j as int);
            }
            return Some(gram(rule.token(j), 0, false));
        }
        j += 1;
    }
    proof {
        lemma_first_long(rule@.tokens, 0);
    }
    None
}

impl CompiledIndex {
    #[verifier::type_invariant]
    closed spec fn valid(&self) -> bool {
        well_filed(
            rule_views(self.rules@),
            self.rules@.len() as int,
            self.slots@,
            self.buckets@,
            self.fallback@,
        )
    }

    /// The places of the rules in the bucket of `key`.
    pub closed spec fn bucket(&self, key: u64) -> Seq<usize> {
        if self.slots@.contains_key(key) {
            self.buckets@[self.slots@[key] as int]@
        } else {
            Seq::empty()
        }
    }

    /// The places of the rules that have no key.
    pub closed spec fn keyless(&self) -> Seq<usize> {
        self.fallback@
    }

    /// Compiles the rules of a list: each goes to the bucket of its key, or
    /// to the rules without a key, behind those that came before it.
    #[verifier::rlimit(50)]
    pub fn compile(rules: Vec<FilterRule>) -> (index: CompiledIndex)
        ensures
            index@ == rule_views(rules@),
            index.keyless() == filed_under(index@, None),
            forall|key: u64| #[trigger] index.bucket(key) == filed_under(index@, Some(key)),
    {
        broadcast use vstd::std_specs::hash::group_hash_axioms;

        let mut slots: HashMap<u64, usize> = HashMap::new();
        let mut buckets: Vec<Vec<usize>> = Vec::new();
        let mut fallback: Vec<usize> = Vec::new();
        let ghost views = rule_views(rules@);
        let mut i: usize = 0;
        assert(fallback@ =~= filed_under(views.take(0), None));
        while i < rules.len()
            invariant
                i <= rules.len(),
                views == rule_views(rules@),
                well_filed(views, i as int, slots@, buckets@, fallback@),
            decreases rules.len() - i,
        {
            let ghost old_slots = slots@;
            let ghost old_buckets = buckets@;
            let ghost done = views.take(i as int);
            let ghost next = views.take(i + 1);
            proof {
                assert(next.drop_last() =~= done);
                assert(next.last() == views[i as int]);
                assert forall|key: Option<u64>| #[trigger]
                    filed_under(next, key) == if rule_key(views[i as int]) == key {
                        filed_under(done, key).push(i)
                    } else {
                        filed_under(done, key)
                    } by {}
            }
            match key_of(&rules[i]) {
                None => {
                    fallback.push(i);
                    assert forall|k: u64| #[trigger] slots@.contains_key(k) implies slots@[k]
                        < buckets@.len() && buckets@[slots@[k] as int]@ == filed_under(
                        next,
                        Some(k),
                    ) by {
                        assert(filed_under(next, Some(k)) == filed_under(done, Some(k)));
                    }
                    assert forall|k: u64| !slots@.contains_key(k) implies (#[trigger] filed_under(
                        next,
                        Some(k),
                    )).len() == 0 by {
                        assert(filed_under(next, Some(k)) == filed_under(done, Some(k)));
                    }
                },
                Some(key) => {
                    let slot = match slots.get(&key) {
                        Some(b) => Some(*b),
                        None => None,
                    };
                    assert(filed_under(next, None) == filed_under(done, None));
                    match slot {
                        Some(b) => {
                            buckets[b].push(i);
                            assert forall|k: u64| #[trigger] slots@.contains_key(k) implies slots@[k]
                                < buckets@.len() && buckets@[slots@[k] as int]@ == filed_under(
                                next,
                                Some(k),
                            ) by {
                                if k == key {
                                    assert(filed_under(next, Some(k)) == filed_under(
                                        done,
                                        Some(k),
                                    ).push(i));
                                } else {
                                    assert(filed_under(next, Some(k)) == filed_under(done, Some(k)));
                                    assert(old_slots[k] != old_slots[key]);
                                    assert(buckets@[slots@[k] as int] == old_buckets[slots@[k] as int]);
                                }
                            }
                            assert forall|k: u64| !slots@.contains_key(k) implies (#[trigger] filed_under(
                                next,
                                Some(k),
                            )).len() == 0 by {
                                assert(filed_under(next, Some(k)) == filed_under(done, Some(k)));
                            }
                            assert forall|c: int, j: int|
                                0 <= c < buckets@.len() && 0 <= j < buckets@[c]@.len() implies #[trigger] buckets@[c]@[j]
                                < i + 1 by {
                                if c == b && j == buckets@[c]@.len() - 1 {
                                } else {
                                    assert(buckets@[c]@[j] == old_buckets[c]@[j]);
                                }
                            }
                        },
                        None => {
                            slots.insert(key, buckets.len());
                            let mut fresh: Vec<usize> = Vec::new();
                            fresh.push(i);
                            buckets.push(fresh);
                            assert forall|k: u64| #[trigger] slots@.contains_key(k) implies slots@[k]
                                < buckets@.len() && buckets@[slots@[k] as int]@ == filed_under(
                                next,
                                Some(k),
                            ) by {
                                if k == key {
                                    assert(filed_under(done, Some(k)).len() == 0);
                                    assert(filed_under(next, Some(k)) =~= seq![i]);
                                    assert(buckets@[slots@[k] as int]@ =~= seq![i]);
                                } else {
                                    assert(old_slots.contains_key(k));
                                    assert(filed_under(next, Some(k)) == filed_under(done, Some(k)));
                                    assert(buckets@[slots@[k] as int] == old_buckets[slots@[k] as int]);
                                }
                            }
                            assert forall|k: u64| !slots@.contains_key(k) implies (#[trigger] filed_under(
                                next,
                                Some(k),
                            )).len() == 0 by {
                                assert(!old_slots.contains_key(k));
                                assert(filed_under(next, Some(k)) == filed_under(done, Some(k)));
                            }
                            assert forall|k: u64, h: u64|
                                slots@.contains_key(k) && slots@.contains_key(h) && #[trigger] slots@[k]
                                    == #[trigger] slots@[h] implies k == h by {
                                if k != key && h != key {
                                    assert(old_slots.contains_key(k) && old_slots.contains_key(h));
                                    assert(old_slots[k] == old_slots[h]);
                                } else if k != key {
                                    assert(old_slots.contains_key(k));
                                } else if h != key {
                                    assert(old_slots.contains_key(h));
                                }
                            }
                            assert forall|c: int, j: int|
                                0 <= c < buckets@.len() && 0 <= j < buckets@[c]@.len() implies #[trigger] buckets@[c]@[j]
                                < i + 1 by {
                                if c < old_buckets.len() {
                                    assert(buckets@[c]@[j] == old_buckets[c]@[j]);
                                }
                            }
                        },
                    }
                },
            }
            i += 1;
        }
        assert(views.take(rules@.len() as int) =~= views);
        CompiledIndex { rules, slots, buckets, fallback }
    }

    /// The key that rule `i` is filed under, if it has one.
    pub fn key_at(&self, i: usize) -> (key: Option<u64>)
        requires
            i < self@.len(),
        ensures
            key == rule_key(self@[i as int]),
    {
        key_of(&self.rules[i])
    }

    /// The places of the rules in the bucket of `key`, in the order of the
    /// list.
    pub fn bucket_members(&self, key: u64) -> (members: Vec<usize>)
        ensures
            members@ == self.bucket(key),
            members@ == filed_under(self@, Some(key)),
    {
        broadcast use vstd::std_specs::hash::group_hash_axioms;

        proof {
            use_type_invariant(self);
            assert(self@.take(self.rules@.len() as int) =~= self@);
        }
        let slot = match self.slots.get(&key) {
            Some(b) => Some(*b),
            None => None,
        };
        match slot {
            Some(b) => copy_places(&self.buckets[b]),
            None => {
                let none: Vec<usize> = Vec::new();
                assert(none@ =~= filed_under(self@, Some(key)));
                none
            },
        }
    }

    /// The places of the rules that have no key, in the order of the list.
    pub fn keyless_members(&self) -> (members: Vec<usize>)
        ensures
            members@ == self.keyless(),
            members@ == filed_under(self@, None),
    {
        proof {
            use_type_invariant(self);
            assert(self@.take(self.rules@.len() as int) =~= self@);
        }
        copy_places(&self.fallback)
    }

    /// The number of rules in the index.
    pub fn len(&self) -> (n: usize)
        ensures
            n == self@.len(),
    {
        self.rules.len()
    }

    /// Rule `i` of the list.
    pub fn rule(&self, i: usize) -> (rule: &FilterRule)
        requires
            i < self@.len(),
        ensures
            rule@ == self@[i as int],
    {
        &self.rules[i]
    }

    /// Holds the rules named in `members` against the request and adds what
    /// is found to the tally.
    #[verifier::rlimit(50)]
    fn scan(&self, members: &Vec<usize>, req: &Request, tally: &mut Tally, seen: Ghost<Set<int>>) -> (now: Ghost<
        Set<int>,
    >)
        requires
            forall|j: int| 0 <= j < members@.len() ==> #[trigger] members@[j] < self.rules@.len(),
            tallied(self@, req@, seen@, *old(tally)),
        ensures
            tallied(self@, req@, now@, *final(tally)),
            seen@.subset_of(now@),
            forall|j: int| 0 <= j < members@.len() ==> now@.contains(#[trigger] members@[j] as int),
    {
        let ghost mut cur = seen@;
        let mut j: usize = 0;
        while j < members.len()
            invariant
                j <= members.len(),
                forall|j: int|
                    0 <= j < members@.len() ==> #[trigger] members@[j] < self.rules@.len(),
                tallied(self@, req@, cur, *tally),
                seen@.subset_of(cur),
                forall|h: int| 0 <= h < j ==> cur.contains(#[trigger] members@[h] as int),
            decreases members.len() - j,
        {
            let m = members[j];
            let rule = &self.rules[m];
            let ghost before = cur;
            let ghost was = *tally;
            proof {
                cur = cur.insert(m as int);
                assert(forall|i: int| cur.contains(i) <==> before.contains(i) || i == m);
            }
            let applied = rule_applies(rule, req);
            assert(applied == hit(self@, req@, m as int));
            if applied && rule.is_exception() {
                tally.excepted = true;
                assert(cur.contains(m as int) && excepts(self@, req@, m as int));
            } else if applied && rule_strips(rule) {
                tally.strip = smaller(tally.strip, m);
                assert(strips(self@, req@, m as int));
                proof {
                    lemma_tally_kept(self@, req@, before, cur, m as int, was.excepted);
                }
            } else if applied {
                tally.block = smaller(tally.block, m);
                assert(blocks(self@, req@, m as int));
                proof {
                    lemma_tally_kept(self@, req@, before, cur, m as int, was.excepted);
                }
            } else {
                proof {
                    lemma_tally_kept(self@, req@, before, cur, m as int, was.excepted);
                }
            }
            j += 1;
        }
        Ghost(cur)
    }

    /// Decides a request: looks up the buckets whose keys the request gives,
    /// holds their rules and those without a key against it, and decides as
    /// if every rule of the list had been held against it.
    #[verifier::rlimit(50)]
    pub fn decide(&self, req: &Request) -> (outcome: Outcome)
        ensures
            outcome.decision == decision_for(self@, req@),
            deciding_rule(self@, req@, outcome.rule),
    {
        broadcast use vstd::std_specs::hash::group_hash_axioms;

        proof {
            use_type_invariant(self);
        }
        let url = req.url();
        let len = url.len();
        let count = self.rules.len();
        let mut tally = Tally { excepted: false, block: None, strip: None };
        let ghost mut seen: Set<int> = Set::empty();
        proof {
            assert(self@.take(count as int) =~= self@);
            lemma_filed_under(self@, None);
        }
        let Ghost(s) = self.scan(&self.fallback, req, &mut tally, Ghost(seen));
        proof {
            seen = s;
        }
        if tally.excepted {
            return Outcome { decision: Decision::Allow, rule: None };
        }
        let start = req.host_start();
        let end = req.host_end();
        let mut p: usize = start;
        while p < end
            invariant
                start <= p <= end,
                start == req@.host_start,
                end == req@.host_end,
                end <= len,
                len == url@.len(),
                url@ == req@.url,
                self.valid(),
                tallied(self@, req@, seen, tally),
                !tally.excepted,
                forall|j: int|
                    0 <= j < self.fallback@.len() ==> seen.contains(
                        #[trigger] self.fallback@[j] as int,
                    ),
                forall|q: int|
                    start <= q < p && q + 3 <= len && label_start(req@, q) ==> bucket_seen(
                        self.slots@,
                        self.buckets@,
                        seen,
                        #[trigger] request_key(req@, q, true),
                    ),
            decreases end - p,
        {
            if len - p >= 3 && (p == start || url[p - 1] == '.') {
                let key = gram(url, p, true);
                let slot = match self.slots.get(&key) {
                    Some(b) => Some(*b),
                    None => None,
                };
                if let Some(b) = slot {
                    let ghost before = seen;
                    let Ghost(s) = self.scan(&self.buckets[b], req, &mut tally, Ghost(seen));
                    proof {
                        seen = s;
                        assert forall|q: int|
                            start <= q < p && q + 3 <= len && label_start(
                                req@,
                                q,
                            ) implies bucket_seen(
                            self.slots@,
                            self.buckets@,
                            seen,
                            #[trigger] request_key(req@, q, true),
                        ) by {
                            assert(bucket_seen(
                                self.slots@,
                                self.buckets@,
                                before,
                                request_key(req@, q, true),
                            ));
                        }
                    }
                    if tally.excepted {
                        return Outcome { decision: Decision::Allow, rule: None };
                    }
                }
            }
            p += 1;
        }
        let mut p: usize = 0;
        while len - p >= 3
            invariant
                p <= len,
                len == url@.len(),
                url@ == req@.url,
                self.valid(),
                tallied(self@, req@, seen, tally),
                !tally.excepted,
                forall|j: int|
                    0 <= j < self.fallback@.len() ==> seen.contains(
                        #[trigger] self.fallback@[j] as int,
                    ),
                forall|q: int|
                    q + 3 <= len && label_start(req@, q) ==> bucket_seen(
                        self.slots@,
                        self.buckets@,
                        seen,
                        #[trigger] request_key(req@, q, true),
                    ),
                forall|q: int|
                    0 <= q < p && q + 3 <= len ==> bucket_seen(
                        self.slots@,
                        self.buckets@,
                        seen,
                        #[trigger] request_key(req@, q, false),
                    ),
            decreases len - p,
        {
            let key = gram(url, p, false);
            let slot = match self.slots.get(&key) {
                Some(b) => Some(*b),
                None => None,
            };
            if let Some(b) = slot {
                let ghost before = seen;
                let Ghost(s) = self.scan(&self.buckets[b], req, &mut tally, Ghost(seen));
                proof {
                    seen = s;
                    assert forall|q: int| q + 3 <= len && label_start(req@, q) implies bucket_seen(
                        self.slots@,
                        self.buckets@,
                        seen,
                        #[trigger] request_key(req@, q, true),
                    ) by {
                        assert(bucket_seen(
                            self.slots@,
                            self.buckets@,
                            before,
                            request_key(req@, q, true),
                        ));
                    }
                    assert forall|q: int| 0 <= q < p && q + 3 <= len implies bucket_seen(
                        self.slots@,
                        self.buckets@,
                        seen,
                        #[trigger] request_key(req@, q, false),
                    ) by {
                        assert(bucket_seen(
                            self.slots@,
                            self.buckets@,
                            before,
                            request_key(req@, q, false),
                        ));
                    }
                }
                if tally.excepted {
                    return Outcome { decision: Decision::Allow, rule: None };
                }
            }
            p += 1;
        }
        proof {
            assert forall|i: int| hit(self@, req@, i) implies seen.contains(i) by {
                assert(0 <= i < count);
                assert(self@.take(count as int) =~= self@);
                lemma_filed_under(self@, rule_key(self@[i]));
                if rule_key(self@[i]) is Some {
                    let k = rule_key(self@[i])->0;
                    lemma_key_given(self@[i], req@);
                    let (q, anchored) = choose|q: int, anchored: bool|
                        0 <= q && q + key_len() <= req@.url.len() && (anchored ==> label_start(
                            req@,
                            q,
                        )) && #[trigger] request_key(req@, q, anchored) == k;
                    if anchored {
                        assert(bucket_seen(
                            self.slots@,
                            self.buckets@,
                            seen,
                            request_key(req@, q, true),
                        ));
                    } else {
                        assert(q < p);
                        assert(bucket_seen(
                            self.slots@,
                            self.buckets@,
                            seen,
                            request_key(req@, q, false),
                        ));
                    }
                    assert(bucket_seen(self.slots@, self.buckets@, seen, k));
                    assert(filed_under(self@, Some(k)).contains(i as usize));
                    assert(self.slots@.contains_key(k));
                    let b = self.slots@[k] as int;
                    assert(self.buckets@[b]@.contains(i as usize));
                    let j = choose|j: int|
                        0 <= j < self.buckets@[b]@.len() && self.buckets@[b]@[j] == i as usize;
                    assert(seen.contains(self.buckets@[b]@[j] as int));
                } else {
                    assert(self.fallback@.contains(i as usize));
                    let j = choose|j: int|
                        0 <= j < self.fallback@.len() && self.fallback@[j] == i as usize;
                    assert(seen.contains(self.fallback@[j] as int));
                }
            }
        }
        proof {
            assert forall|i: int| !excepts(self@, req@, i) by {
                if excepts(self@, req@, i) {
                    assert(seen.contains(i) && excepts(self@, req@, i));
                }
            }
            assert forall|i: int| blocks(self@, req@, i) implies seen.contains(i) by {}
            assert forall|i: int| strips(self@, req@, i) implies seen.contains(i) by {}
        }
        match tally.block {
            Some(m) => {
                assert(blocks(self@, req@, m as int));
                assert forall|i: int| blocks(self@, req@, i) implies m <= i by {
                    assert(seen.contains(i));
                }
                Outcome { decision: Decision::Block, rule: Some(m) }
            },
            None => {
                assert forall|i: int| !blocks(self@, req@, i) by {
                    if blocks(self@, req@, i) {
                        assert(seen.contains(i));
                    }
                }
                match tally.strip {
                    Some(m) => {
                        assert(strips(self@, req@, m as int));
                        assert forall|i: int| strips(self@, req@, i) implies m <= i by {
                            assert(seen.contains(i));
                        }
                        Outcome { decision: Decision::Sanitize, rule: Some(m) }
                    },
                    None => {
                        assert forall|i: int| !strips(self@, req@, i) by {
                            if strips(self@, req@, i) {
                                assert(seen.contains(i));
                            }
                        }
                        Outcome { decision: Decision::Allow, rule: None }
                    },
                }
            },
        }
    }
}

} // verus!
