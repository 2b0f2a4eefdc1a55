//! Writing a rule back as a line of a list.

use vstd::prelude::*;
use crate::parser::{parse_line, LineOutcome};
use crate::roundtrip::lemma_round_trip;
use crate::rule::{FilterRule, RuleView, TypeSet};
use crate::text::{append_text, chars_of, join, matches_at, starts_with, string_of, views};

verus! {

/// The first token would be taken for a comment or an exception mark if it
/// began the line.
pub open spec fn needs_guard(rule: RuleView) -> bool {
    &&& !rule.is_exception
    &&& !rule.host_anchor
    &&& !rule.start_anchor
    &&& rule.tokens.len() > 0
    &&& rule.tokens[0].len() > 0
    &&& (rule.tokens[0][0] == '!' || starts_with(rule.tokens[0], seq!['@', '@']))
}

/// The exception mark, where the rule is an exception.
pub open spec fn mark_of(rule: RuleView) -> Seq<char> {
    if rule.is_exception {
        seq!['@', '@']
    } else {
        Seq::empty()
    }
}

/// What stands before the first token: the anchor, or a wildcard that guards
/// a first token that could be misread.
pub open spec fn lead_of(rule: RuleView) -> Seq<char> {
    if rule.host_anchor {
        seq!['|', '|']
    } else if rule.start_anchor {
        seq!['|']
    } else if needs_guard(rule) {
        seq!['*']
    } else {
        Seq::empty()
    }
}

/// What stands behind the last token.
pub open spec fn tail_of(rule: RuleView) -> Seq<char> {
    if rule.end_anchor {
        seq!['^']
    } else {
        Seq::empty()
    }
}

/// The pattern without the exception mark.
pub open spec fn core_of(rule: RuleView) -> Seq<char> {
    lead_of(rule) + join(rule.tokens, '*') + tail_of(rule)
}

/// The pattern of a rule as it is written.
pub open spec fn pattern_of(rule: RuleView) -> Seq<char> {
    mark_of(rule) + core_of(rule)
}

/// The word, where the condition holds; nothing, where it does not.
pub open spec fn word_if(cond: bool, word: Seq<char>) -> Seq<Seq<char>> {
    if cond {
        seq![word]
    } else {
        Seq::empty()
    }
}

/// The words that name the types of a set, in a fixed order.
pub open spec fn type_words(set: TypeSet) -> Seq<Seq<char>> {
    Seq::empty() + word_if(set.script, "script"@) + word_if(set.image, "image"@) + word_if(
        set.stylesheet,
        "stylesheet"@,
    ) + word_if(set.xhr, "xhr"@) + word_if(set.frame, "frame"@) + word_if(set.other, "other"@)
}

/// The excluded domains as they are written: each behind a `~`.
pub open spec fn negated(domains: Seq<Seq<char>>) -> Seq<Seq<char>> {
    Seq::new(domains.len(), |i: int| seq!['~'] + domains[i])
}

/// The `domain=` option of a rule.
pub open spec fn domain_word(rule: RuleView) -> Seq<char> {
    "domain="@ + join(rule.included + negated(rule.excluded), '|')
}

/// The option words of a rule: its types, `third-party`, `strip`, then one
/// `domain=` with the included domains before the excluded ones.
pub open spec fn option_words(rule: RuleView) -> Seq<Seq<char>> {
    type_words(rule.types) + word_if(rule.third_party_only, "third-party"@) + word_if(
        rule.strip,
        "strip"@,
    ) + word_if(rule.included.len() + rule.excluded.len() > 0, domain_word(rule))
}

/// A rule as a line of a list.
pub open spec fn line_of(rule: RuleView) -> Seq<char> {
    let words = option_words(rule);
    if words.len() == 0 {
        pattern_of(rule)
    } else {
        pattern_of(rule) + seq!['$'] + join(words, ',')
    }
}

/// Appends `word` to the text, behind `sep` unless it is the first.
fn add_word(out: &mut Vec<char>, sep: char, word: &Vec<char>, words: Ghost<Seq<Seq<char>>>)
    requires
        old(out)@ == join(words@, sep),
        words@.len() == 0 <==> old(out)@.len() == 0,
        word@.len() > 0,
    ensures
        final(out)@ == join(words@.push(word@), sep),
        final(out)@.len() > 0,
{
    if out.len() > 0 {
        proof {
            crate::text::lemma_join_push(words@, word@, sep);
        }
        out.push(sep);
    } else {
        assert(words@.push(word@) =~= seq![word@]);
    }
    append_text(out, word);
}

/// Appends `word` where `cond` holds.
fn add_if(out: &mut Vec<char>, cond: bool, word: &Vec<char>, words: Ghost<Seq<Seq<char>>>) -> (now:
    Ghost<Seq<Seq<char>>>)
    requires
        old(out)@ == join(words@, ','),
        words@.len() == 0 <==> old(out)@.len() == 0,
        word@.len() > 0,
    ensures
        now@ == words@ + word_if(cond, word@),
        final(out)@ == join(now@, ','),
        now@.len() == 0 <==> final(out)@.len() == 0,
{
    if cond {
        add_word(out, ',', word, words);
        assert(words@ + seq![word@] =~= words@.push(word@));
        Ghost(words@.push(word@))
    } else {
        assert(words@ + Seq::<Seq<char>>::empty() =~= words@);
        words
    }
}

/// None of the option words is empty.
proof fn lemma_option_words()
    ensures
        "script"@.len() > 0,
        "image"@.len() > 0,
        "stylesheet"@.len() > 0,
        "xhr"@.len() > 0,
        "frame"@.len() > 0,
        "other"@.len() > 0,
        "third-party"@.len() > 0,
        "strip"@.len() > 0,
        "domain="@.len() > 0,
{
    reveal_strlit("script");
    reveal_strlit("image");
    reveal_strlit("stylesheet");
    reveal_strlit("xhr");
    reveal_strlit("frame");
    reveal_strlit("other");
    reveal_strlit("third-party");
    reveal_strlit("strip");
    reveal_strlit("domain=");
}

/// The pattern of the rule as it is written.
#[verifier::rlimit(50)]
fn pattern_text(rule: &FilterRule) -> (out: Vec<char>)
    ensures
        out@ == pattern_of(rule@),
{
    let mut out: Vec<char> = Vec::new();
    let n = rule.token_count();
    if rule.is_exception() {
        out.push('@');
        out.push('@');
    }
    let first = rule.token(0);
    let mut mark: Vec<char> = Vec::new();
    mark.push('@');
    mark.push('@');
    assert(mark@ =~= seq!['@', '@']);
    if rule.host_anchor() {
        out.push('|');
        out.push('|');
    } else if rule.start_anchor() {
        out.push('|');
    } else if !rule.is_exception() && (first[0] == '!' || matches_at(first, &mark, 0)) {
        out.push('*');
    }
    assert(out@ =~= mark_of(rule@) + lead_of(rule@));
    let mut body: Vec<char> = Vec::new();
    let mut k: usize = 0;
    while k < n
        invariant
            k <= n,
            n == rule@.tokens.len(),
            rule@.wf(),
            body@ == join(rule@.tokens.take(k as int), '*'),
            k == 0 <==> body@.len() == 0,
        decreases n - k,
    {
        assert(rule@.tokens.take(k + 1) =~= rule@.tokens.take(k as int).push(
            rule@.tokens[k as int],
        ));
        add_word(&mut body, '*', rule.token(k), Ghost(rule@.tokens.take(k as int)));
        k += 1;
    }
    assert(rule@.tokens.take(n as int) =~= rule@.tokens);
    append_text(&mut out, &body);
    if rule.end_anchor() {
        out.push('^');
    }
    assert(out@ =~= pattern_of(rule@));
    out
}

/// The domains of the rule as they are written in its `domain=` option.
#[verifier::rlimit(50)]
fn domain_text(rule: &FilterRule) -> (out: Vec<char>)
    requires
        rule@.wf(),
    ensures
        out@ == join(rule@.included + negated(rule@.excluded), '|'),
{
    let included = rule.included();
    let excluded = rule.excluded();
    let mut out: Vec<char> = Vec::new();
    let mut i: usize = 0;
    while i < included.len()
        invariant
            i <= included.len(),
            rule@.wf(),
            views(included@) == rule@.included,
            out@ == join(views(included@).take(i as int), '|'),
            i == 0 <==> out@.len() == 0,
        decreases included.len() - i,
    {
        assert(views(included@).take(i + 1) =~= views(included@).take(i as int).push(
            included@[i as int]@,
        ));
        assert(views(included@)[i as int] == included@[i as int]@);
        add_word(&mut out, '|', &included[i], Ghost(views(included@).take(i as int)));
        i += 1;
    }
    assert(views(included@).take(included@.len() as int) =~= views(included@));
    let mut j: usize = 0;
    assert(views(included@) + negated(views(excluded@)).take(0) =~= views(included@));
    while j < excluded.len()
        invariant
            j <= excluded.len(),
            rule@.wf(),
            views(included@) == rule@.included,
            views(excluded@) == rule@.excluded,
            out@ == join(views(included@) + negated(views(excluded@)).take(j as int), '|'),
            included@.len() == 0 && j == 0 <==> out@.len() == 0,
        decreases excluded.len() - j,
    {
        let mut entry: Vec<char> = Vec::new();
        entry.push('~');
        append_text(&mut entry, &excluded[j]);
        assert(entry@ =~= negated(views(excluded@))[j as int]);
        let ghost so_far = views(included@) + negated(views(excluded@)).take(j as int);
        assert(views(included@) + negated(views(excluded@)).take(j + 1) =~= so_far.push(entry@));
        add_word(&mut out, '|', &entry, Ghost(so_far));
        j += 1;
    }
    assert(negated(views(excluded@)).take(excluded@.len() as int) =~= negated(views(excluded@)));
    out
}

/// The type words of the set, with commas between them.
#[verifier::rlimit(50)]
fn type_text(types: TypeSet) -> (out: Vec<char>)
    ensures
        out@ == join(type_words(types), ','),
        type_words(types).len() == 0 <==> out@.len() == 0,
{
    proof {
        lemma_option_words();
    }
    let mut out: Vec<char> = Vec::new();
    let Ghost(w) = add_if(&mut out, types.script, &chars_of("script"), Ghost(Seq::empty()));
    let Ghost(w) = add_if(&mut out, types.image, &chars_of("image"), Ghost(w));
    let Ghost(w) = add_if(&mut out, types.stylesheet, &chars_of("stylesheet"), Ghost(w));
    let Ghost(w) = add_if(&mut out, types.xhr, &chars_of("xhr"), Ghost(w));
    let Ghost(w) = add_if(&mut out, types.frame, &chars_of("frame"), Ghost(w));
    let Ghost(w) = add_if(&mut out, types.other, &chars_of("other"), Ghost(w));
    assert(w == type_words(types));
    out
}

/// The options of the rule as they are written behind the `$`; empty where
/// it has none.
#[verifier::rlimit(50)]
fn option_text(rule: &FilterRule) -> (out: Vec<char>)
    requires
        rule@.wf(),
    ensures
        out@ == join(option_words(rule@), ','),
        out@.len() > 0 <==> option_words(rule@).len() > 0,
{
    proof {
        lemma_option_words();
    }
    let mut out = type_text(rule.resource_types());
    let ghost w = type_words(rule@.types);
    let Ghost(w) = add_if(&mut out, rule.third_party_only(), &chars_of("third-party"), Ghost(w));
    let Ghost(w) = add_if(&mut out, rule.strip(), &chars_of("strip"), Ghost(w));
    let mut word = chars_of("domain=");
    let has_domains = rule.included().len() > 0 || rule.excluded().len() > 0;
    if has_domains {
        let domains = domain_text(rule);
        append_text(&mut word, &domains);
    }
    let Ghost(w) = add_if(&mut out, has_domains, &word, Ghost(w));
    assert(w == option_words(rule@));
    out
}

impl FilterRule {
    /// Writes the rule as a line of a list. The line reads back as the rule.
    pub fn to_line(&self) -> (line: String)
        ensures
            line@ == line_of(self@),
            parse_line(line@) == LineOutcome::Rule(self@),
    {
        let n = self.token_count();
        proof {
            lemma_round_trip(self@);
        }
        let mut out = pattern_text(self);
        let options = option_text(self);
        if options.len() > 0 {
            out.push('$');
            append_text(&mut out, &options);
        }
        string_of(&out)
    }
}

} // verus!
