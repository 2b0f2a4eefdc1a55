//! A rule that is written and read again is the same rule.

use vstd::prelude::*;
use crate::parser::{
    apply_domain, apply_domains, apply_option, apply_options, drop_empty, is_body, no_options,
    parse_line, parse_options, parse_pattern, type_named, LineError, LineOutcome, OptionsView,
    PatternView,
};
use crate::rule::{
    all_distinct, is_domain, is_domain_char, is_token, is_token_char, RuleView, TypeSet,
};
use crate::serial::{
    core_of, domain_word, lead_of, line_of, mark_of, needs_guard, negated, option_words,
    tail_of, type_words, word_if,
};
use crate::shield::ResourceType;
use crate::text::{
    fold, index_of, is_space, join, lemma_fold_same, lemma_index_of_is, lemma_join_chars,
    lemma_split_join, lemma_trim_same, lower, split, starts_with, trim,
};

verus! {

/// Pieces of which none is empty are all kept.
proof fn lemma_drop_empty_full(parts: Seq<Seq<char>>)
    requires
        forall|k: int| 0 <= k < parts.len() ==> (#[trigger] parts[k]).len() > 0,
    ensures
        drop_empty(parts) == parts,
    decreases parts.len(),
{
    if parts.len() > 0 {
        lemma_drop_empty_full(parts.drop_last());
        assert(parts.drop_last().push(parts.last()) =~= parts);
    } else {
        assert(drop_empty(parts) =~= parts);
    }
}

/// An empty piece in front is dropped.
proof fn lemma_drop_empty_guard(parts: Seq<Seq<char>>)
    requires
        forall|k: int| 0 <= k < parts.len() ==> (#[trigger] parts[k]).len() > 0,
    ensures
        drop_empty(seq![Seq::<char>::empty()] + parts) == parts,
    decreases parts.len(),
{
    let all = seq![Seq::<char>::empty()] + parts;
    if parts.len() > 0 {
        lemma_drop_empty_guard(parts.drop_last());
        assert(all.drop_last() =~= seq![Seq::<char>::empty()] + parts.drop_last());
        assert(all.last() == parts.last());
        assert(parts.drop_last().push(parts.last()) =~= parts);
    } else {
        assert(all.drop_last() =~= Seq::<Seq<char>>::empty());
        assert(all.last() =~= Seq::<char>::empty());
        assert(drop_empty(all.drop_last()) =~= Seq::<Seq<char>>::empty());
        assert(drop_empty(all) =~= parts);
    }
}

/// The joined text begins with the first piece; behind it the text ends or
/// the separator stands.
proof fn lemma_join_first(parts: Seq<Seq<char>>, sep: char)
    requires
        parts.len() > 0,
    ensures
        join(parts, sep).len() >= parts[0].len(),
        forall|i: int| 0 <= i < parts[0].len() ==> join(parts, sep)[i] == parts[0][i],
        parts.len() == 1 ==> join(parts, sep) == parts[0],
        parts.len() > 1 ==> join(parts, sep).len() > parts[0].len() && join(
            parts,
            sep,
        )[parts[0].len() as int] == sep,
{
}

/// The joined text ends with the last piece.
proof fn lemma_join_last(parts: Seq<Seq<char>>, sep: char)
    requires
        parts.len() > 0,
        parts.last().len() > 0,
    ensures
        join(parts, sep).len() > 0,
        join(parts, sep).last() == parts.last().last(),
    decreases parts.len(),
{
    if parts.len() > 1 {
        let rest = parts.drop_first();
        assert(rest.last() == parts.last());
        lemma_join_last(rest, sep);
    }
}

/// The pattern of a rule, as it is written, reads as the rule's pattern.
#[verifier::rlimit(50)]
proof fn lemma_core_parses(r: RuleView)
    requires
        r.wf(),
    ensures
        parse_pattern(core_of(r)) == Ok::<PatternView, LineError>(
            PatternView {
                tokens: r.tokens,
                host_anchor: r.host_anchor,
                start_anchor: r.start_anchor,
                end_anchor: r.end_anchor,
            },
        ),
{
    let joined = join(r.tokens, '*');
    let core = core_of(r);
    let lead = lead_of(r);
    let tail = tail_of(r);
    let part = |c: char| c == '*' || is_token_char(c);
    assert(is_token(r.tokens[0]));
    assert(is_token(r.tokens[r.tokens.len() - 1]));
    assert forall|k: int, j: int| 0 <= k < r.tokens.len() && 0 <= j < r.tokens[k].len() implies part(
        #[trigger] r.tokens[k][j],
    ) by {
        assert(is_token(r.tokens[k]));
    }
    lemma_join_chars(r.tokens, '*', part);
    lemma_join_first(r.tokens, '*');
    lemma_join_last(r.tokens, '*');
    assert(is_token_char(joined[0]));
    assert(is_token_char(joined.last()));
    let bars = seq!['|', '|'];
    let bar = seq!['|'];
    let host = starts_with(core, bars);
    let start = !host && starts_with(core, bar);
    assert(core[lead.len() as int] == joined[0]);
    assert(host == r.host_anchor) by {
        if r.host_anchor {
            assert(core.subrange(0, 2) =~= bars);
        } else if starts_with(core, bars) {
            assert(core.subrange(0, 2)[0] == '|');
            assert(core.subrange(0, 2)[1] == '|');
        }
    }
    assert(start == r.start_anchor) by {
        if r.start_anchor {
            assert(core.subrange(0, 1) =~= bar);
        } else if !r.host_anchor && starts_with(core, bar) {
            assert(core.subrange(0, 1)[0] == '|');
        }
    }
    let inner = if host {
        core.skip(2)
    } else if start {
        core.skip(1)
    } else {
        core
    };
    let guard = if needs_guard(r) {
        seq!['*']
    } else {
        Seq::<char>::empty()
    };
    assert(inner =~= guard + joined + tail);
    let end = inner.len() > 0 && inner.last() == '^';
    assert(end == r.end_anchor) by {
        if !r.end_anchor {
            assert(inner.last() == joined.last());
        }
    }
    let body = if end {
        inner.drop_last()
    } else {
        inner
    };
    assert(body =~= guard + joined);
    assert(is_body(body)) by {
        assert forall|i: int| 0 <= i < body.len() implies body[i] == '*' || is_token_char(
            #[trigger] body[i],
        ) by {
            if i >= guard.len() {
                assert(body[i] == joined[i - guard.len()]);
                assert(part(joined[i - guard.len()]));
            }
        }
    }
    assert forall|k: int, j: int|
        0 <= k < r.tokens.len() && 0 <= j < r.tokens[k].len() implies #[trigger] r.tokens[k][j]
        != '*' by {
        assert(is_token(r.tokens[k]));
    }
    lemma_split_join(r.tokens, '*');
    let pieces = split(body, '*');
    if needs_guard(r) {
        assert(body[0] == '*');
        assert(body.take(0) =~= Seq::<char>::empty());
        assert(body.skip(1) =~= joined);
        assert(pieces =~= seq![Seq::<char>::empty()] + r.tokens);
        lemma_drop_empty_guard(r.tokens);
        assert(pieces.last() == r.tokens.last());
    } else {
        assert(body =~= joined);
        lemma_drop_empty_full(r.tokens);
    }
}

/// Taking up the options from `from` on is taking up what is left of them.
proof fn lemma_options_shift(words: Seq<Seq<char>>, from: int, acc: OptionsView)
    requires
        0 <= from <= words.len(),
    ensures
        apply_options(words, from, acc) == apply_options(words.skip(from), 0, acc),
    decreases words.len() - from,
{
    let rest = words.skip(from);
    if from < words.len() {
        assert(rest[0] == words[from]);
        match apply_option(words[from], acc) {
            Ok(next) => {
                lemma_options_shift(words, from + 1, next);
                lemma_options_shift(rest, 1, next);
                assert(rest.skip(1) =~= words.skip(from + 1));
            },
            Err(_) => {},
        }
    }
}

/// Taking up two runs of options is taking up the first and then the second.
proof fn lemma_options_concat(a: Seq<Seq<char>>, b: Seq<Seq<char>>, acc: OptionsView)
    ensures
        apply_options(a + b, 0, acc) == match apply_options(a, 0, acc) {
            Ok(next) => apply_options(b, 0, next),
            Err(e) => Err(e),
        },
    decreases a.len(),
{
    if a.len() == 0 {
        assert(a + b =~= b);
    } else {
        assert((a + b)[0] == a[0]);
        match apply_option(a[0], acc) {
            Ok(next) => {
                lemma_options_shift(a + b, 1, next);
                lemma_options_shift(a, 1, next);
                assert((a + b).skip(1) =~= a.skip(1) + b);
                lemma_options_concat(a.skip(1), b, next);
            },
            Err(_) => {},
        }
    }
}

/// A word that may be there is taken up where it is there.
proof fn lemma_option_if(cond: bool, word: Seq<char>, acc: OptionsView)
    ensures
        apply_options(word_if(cond, word), 0, acc) == if cond {
            apply_option(word, acc)
        } else {
            Ok(acc)
        },
{
    if cond {
        let words = word_if(cond, word);
        assert(words[0] == word);
        match apply_option(word, acc) {
            Ok(next) => {
                assert(apply_options(words, 1, next) == Ok::<OptionsView, LineError>(next));
            },
            Err(_) => {},
        }
    }
}

/// A character that an option word is made of.
spec fn is_word_part(c: char) -> bool {
    !is_space(c) && c != ',' && c != '$' && lower(c) == c
}

spec fn is_option_word(word: Seq<char>) -> bool {
    word.len() > 0 && forall|i: int| 0 <= i < word.len() ==> is_word_part(#[trigger] word[i])
}

/// What the option words are made of, and what each is taken up as.
#[verifier::rlimit(50)]
proof fn lemma_type_word(t: ResourceType, acc: OptionsView)
    ensures
        is_option_word(type_word(t)),
        apply_option(type_word(t), acc) == Ok::<OptionsView, LineError>(
            OptionsView { types: acc.types.plus(t), ..acc },
        ),
{
    reveal_strlit("third-party");
    reveal_strlit("strip");
    reveal_strlit("script");
    reveal_strlit("image");
    reveal_strlit("stylesheet");
    reveal_strlit("xhr");
    reveal_strlit("frame");
    reveal_strlit("other");
    let w = type_word(t);
    assert(w.len() != "third-party"@.len());
    match t {
        ResourceType::Script => {
            assert(w.len() != "strip"@.len());
        },
        ResourceType::Image => {
            assert(w[0] != "strip"@[0]);
            assert(w.len() != "script"@.len());
        },
        ResourceType::Stylesheet => {
            assert(w.len() != "strip"@.len());
            assert(w.len() != "script"@.len());
            assert(w.len() != "image"@.len());
        },
        ResourceType::XHR => {
            assert(w.len() != "strip"@.len());
            assert(w.len() != "script"@.len());
            assert(w.len() != "image"@.len());
            assert(w.len() != "stylesheet"@.len());
        },
        ResourceType::Frame => {
            assert(w[0] != "strip"@[0]);
            assert(w[0] != "image"@[0]);
            assert(w.len() != "script"@.len());
            assert(w.len() != "stylesheet"@.len());
            assert(w.len() != "xhr"@.len());
        },
        ResourceType::Other => {
            assert(w[0] != "strip"@[0]);
            assert(w[0] != "image"@[0]);
            assert(w[0] != "frame"@[0]);
            assert(w.len() != "script"@.len());
            assert(w.len() != "stylesheet"@.len());
            assert(w.len() != "xhr"@.len());
        },
    }
    assert(type_named(w) == Some(t));
}

/// The word that names a resource type in a rule's options.
spec fn type_word(t: ResourceType) -> Seq<char> {
    match t {
        ResourceType::Script => "script"@,
        ResourceType::Image => "image"@,
        ResourceType::Stylesheet => "stylesheet"@,
        ResourceType::XHR => "xhr"@,
        ResourceType::Frame => "frame"@,
        ResourceType::Other => "other"@,
    }
}

proof fn lemma_flag_words(acc: OptionsView)
    ensures
        is_option_word("third-party"@),
        is_option_word("strip"@),
        apply_option("third-party"@, acc) == Ok::<OptionsView, LineError>(
            OptionsView { third_party_only: true, ..acc },
        ),
        apply_option("strip"@, acc) == Ok::<OptionsView, LineError>(
            OptionsView { strip: true, ..acc },
        ),
{
    reveal_strlit("third-party");
    reveal_strlit("strip");
    assert("strip"@.len() != "third-party"@.len());
}

/// The options once the first `i` entries of a `domain=` option that names
/// `inc` and then, negated, `exc` are taken up.
spec fn domains_after(
    inc: Seq<Seq<char>>,
    exc: Seq<Seq<char>>,
    base: OptionsView,
    i: int,
) -> OptionsView {
    OptionsView {
        included: inc.take(
            if i < inc.len() {
                i
            } else {
                inc.len() as int
            },
        ),
        excluded: exc.take(
            if i < inc.len() {
                0
            } else {
                i - inc.len()
            },
        ),
        ..base
    }
}

/// Domains that are written, the included before the excluded, are read as
/// they were.
proof fn lemma_domains_apply(
    inc: Seq<Seq<char>>,
    exc: Seq<Seq<char>>,
    base: OptionsView,
    i: int,
)
    requires
        forall|k: int| 0 <= k < inc.len() ==> is_domain(#[trigger] inc[k]),
        forall|k: int| 0 <= k < exc.len() ==> is_domain(#[trigger] exc[k]),
        all_distinct(inc),
        all_distinct(exc),
        0 <= i <= inc.len() + exc.len(),
    ensures
        apply_domains(inc + negated(exc), i, domains_after(inc, exc, base, i)) == Ok::<
            OptionsView,
            LineError,
        >(OptionsView { included: inc, excluded: exc, ..base }),
    decreases inc.len() + exc.len() - i,
{
    let entries = inc + negated(exc);
    let now = domains_after(inc, exc, base, i);
    if i == entries.len() {
        assert(now.included =~= inc);
        assert(now.excluded =~= exc);
    } else {
        let next = domains_after(inc, exc, base, i + 1);
        lemma_domains_apply(inc, exc, base, i + 1);
        if i < inc.len() {
            assert(entries[i] == inc[i]);
            assert(is_domain(inc[i]));
            assert(!inc.take(i).contains(inc[i])) by {
                if inc.take(i).contains(inc[i]) {
                    let j = choose|j: int| 0 <= j < inc.take(i).len() && inc.take(i)[j] == inc[i];
                    assert(inc[j] == inc[i]);
                }
            }
            assert(inc.take(i).push(inc[i]) =~= inc.take(i + 1));
            assert(next.excluded =~= now.excluded);
            assert(apply_domain(entries[i], now) == Ok::<OptionsView, LineError>(next));
        } else {
            let d = exc[i - inc.len()];
            assert(entries[i] == seq!['~'] + d);
            assert(entries[i][0] == '~');
            assert(entries[i].skip(1) =~= d);
            assert(is_domain(d));
            let seen = exc.take(i - inc.len());
            assert(!seen.contains(d)) by {
                if seen.contains(d) {
                    let j = choose|j: int| 0 <= j < seen.len() && seen[j] == d;
                    assert(exc[j] == exc[i - inc.len()]);
                }
            }
            assert(seen.push(d) =~= exc.take(i - inc.len() + 1));
            assert(next.included =~= now.included);
            assert(apply_domain(entries[i], now) == Ok::<OptionsView, LineError>(next));
        }
    }
}

/// The `domain=` option of a rule, as it is written, is an option word and
/// is read as the rule's domains.
#[verifier::rlimit(50)]
proof fn lemma_domain_word(r: RuleView, acc: OptionsView)
    requires
        r.wf(),
        r.included.len() + r.excluded.len() > 0,
        acc.included.len() == 0,
        acc.excluded.len() == 0,
    ensures
        is_option_word(domain_word(r)),
        apply_option(domain_word(r), acc) == Ok::<OptionsView, LineError>(
            OptionsView { included: r.included, excluded: r.excluded, ..acc },
        ),
{
    reveal_strlit("domain=");
    reveal_strlit("third-party");
    reveal_strlit("strip");
    reveal_strlit("script");
    reveal_strlit("image");
    reveal_strlit("stylesheet");
    reveal_strlit("xhr");
    reveal_strlit("frame");
    reveal_strlit("other");
    let tag = "domain="@;
    let entries = r.included + negated(r.excluded);
    let list = join(entries, '|');
    let word = domain_word(r);
    assert(word[0] == 'd');
    assert(word[0] != "third-party"@[0]);
    assert(word[0] != "strip"@[0]);
    assert(word[0] != "script"@[0]);
    assert(word[0] != "image"@[0]);
    assert(word[0] != "stylesheet"@[0]);
    assert(word[0] != "xhr"@[0]);
    assert(word[0] != "frame"@[0]);
    assert(word[0] != "other"@[0]);
    assert(type_named(word) is None);
    assert(word.subrange(0, tag.len() as int) =~= tag);
    assert(word.skip(tag.len() as int) =~= list);
    assert forall|k: int, j: int| 0 <= k < entries.len() && 0 <= j < entries[k].len() implies #[trigger] entries[k][j]
        != '|' && is_word_part(entries[k][j]) by {
        if k < r.included.len() {
            assert(is_domain(r.included[k]));
            assert(is_domain_char(r.included[k][j]));
        } else {
            let d = r.excluded[k - r.included.len()];
            assert(is_domain(d));
            if j > 0 {
                assert(entries[k][j] == d[j - 1]);
                assert(is_domain_char(d[j - 1]));
            }
        }
    }
    lemma_split_join(entries, '|');
    lemma_join_chars(entries, '|', |c: char| is_word_part(c));
    assert forall|i: int| 0 <= i < word.len() implies is_word_part(#[trigger] word[i]) by {
        if i >= tag.len() {
            assert(word[i] == list[i - tag.len()]);
        }
    }
    lemma_domains_apply(r.included, r.excluded, acc, 0);
    let first = domains_after(r.included, r.excluded, acc, 0);
    assert(first.included =~= acc.included);
    assert(first.excluded =~= acc.excluded);
    assert(first == acc);
}

spec fn all_words(words: Seq<Seq<char>>) -> bool {
    forall|k: int| 0 <= k < words.len() ==> is_option_word(#[trigger] words[k])
}

/// One more word that may be there, behind words that are taken up.
proof fn lemma_option_step(
    done: Seq<Seq<char>>,
    cond: bool,
    word: Seq<char>,
    start: OptionsView,
    acc: OptionsView,
    next: OptionsView,
)
    requires
        all_words(done),
        apply_options(done, 0, start) == Ok::<OptionsView, LineError>(acc),
        cond ==> is_option_word(word) && apply_option(word, acc) == Ok::<OptionsView, LineError>(
            next,
        ),
        !cond ==> next == acc,
    ensures
        all_words(done + word_if(cond, word)),
        apply_options(done + word_if(cond, word), 0, start) == Ok::<OptionsView, LineError>(next),
{
    lemma_options_concat(done, word_if(cond, word), start);
    lemma_option_if(cond, word, acc);
    let all = done + word_if(cond, word);
    assert forall|k: int| 0 <= k < all.len() implies is_option_word(#[trigger] all[k]) by {
        if k < done.len() {
            assert(all[k] == done[k]);
        } else {
            assert(all[k] == word);
        }
    }
}

/// The options with one more type, where the condition holds.
spec fn with_type(acc: OptionsView, cond: bool, t: ResourceType) -> OptionsView {
    if cond {
        OptionsView { types: acc.types.plus(t), ..acc }
    } else {
        acc
    }
}

proof fn lemma_type_step(
    done: Seq<Seq<char>>,
    cond: bool,
    t: ResourceType,
    start: OptionsView,
    acc: OptionsView,
)
    requires
        all_words(done),
        apply_options(done, 0, start) == Ok::<OptionsView, LineError>(acc),
    ensures
        all_words(done + word_if(cond, type_word(t))),
        apply_options(done + word_if(cond, type_word(t)), 0, start) == Ok::<
            OptionsView,
            LineError,
        >(with_type(acc, cond, t)),
{
    lemma_type_word(t, acc);
    lemma_option_step(done, cond, type_word(t), start, acc, with_type(acc, cond, t));
}

/// The type words of a set are taken up as the set.
#[verifier::rlimit(50)]
proof fn lemma_types_apply(set: TypeSet, start: OptionsView)
    requires
        start.types == TypeSet::none(),
    ensures
        all_words(type_words(set)),
        apply_options(type_words(set), 0, start) == Ok::<OptionsView, LineError>(
            OptionsView { types: set, ..start },
        ),
{
    let w0 = Seq::<Seq<char>>::empty();
    let a1 = with_type(start, set.script, ResourceType::Script);
    let a2 = with_type(a1, set.image, ResourceType::Image);
    let a3 = with_type(a2, set.stylesheet, ResourceType::Stylesheet);
    let a4 = with_type(a3, set.xhr, ResourceType::XHR);
    let a5 = with_type(a4, set.frame, ResourceType::Frame);
    let a6 = with_type(a5, set.other, ResourceType::Other);
    let w1 = w0 + word_if(set.script, type_word(ResourceType::Script));
    let w2 = w1 + word_if(set.image, type_word(ResourceType::Image));
    let w3 = w2 + word_if(set.stylesheet, type_word(ResourceType::Stylesheet));
    let w4 = w3 + word_if(set.xhr, type_word(ResourceType::XHR));
    let w5 = w4 + word_if(set.frame, type_word(ResourceType::Frame));
    let w6 = w5 + word_if(set.other, type_word(ResourceType::Other));
    assert(apply_options(w0, 0, start) == Ok::<OptionsView, LineError>(start));
    lemma_type_step(w0, set.script, ResourceType::Script, start, start);
    lemma_type_step(w1, set.image, ResourceType::Image, start, a1);
    lemma_type_step(w2, set.stylesheet, ResourceType::Stylesheet, start, a2);
    lemma_type_step(w3, set.xhr, ResourceType::XHR, start, a3);
    lemma_type_step(w4, set.frame, ResourceType::Frame, start, a4);
    lemma_type_step(w5, set.other, ResourceType::Other, start, a5);
    assert(w6 == type_words(set));
    assert(a6.types == set);
}

/// The option words of a rule are taken up as the rule's options.
#[verifier::rlimit(50)]
proof fn lemma_words_apply(r: RuleView)
    requires
        r.wf(),
    ensures
        all_words(option_words(r)),
        apply_options(option_words(r), 0, no_options()) == Ok::<OptionsView, LineError>(
            OptionsView {
                types: r.types,
                included: r.included,
                excluded: r.excluded,
                third_party_only: r.third_party_only,
                strip: r.strip,
            },
        ),
{
    let start = no_options();
    let w6 = type_words(r.types);
    let a6 = OptionsView { types: r.types, ..start };
    lemma_types_apply(r.types, start);
    let a7 = if r.third_party_only {
        OptionsView { third_party_only: true, ..a6 }
    } else {
        a6
    };
    let w7 = w6 + word_if(r.third_party_only, "third-party"@);
    lemma_flag_words(a6);
    lemma_option_step(w6, r.third_party_only, "third-party"@, start, a6, a7);
    let a8 = if r.strip {
        OptionsView { strip: true, ..a7 }
    } else {
        a7
    };
    let w8 = w7 + word_if(r.strip, "strip"@);
    lemma_flag_words(a7);
    lemma_option_step(w7, r.strip, "strip"@, start, a7, a8);
    let named = r.included.len() + r.excluded.len() > 0;
    let a9 = if named {
        OptionsView { included: r.included, excluded: r.excluded, ..a8 }
    } else {
        a8
    };
    if named {
        lemma_domain_word(r, a8);
    }
    lemma_option_step(w8, named, domain_word(r), start, a8, a9);
    assert(a9.included =~= r.included);
    assert(a9.excluded =~= r.excluded);
}

/// The options of a rule, as they are written, read as the rule's options.
proof fn lemma_options_parse(r: RuleView)
    requires
        r.wf(),
        option_words(r).len() > 0,
    ensures
        parse_options(join(option_words(r), ',')) == Ok::<OptionsView, LineError>(
            OptionsView {
                types: r.types,
                included: r.included,
                excluded: r.excluded,
                third_party_only: r.third_party_only,
                strip: r.strip,
            },
        ),
{
    lemma_words_apply(r);
    let words = option_words(r);
    assert forall|k: int, j: int| 0 <= k < words.len() && 0 <= j < words[k].len() implies #[trigger] words[k][j]
        != ',' by {
        assert(is_option_word(words[k]));
    }
    lemma_split_join(words, ',');
}

/// The options of a rule, as they are written, hold neither a blank nor a
/// capital.
proof fn lemma_options_clean(r: RuleView)
    requires
        r.wf(),
    ensures
        forall|i: int|
            0 <= i < join(option_words(r), ',').len() ==> is_word_part(
                #[trigger] join(option_words(r), ',')[i],
            ) || join(option_words(r), ',')[i] == ',',
{
    lemma_words_apply(r);
    let words = option_words(r);
    assert forall|k: int, j: int| 0 <= k < words.len() && 0 <= j < words[k].len() implies is_word_part(
        #[trigger] words[k][j],
    ) || words[k][j] == ',' by {
        assert(is_option_word(words[k]));
    }
    lemma_join_chars(words, ',', |c: char| is_word_part(c) || c == ',');
}

/// A set without type words is the empty set.
#[verifier::rlimit(50)]
proof fn lemma_no_type_words(set: TypeSet)
    requires
        type_words(set).len() == 0,
    ensures
        set == TypeSet::none(),
{
    let s1 = word_if(set.script, "script"@);
    let s2 = word_if(set.image, "image"@);
    let s3 = word_if(set.stylesheet, "stylesheet"@);
    let s4 = word_if(set.xhr, "xhr"@);
    let s5 = word_if(set.frame, "frame"@);
    let s6 = word_if(set.other, "other"@);
    let w1 = Seq::<Seq<char>>::empty() + s1;
    let w2 = w1 + s2;
    let w3 = w2 + s3;
    let w4 = w3 + s4;
    let w5 = w4 + s5;
    let w6 = w5 + s6;
    assert(w6 == type_words(set));
    assert(w6.len() == w5.len() + s6.len());
    assert(w5.len() == w4.len() + s5.len());
    assert(w4.len() == w3.len() + s4.len());
    assert(w3.len() == w2.len() + s3.len());
    assert(w2.len() == w1.len() + s2.len());
    assert(w1.len() == s1.len());
    assert(s1.len() == 0 && s2.len() == 0 && s3.len() == 0);
    assert(s4.len() == 0 && s5.len() == 0 && s6.len() == 0);
}

/// A rule without option words has no options.
#[verifier::rlimit(50)]
proof fn lemma_no_words(r: RuleView)
    requires
        option_words(r).len() == 0,
    ensures
        r.types == TypeSet::none(),
        !r.third_party_only,
        !r.strip,
        r.included.len() == 0,
        r.excluded.len() == 0,
{
    let t = type_words(r.types);
    let a = word_if(r.third_party_only, "third-party"@);
    let b = word_if(r.strip, "strip"@);
    let c = word_if(r.included.len() + r.excluded.len() > 0, domain_word(r));
    let ta = t + a;
    let tab = ta + b;
    assert(option_words(r) == tab + c);
    assert((tab + c).len() == tab.len() + c.len());
    assert(tab.len() == ta.len() + b.len());
    assert(ta.len() == t.len() + a.len());
    assert(t.len() == 0 && a.len() == 0 && b.len() == 0 && c.len() == 0);
    lemma_no_type_words(r.types);
}

/// The written pattern is not empty, holds no blank, no capital and no `$`,
/// and, unless the rule is an exception, begins neither like a comment nor
/// like an exception.
proof fn lemma_core_shape(r: RuleView)
    requires
        r.wf(),
    ensures
        core_of(r).len() > 0,
        forall|i: int|
            0 <= i < core_of(r).len() ==> !is_space(#[trigger] core_of(r)[i]) && lower(
                core_of(r)[i],
            ) == core_of(r)[i] && core_of(r)[i] != '$',
        !r.is_exception ==> core_of(r)[0] != '!',
        !r.is_exception ==> !(core_of(r).len() >= 2 && core_of(r)[0] == '@' && core_of(r)[1]
            == '@'),
{
    let core = core_of(r);
    let lead = lead_of(r);
    let joined = join(r.tokens, '*');
    let tail = tail_of(r);
    let clean = |c: char| !is_space(c) && lower(c) == c && c != '$';
    assert(is_token(r.tokens[0]));
    assert forall|k: int, j: int| 0 <= k < r.tokens.len() && 0 <= j < r.tokens[k].len() implies clean(
        #[trigger] r.tokens[k][j],
    ) by {
        assert(is_token(r.tokens[k]));
    }
    lemma_join_chars(r.tokens, '*', clean);
    lemma_join_first(r.tokens, '*');
    assert forall|i: int| 0 <= i < core.len() implies !is_space(#[trigger] core[i]) && lower(
        core[i],
    ) == core[i] && core[i] != '$' by {
        if i < lead.len() {
            assert(core[i] == lead[i]);
        } else if i < lead.len() + joined.len() {
            assert(core[i] == joined[i - lead.len()]);
            assert(clean(joined[i - lead.len()]));
        } else {
            assert(core[i] == tail[i - lead.len() - joined.len()]);
        }
    }
    assert(core[0] == if lead.len() > 0 {
        lead[0]
    } else {
        joined[0]
    });
    if lead.len() == 0 && !r.is_exception {
        let first = r.tokens[0];
        assert(!needs_guard(r));
        assert(joined[0] == first[0]);
        if core.len() >= 2 && core[0] == '@' && core[1] == '@' {
            if first.len() >= 2 {
                assert(joined[1] == first[1]);
                assert(core[1] == joined[1]);
                assert(first.subrange(0, 2) =~= seq!['@', '@']);
            } else if r.tokens.len() > 1 {
                assert(core[1] == joined[1]);
            } else {
                assert(joined == first);
                assert(core[1] == tail[0]);
            }
        }
    }
}

/// What stands behind the pattern in a rule's line: the `$` and the
/// options, where the rule has any.
spec fn options_tail(r: RuleView) -> Seq<char> {
    if option_words(r).len() == 0 {
        Seq::empty()
    } else {
        seq!['$'] + join(option_words(r), ',')
    }
}

/// The line of a rule holds neither a blank nor a capital.
proof fn lemma_line_clean(r: RuleView)
    requires
        r.wf(),
    ensures
        line_of(r) == mark_of(r) + (core_of(r) + options_tail(r)),
        forall|i: int|
            0 <= i < line_of(r).len() ==> !is_space(#[trigger] line_of(r)[i]) && lower(
                line_of(r)[i],
            ) == line_of(r)[i],
{
    let line = line_of(r);
    let mark = mark_of(r);
    let core = core_of(r);
    let tail = options_tail(r);
    let options = join(option_words(r), ',');
    assert(line =~= mark + (core + tail));
    lemma_core_shape(r);
    lemma_options_clean(r);
    assert forall|i: int| 0 <= i < line.len() implies !is_space(#[trigger] line[i]) && lower(
        line[i],
    ) == line[i] by {
        if i < mark.len() {
            assert(line[i] == mark[i]);
        } else if i < mark.len() + core.len() {
            assert(line[i] == core[i - mark.len()]);
        } else {
            let j = i - mark.len() - core.len();
            assert(line[i] == tail[j]);
            if j > 0 {
                assert(tail[j] == options[j - 1]);
            }
        }
    }
}

/// The line of a rule is read as it stands; it is no comment, and begins
/// with the exception mark just where the rule is an exception.
#[verifier::rlimit(50)]
proof fn lemma_line_head(r: RuleView)
    requires
        r.wf(),
    ensures
        fold(trim(line_of(r))) == line_of(r),
        line_of(r).len() > 0,
        line_of(r)[0] != '!',
        starts_with(line_of(r), seq!['@', '@']) == r.is_exception,
{
    let line = line_of(r);
    let mark = mark_of(r);
    let core = core_of(r);
    let tail = options_tail(r);
    lemma_line_clean(r);
    lemma_core_shape(r);
    assert(line.len() > 0);
    assert(!is_space(line[0]));
    assert(!is_space(line[line.len() - 1]));
    lemma_trim_same(line);
    lemma_fold_same(line);
    if r.is_exception {
        assert(line[0] == mark[0]);
        assert(line.subrange(0, 2) =~= seq!['@', '@']);
    } else {
        assert(mark.len() == 0);
        assert(line[0] == core[0]);
        if starts_with(line, seq!['@', '@']) {
            assert(line.subrange(0, 2)[0] == '@');
            assert(line.subrange(0, 2)[1] == '@');
            if core.len() >= 2 {
                assert(line[1] == core[1]);
            } else {
                assert(line[1] == tail[0]);
            }
        }
    }
}

/// Behind the exception mark, the first `$` of a rule's line stands right
/// behind the pattern.
proof fn lemma_line_cut(r: RuleView)
    requires
        r.wf(),
    ensures
        index_of(core_of(r) + options_tail(r), '$') == core_of(r).len(),
{
    let core = core_of(r);
    let rest = core + options_tail(r);
    lemma_core_shape(r);
    assert forall|j: int| 0 <= j < core.len() implies rest[j] != '$' by {
        assert(rest[j] == core[j]);
    }
    if option_words(r).len() > 0 {
        assert(rest[core.len() as int] == '$');
    }
    lemma_index_of_is(rest, '$', core.len() as int);
}

/// What the pattern and the options of a line give, put together as
/// reading a line does.
spec fn assembled(
    excepted: bool,
    pattern: Result<PatternView, LineError>,
    options: Result<OptionsView, LineError>,
) -> LineOutcome {
    match pattern {
        Err(e) => LineOutcome::Skipped(e),
        Ok(p) => match options {
            Err(e) => LineOutcome::Skipped(e),
            Ok(o) => LineOutcome::Rule(
                RuleView {
                    tokens: p.tokens,
                    is_exception: excepted,
                    host_anchor: p.host_anchor,
                    start_anchor: p.start_anchor,
                    end_anchor: p.end_anchor,
                    types: o.types,
                    included: o.included,
                    excluded: o.excluded,
                    third_party_only: o.third_party_only,
                    strip: o.strip,
                },
            ),
        },
    }
}

/// Reading a line that is no comment is reading its pattern and its options.
#[verifier::rlimit(50)]
proof fn lemma_parse_line_parts(line: Seq<char>, excepted: bool, core: Seq<char>, tail: Seq<char>)
    requires
        fold(trim(line)) == line,
        line.len() > 0,
        line[0] != '!',
        starts_with(line, seq!['@', '@']) == excepted,
        line == (if excepted {
            seq!['@', '@']
        } else {
            Seq::<char>::empty()
        }) + (core + tail),
        index_of(core + tail, '$') == core.len(),
    ensures
        parse_line(line) == assembled(
            excepted,
            parse_pattern(core),
            if tail.len() > 0 {
                parse_options(tail.skip(1))
            } else {
                Ok(no_options())
            },
        ),
{
    let rest = if excepted {
        line.skip(2)
    } else {
        line
    };
    assert(rest =~= core + tail);
    let cut = index_of(rest, '$');
    assert(rest.take(cut) =~= core);
    if tail.len() > 0 {
        assert(rest.skip(cut + 1) =~= tail.skip(1));
    }
}

/// The options of a rule.
spec fn options_of(r: RuleView) -> OptionsView {
    OptionsView {
        types: r.types,
        included: r.included,
        excluded: r.excluded,
        third_party_only: r.third_party_only,
        strip: r.strip,
    }
}

/// The pattern of a rule.
spec fn shape_of(r: RuleView) -> PatternView {
    PatternView {
        tokens: r.tokens,
        host_anchor: r.host_anchor,
        start_anchor: r.start_anchor,
        end_anchor: r.end_anchor,
    }
}

/// What stands behind the pattern in a rule's line reads as the rule's
/// options.
proof fn lemma_tail_parses(r: RuleView)
    requires
        r.wf(),
    ensures
        (if options_tail(r).len() > 0 {
            parse_options(options_tail(r).skip(1))
        } else {
            Ok(no_options())
        }) == Ok::<OptionsView, LineError>(options_of(r)),
{
    let words = option_words(r);
    if words.len() > 0 {
        lemma_options_parse(r);
        assert(options_tail(r).skip(1) =~= join(words, ','));
    } else {
        lemma_no_words(r);
        assert(r.included =~= Seq::<Seq<char>>::empty());
        assert(r.excluded =~= Seq::<Seq<char>>::empty());
    }
}

/// A rule is its pattern and its options put together.
proof fn lemma_assembled(r: RuleView)
    ensures
        assembled(
            r.is_exception,
            Ok::<PatternView, LineError>(shape_of(r)),
            Ok::<OptionsView, LineError>(options_of(r)),
        ) == LineOutcome::Rule(r),
{
}

/// A rule that is written as a line and read again is the rule it was.
#[verifier::rlimit(50)]
pub proof fn lemma_round_trip(r: RuleView)
    requires
        r.wf(),
    ensures
        parse_line(line_of(r)) == LineOutcome::Rule(r),
{
    let line = line_of(r);
    let core = core_of(r);
    let tail = options_tail(r);
    lemma_line_head(r);
    lemma_line_cut(r);
    assert(line == mark_of(r) + (core + tail)) by {
        lemma_line_clean(r);
    }
    lemma_parse_line_parts(line, r.is_exception, core, tail);
    assert(parse_pattern(core) == Ok::<PatternView, LineError>(shape_of(r))) by {
        lemma_core_parses(r);
    }
    lemma_tail_parses(r);
    lemma_assembled(r);
}

} // verus!
