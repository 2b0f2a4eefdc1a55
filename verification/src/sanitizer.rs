//! The sanitiser: removes the query parameters that only serve tracking.

use vstd::prelude::*;
use crate::text::{
    append_text, chars_of, copy_range, find, fold, fold_text, index_of, join, lemma_index_of,
    lemma_index_of_is, lemma_join_chars, lemma_join_push, lemma_split_join, lemma_split_pieces,
    matches_at, reads_as, split, split_text, starts_with, string_of, views,
};

verus! {

/// A parameter name of one of the known click, referral and campaign ids,
/// in lower case.
pub open spec fn is_registered(name: Seq<char>) -> bool {
    ||| name == "gclid"@
    ||| name == "gclsrc"@
    ||| name == "dclid"@
    ||| name == "gbraid"@
    ||| name == "wbraid"@
    ||| name == "fbclid"@
    ||| name == "msclkid"@
    ||| name == "yclid"@
    ||| name == "twclid"@
    ||| name == "ttclid"@
    ||| name == "igshid"@
    ||| name == "mc_cid"@
    ||| name == "mc_eid"@
    ||| name == "_ga"@
    ||| name == "_gl"@
    ||| name == "ref_src"@
    ||| name == "ref_url"@
}

/// Whether a parameter name is a tracking parameter's: one of the registered
/// names, or any name of the `utm_` family, in either case of its letters.
pub open spec fn is_tracking_key(key: Seq<char>) -> bool {
    starts_with(fold(key), "utm_"@) || is_registered(fold(key))
}

/// The name of a parameter: what stands before its first `=`.
pub open spec fn key_of(pair: Seq<char>) -> Seq<char> {
    pair.take(index_of(pair, '='))
}

/// The parameters that are kept, in order.
pub open spec fn kept(pairs: Seq<Seq<char>>) -> Seq<Seq<char>>
    decreases pairs.len(),
{
    if pairs.len() == 0 {
        Seq::empty()
    } else if is_tracking_key(key_of(pairs.last())) {
        kept(pairs.drop_last())
    } else {
        kept(pairs.drop_last()).push(pairs.last())
    }
}

/// The address without its tracking parameters. The query is what stands
/// between the first `?` and the first `#`; its parameters are parted by
/// `&`. Where none is a tracking parameter the address is left as it is;
/// where all are, the `?` goes with them.
pub open spec fn sanitized(url: Seq<char>) -> Seq<char> {
    let hash = index_of(url, '#');
    let head = url.take(hash);
    let fragment = url.skip(hash);
    let mark = index_of(head, '?');
    if mark >= head.len() {
        url
    } else {
        let pairs = split(head.skip(mark + 1), '&');
        let keep = kept(pairs);
        if keep.len() == pairs.len() {
            url
        } else if keep.len() == 0 {
            head.take(mark) + fragment
        } else {
            head.take(mark) + seq!['?'] + join(keep, '&') + fragment
        }
    }
}

/// What is kept is taken from the parameters, and none of it is a tracking
/// parameter.
pub proof fn lemma_kept(pairs: Seq<Seq<char>>)
    ensures
        kept(pairs).len() <= pairs.len(),
        forall|j: int|
            0 <= j < kept(pairs).len() ==> !is_tracking_key(key_of(#[trigger] kept(pairs)[j]))
                && pairs.contains(kept(pairs)[j]),
    decreases pairs.len(),
{
    if pairs.len() > 0 {
        let rest = pairs.drop_last();
        lemma_kept(rest);
        assert forall|j: int| 0 <= j < kept(pairs).len() implies pairs.contains(
            #[trigger] kept(pairs)[j],
        ) by {
            if j < kept(rest).len() {
                let i = choose|i: int| 0 <= i < rest.len() && rest[i] == kept(rest)[j];
                assert(pairs[i] == kept(pairs)[j]);
            } else {
                assert(pairs[pairs.len() - 1] == kept(pairs)[j]);
            }
        }
    }
}

/// Where no parameter is a tracking parameter, all are kept.
pub proof fn lemma_kept_all(pairs: Seq<Seq<char>>)
    requires
        forall|i: int| 0 <= i < pairs.len() ==> !is_tracking_key(key_of(#[trigger] pairs[i])),
    ensures
        kept(pairs) == pairs,
    decreases pairs.len(),
{
    if pairs.len() > 0 {
        let rest = pairs.drop_last();
        assert forall|i: int| 0 <= i < rest.len() implies !is_tracking_key(
            key_of(#[trigger] rest[i]),
        ) by {
            assert(rest[i] == pairs[i]);
        }
        lemma_kept_all(rest);
        assert(kept(pairs) =~= pairs);
    } else {
        assert(kept(pairs) =~= pairs);
    }
}

/// A sanitised address has nothing left to remove: sanitising it again
/// gives it back unchanged.
#[verifier::rlimit(50)]
pub proof fn lemma_sanitized_twice(url: Seq<char>)
    ensures
        sanitized(sanitized(url)) == sanitized(url),
{
    lemma_index_of(url, '#');
    let hash = index_of(url, '#');
    let head = url.take(hash);
    let fragment = url.skip(hash);
    lemma_index_of(head, '?');
    let mark = index_of(head, '?');
    if mark < head.len() {
        let query = head.skip(mark + 1);
        let pairs = split(query, '&');
        let keep = kept(pairs);
        let base = head.take(mark);
        lemma_kept(pairs);
        if keep.len() != pairs.len() {
            let plain = |c: char| c != '#' && c != '&';
            assert forall|i: int| 0 <= i < query.len() implies query[i] == '&' || plain(
                #[trigger] query[i],
            ) by {
                assert(query[i] == url[mark + 1 + i]);
            }
            lemma_split_pieces(query, '&', plain);
            assert forall|k: int, j: int| 0 <= k < keep.len() && 0 <= j < keep[k].len() implies plain(
                #[trigger] keep[k][j],
            ) by {
                let i = choose|i: int| 0 <= i < pairs.len() && pairs[i] == keep[k];
                assert(plain(pairs[i][j]));
            }
            assert forall|j: int| 0 <= j < base.len() implies base[j] != '#' && base[j] != '?' by {
                assert(base[j] == head[j]);
                assert(head[j] == url[j]);
            }
            if keep.len() == 0 {
                let out = base + fragment;
                assert(sanitized(url) == out);
                assert forall|j: int| 0 <= j < base.len() implies out[j] != '#' by {
                    assert(out[j] == base[j]);
                }
                if base.len() < out.len() {
                    assert(out[base.len() as int] == fragment[0]);
                    assert(fragment[0] == url[hash]);
                }
                lemma_index_of_is(out, '#', base.len() as int);
                assert(out.take(base.len() as int) =~= base);
                lemma_index_of_is(base, '?', base.len() as int);
            } else {
                let joined = join(keep, '&');
                let out = base + seq!['?'] + joined + fragment;
                assert(sanitized(url) == out);
                lemma_join_chars(keep, '&', |c: char| c != '#');
                let front = base + seq!['?'] + joined;
                assert forall|j: int| 0 <= j < front.len() implies out[j] != '#' by {
                    if j < base.len() {
                        assert(out[j] == base[j]);
                    } else if j == base.len() {
                        assert(out[j] == '?');
                    } else {
                        assert(out[j] == joined[j - base.len() - 1]);
                    }
                }
                if front.len() < out.len() {
                    assert(out[front.len() as int] == fragment[0]);
                    assert(fragment[0] == url[hash]);
                }
                lemma_index_of_is(out, '#', front.len() as int);
                assert(out.take(front.len() as int) =~= front);
                assert(out.skip(front.len() as int) =~= fragment);
                assert forall|j: int| 0 <= j < base.len() implies front[j] != '?' by {
                    assert(front[j] == base[j]);
                }
                assert(front[base.len() as int] == '?');
                lemma_index_of_is(front, '?', base.len() as int);
                assert(front.skip(base.len() as int + 1) =~= joined);
                assert(front.take(base.len() as int) =~= base);
                lemma_split_join(keep, '&');
                lemma_kept_all(keep);
            }
        }
    }
}

fn registered(name: &Vec<char>) -> (r: bool)
    ensures
        r == is_registered(name@),
{
    reads_as(name, "gclid") || reads_as(name, "gclsrc") || reads_as(name, "dclid") || reads_as(
        name,
        "gbraid",
    ) || reads_as(name, "wbraid") || reads_as(name, "fbclid") || reads_as(name, "msclkid")
        || reads_as(name, "yclid") || reads_as(name, "twclid") || reads_as(name, "ttclid")
        || reads_as(name, "igshid") || reads_as(name, "mc_cid") || reads_as(name, "mc_eid")
        || reads_as(name, "_ga") || reads_as(name, "_gl") || reads_as(name, "ref_src") || reads_as(
        name,
        "ref_url",
    )
}

/// Whether a parameter name is a tracking parameter's.
pub fn tracking_key(key: &Vec<char>) -> (r: bool)
    ensures
        r == is_tracking_key(key@),
{
    let name = fold_text(key);
    let family = chars_of("utm_");
    matches_at(&name, &family, 0) || registered(&name)
}

/// Puts the pieces together with `sep` between them.
fn join_text(parts: &Vec<Vec<char>>, sep: char) -> (r: Vec<char>)
    ensures
        r@ == join(views(parts@), sep),
{
    let mut r: Vec<char> = Vec::new();
    let mut i: usize = 0;
    while i < parts.len()
        invariant
            i <= parts.len(),
            r@ == join(views(parts@).take(i as int), sep),
        decreases parts.len() - i,
    {
        let ghost done = views(parts@).take(i as int);
        assert(views(parts@).take(i + 1) =~= done.push(parts@[i as int]@));
        if i > 0 {
            proof {
                lemma_join_push(done, parts@[i as int]@, sep);
            }
            r.push(sep);
            assert(r@ =~= join(done, sep) + seq![sep]);
        } else {
            assert(done.push(parts@[i as int]@) =~= seq![parts@[i as int]@]);
        }
        append_text(&mut r, &parts[i]);
        i += 1;
    }
    assert(views(parts@).take(parts@.len() as int) =~= views(parts@));
    r
}

/// Removes the tracking parameters from an address and leaves the rest as
/// it is.
#[verifier::rlimit(50)]
pub fn sanitize(url: &str) -> (clean: String)
    ensures
        clean@ == sanitized(url@),
{
    let text = chars_of(url);
    assert(text@.skip(0) =~= text@);
    let hash = find(&text, 0, '#');
    let head = copy_range(&text, 0, hash);
    assert(head@ =~= text@.take(hash as int));
    assert(head@.skip(0) =~= head@);
    let mark = find(&head, 0, '?');
    if mark >= head.len() {
        return string_of(&text);
    }
    let query = copy_range(&head, mark + 1, head.len());
    assert(query@ =~= head@.skip(mark + 1));
    let pairs = split_text(&query, '&');
    let mut keep: Vec<Vec<char>> = Vec::new();
    let mut i: usize = 0;
    while i < pairs.len()
        invariant
            i <= pairs.len(),
            views(keep@) == kept(views(pairs@).take(i as int)),
            keep@.len() <= i,
        decreases pairs.len() - i,
    {
        let ghost before = views(keep@);
        assert(views(pairs@).take(i + 1).drop_last() =~= views(pairs@).take(i as int));
        assert(views(pairs@).take(i + 1).last() == pairs@[i as int]@);
        let pair = &pairs[i];
        assert(pair@.skip(0) =~= pair@);
        let eq = find(pair, 0, '=');
        let key = copy_range(pair, 0, eq);
        assert(key@ =~= key_of(pair@));
        if !tracking_key(&key) {
            let copy = copy_range(pair, 0, pair.len());
            assert(copy@ =~= pair@);
            keep.push(copy);
            assert(views(keep@) =~= before.push(pair@));
        }
        i += 1;
    }
    assert(views(pairs@).take(pairs@.len() as int) =~= views(pairs@));
    if keep.len() == pairs.len() {
        return string_of(&text);
    }
    let mut out = copy_range(&head, 0, mark);
    assert(out@ =~= head@.take(mark as int));
    if keep.len() > 0 {
        out.push('?');
        let joined = join_text(&keep, '&');
        append_text(&mut out, &joined);
    }
    let fragment = copy_range(&text, hash, text.len());
    assert(fragment@ =~= text@.skip(hash as int));
    append_text(&mut out, &fragment);
    assert(keep@.len() > 0 ==> out@ =~= head@.take(mark as int) + seq!['?'] + join(
        views(keep@),
        '&',
    ) + fragment@);
    string_of(&out)
}

} // verus!
