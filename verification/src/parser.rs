//! The rule parser: from the lines of a block list to rules.

use vstd::prelude::*;
use crate::rule::{
    all_distinct, disjoint, is_domain, is_domain_char, is_token, is_token_char, rule_views,
    FilterRule, RuleView, TypeSet,
};
use crate::shield::ResourceType;
use crate::text::{
    chars_of, char_is_space, copy_range, fold, fold_text, index_of, find, lemma_split_pieces,
    matches_at, reads_as, same_text, split, split_text, starts_with, to_lower, trim,
    trimmed, views,
};

verus! {

/// Why a line gives no rule.
#[derive(Debug, Clone, Copy, PartialEq, Eq, Structural)]
pub enum LineError {
    /// The pattern holds a blank, or a `^` or `|` where none may stand.
    BadPattern,
    /// The pattern holds no literal text.
    NoLiteral,
    /// An option is empty or unknown, or a domain is empty or ill-formed.
    BadOption,
    /// A domain is both included and excluded.
    DomainConflict,
}

/// What a line is read as.
pub enum LineOutcome {
    /// A blank line or a comment.
    Ignored,
    Skipped(LineError),
    Rule(RuleView),
}

/// The pattern part of a rule.
pub struct PatternView {
    pub tokens: Seq<Seq<char>>,
    pub host_anchor: bool,
    pub start_anchor: bool,
    pub end_anchor: bool,
}

/// The options part of a rule.
pub struct OptionsView {
    pub types: TypeSet,
    pub included: Seq<Seq<char>>,
    pub excluded: Seq<Seq<char>>,
    pub third_party_only: bool,
    pub strip: bool,
}

pub open spec fn no_options() -> OptionsView {
    OptionsView {
        types: TypeSet::none(),
        included: Seq::empty(),
        excluded: Seq::empty(),
        third_party_only: false,
        strip: false,
    }
}

/// The pieces that are not empty, in order.
pub open spec fn drop_empty(parts: Seq<Seq<char>>) -> Seq<Seq<char>>
    decreases parts.len(),
{
    if parts.len() == 0 {
        Seq::empty()
    } else if parts.last().len() > 0 {
        drop_empty(parts.drop_last()).push(parts.last())
    } else {
        drop_empty(parts.drop_last())
    }
}

/// Every character of the pattern's body is a wildcard or may stand in a token.
pub open spec fn is_body(body: Seq<char>) -> bool {
    forall|i: int| 0 <= i < body.len() ==> body[i] == '*' || is_token_char(#[trigger] body[i])
}

/// Reads the pattern of a rule: `||` in front anchors it at the host, a
/// single `|` at the start of the address, `^` at the end anchors its end;
/// `*` parts the literal tokens. An anchor next to a wildcard says nothing
/// and is dropped.
pub open spec fn parse_pattern(core: Seq<char>) -> Result<PatternView, LineError> {
    let host = starts_with(core, seq!['|', '|']);
    let start = !host && starts_with(core, seq!['|']);
    let inner = if host {
        core.skip(2)
    } else if start {
        core.skip(1)
    } else {
        core
    };
    let end = inner.len() > 0 && inner.last() == '^';
    let body = if end {
        inner.drop_last()
    } else {
        inner
    };
    let pieces = split(body, '*');
    let tokens = drop_empty(pieces);
    if !is_body(body) {
        Err(LineError::BadPattern)
    } else if tokens.len() == 0 {
        Err(LineError::NoLiteral)
    } else {
        Ok(
            PatternView {
                tokens,
                host_anchor: host && pieces.first().len() > 0,
                start_anchor: start && pieces.first().len() > 0,
                end_anchor: end && pieces.last().len() > 0,
            },
        )
    }
}

/// The resource type that an option names.
pub open spec fn type_named(word: Seq<char>) -> Option<ResourceType> {
    if word == "script"@ {
        Some(ResourceType::Script)
    } else if word == "image"@ {
        Some(ResourceType::Image)
    } else if word == "stylesheet"@ {
        Some(ResourceType::Stylesheet)
    } else if word == "xhr"@ {
        Some(ResourceType::XHR)
    } else if word == "frame"@ {
        Some(ResourceType::Frame)
    } else if word == "other"@ {
        Some(ResourceType::Other)
    } else {
        None
    }
}

/// The list with `d` at its end, unless it holds `d` already.
pub open spec fn add_unique(list: Seq<Seq<char>>, d: Seq<char>) -> Seq<Seq<char>> {
    if list.contains(d) {
        list
    } else {
        list.push(d)
    }
}

/// Takes up one entry of a `domain=` option: `~` in front excludes.
pub open spec fn apply_domain(entry: Seq<char>, acc: OptionsView) -> Result<
    OptionsView,
    LineError,
> {
    if entry.len() > 0 && entry[0] == '~' {
        if is_domain(entry.skip(1)) {
            Ok(OptionsView { excluded: add_unique(acc.excluded, entry.skip(1)), ..acc })
        } else {
            Err(LineError::BadOption)
        }
    } else if is_domain(entry) {
        Ok(OptionsView { included: add_unique(acc.included, entry), ..acc })
    } else {
        Err(LineError::BadOption)
    }
}

pub open spec fn apply_domains(entries: Seq<Seq<char>>, from: int, acc: OptionsView) -> Result<
    OptionsView,
    LineError,
>
    decreases entries.len() - from,
{
    if from < 0 || from >= entries.len() {
        Ok(acc)
    } else {
        match apply_domain(entries[from], acc) {
            Ok(next) => apply_domains(entries, from + 1, next),
            Err(e) => Err(e),
        }
    }
}

/// Takes up one option.
pub open spec fn apply_option(word: Seq<char>, acc: OptionsView) -> Result<OptionsView, LineError> {
    if word == "third-party"@ {
        Ok(OptionsView { third_party_only: true, ..acc })
    } else if word == "strip"@ {
        Ok(OptionsView { strip: true, ..acc })
    } else if type_named(word) is Some {
        Ok(OptionsView { types: acc.types.plus(type_named(word)->0), ..acc })
    } else if starts_with(word, "domain="@) {
        apply_domains(split(word.skip("domain="@.len() as int), '|'), 0, acc)
    } else {
        Err(LineError::BadOption)
    }
}

pub open spec fn apply_options(words: Seq<Seq<char>>, from: int, acc: OptionsView) -> Result<
    OptionsView,
    LineError,
>
    decreases words.len() - from,
{
    if from < 0 || from >= words.len() {
        Ok(acc)
    } else {
        match apply_option(words[from], acc) {
            Ok(next) => apply_options(words, from + 1, next),
            Err(e) => Err(e),
        }
    }
}

/// Reads the options of a rule, the text behind its `$`: options parted by
/// commas, taken up from left to right. A domain named on both sides is
/// refused once all are read.
pub open spec fn parse_options(text: Seq<char>) -> Result<OptionsView, LineError> {
    match apply_options(split(text, ','), 0, no_options()) {
        Ok(o) => if disjoint(o.included, o.excluded) {
            Ok(o)
        } else {
            Err(LineError::DomainConflict)
        },
        Err(e) => Err(e),
    }
}

/// Reads one line of a list. Blanks at its ends and the case of its letters
/// say nothing. An empty line and one that begins with `!` are ignored. `@@`
/// in front makes an exception; the first `$` parts pattern and options. A
/// fault in the pattern is reported before one in the options.
pub open spec fn parse_line(line: Seq<char>) -> LineOutcome {
    let text = fold(trim(line));
    if text.len() == 0 || text[0] == '!' {
        LineOutcome::Ignored
    } else {
        let is_exception = starts_with(text, seq!['@', '@']);
        let rest = if is_exception {
            text.skip(2)
        } else {
            text
        };
        let cut = index_of(rest, '$');
        let options = if cut < rest.len() {
            parse_options(rest.skip(cut + 1))
        } else {
            Ok(no_options())
        };
        match parse_pattern(rest.take(cut)) {
            Err(e) => LineOutcome::Skipped(e),
            Ok(p) => match options {
                Err(e) => LineOutcome::Skipped(e),
                Ok(o) => LineOutcome::Rule(
                    RuleView {
                        tokens: p.tokens,
                        is_exception,
                        host_anchor: p.host_anchor,
                        start_anchor: p.start_anchor,
                        end_anchor: p.end_anchor,
                        types: o.types,
                        included: o.included,
                        excluded: o.excluded,
                        third_party_only: o.third_party_only,
                        strip: o.strip,
                    },
                ),
            },
        }
    }
}

/// The rules that the lines give, in the order of the lines.
pub open spec fn rules_of(lines: Seq<Seq<char>>) -> Seq<RuleView>
    decreases lines.len(),
{
    if lines.len() == 0 {
        Seq::empty()
    } else {
        match parse_line(lines.last()) {
            LineOutcome::Rule(r) => rules_of(lines.drop_last()).push(r),
            _ => rules_of(lines.drop_last()),
        }
    }
}

/// The number of lines that are skipped for a fault.
pub open spec fn skipped_of(lines: Seq<Seq<char>>) -> nat
    decreases lines.len(),
{
    if lines.len() == 0 {
        0
    } else {
        match parse_line(lines.last()) {
            LineOutcome::Skipped(_) => skipped_of(lines.drop_last()) + 1,
            _ => skipped_of(lines.drop_last()),
        }
    }
}

/// What a vector of strings reads as.
pub open spec fn line_views(lines: Seq<String>) -> Seq<Seq<char>> {
    Seq::new(lines.len(), |i: int| lines[i]@)
}

impl OptionsView {
    /// The domains are well formed and none is named twice on one side.
    pub open spec fn wf(self) -> bool {
        &&& forall|i: int| 0 <= i < self.included.len() ==> is_domain(#[trigger] self.included[i])
        &&& forall|i: int| 0 <= i < self.excluded.len() ==> is_domain(#[trigger] self.excluded[i])
        &&& all_distinct(self.included)
        &&& all_distinct(self.excluded)
    }
}

/// A line as it was read.
#[derive(Debug)]
pub enum ParsedLine {
    /// A blank line or a comment.
    Ignored,
    Skipped(LineError),
    Rule(FilterRule),
}

impl View for ParsedLine {
    type V = LineOutcome;

    open spec fn view(&self) -> LineOutcome {
        match self {
            ParsedLine::Ignored => LineOutcome::Ignored,
            ParsedLine::Skipped(e) => LineOutcome::Skipped(*e),
            ParsedLine::Rule(r) => LineOutcome::Rule(r@),
        }
    }
}

struct Pattern {
    tokens: Vec<Vec<char>>,
    host_anchor: bool,
    start_anchor: bool,
    end_anchor: bool,
}

impl View for Pattern {
    type V = PatternView;

    closed spec fn view(&self) -> PatternView {
        PatternView {
            tokens: views(self.tokens@),
            host_anchor: self.host_anchor,
            start_anchor: self.start_anchor,
            end_anchor: self.end_anchor,
        }
    }
}

struct Options {
    types: TypeSet,
    included: Vec<Vec<char>>,
    excluded: Vec<Vec<char>>,
    third_party_only: bool,
    strip: bool,
}

impl View for Options {
    type V = OptionsView;

    closed spec fn view(&self) -> OptionsView {
        OptionsView {
            types: self.types,
            included: views(self.included@),
            excluded: views(self.excluded@),
            third_party_only: self.third_party_only,
            strip: self.strip,
        }
    }
}

fn token_char(c: char) -> (r: bool)
    ensures
        r == is_token_char(c),
{
    !char_is_space(c) && c != '*' && c != '$' && c != '^' && c != '|' && to_lower(c) == c
}

fn domain_char(c: char) -> (r: bool)
    ensures
        r == is_domain_char(c),
{
    !char_is_space(c) && c != ',' && c != '$' && c != '|' && to_lower(c) == c
}

fn body_ok(body: &Vec<char>) -> (r: bool)
    ensures
        r == is_body(body@),
{
    let mut i: usize = 0;
    while i < body.len()
        invariant
            i <= body.len(),
            forall|j: int| 0 <= j < i ==> body@[j] == '*' || is_token_char(#[trigger] body@[j]),
        decreases body.len() - i,
    {
        if body[i] != '*' && !token_char(body[i]) {
            return false;
        }
        i += 1;
    }
    true
}

fn domain_ok(d: &Vec<char>) -> (r: bool)
    ensures
        r == is_domain(d@),
{
    if d.len() == 0 || d[0] == '~' {
        return false;
    }
    let mut i: usize = 0;
    while i < d.len()
        invariant
            i <= d.len(),
            forall|j: int| 0 <= j < i ==> is_domain_char(#[trigger] d@[j]),
        decreases d.len() - i,
    {
        if !domain_char(d[i]) {
            return false;
        }
        i += 1;
    }
    true
}

/// Whether the list holds the text.
fn holds(list: &Vec<Vec<char>>, d: &Vec<char>) -> (r: bool)
    ensures
        r == views(list@).contains(d@),
{
    let mut i: usize = 0;
    while i < list.len()
        invariant
            i <= list.len(),
            forall|j: int| 0 <= j < i ==> views(list@)[j] != d@,
        decreases list.len() - i,
    {
        if same_text(&list[i], d) {
            assert(views(list@)[i as int] == d@);
            return true;
        }
        i += 1;
    }
    false
}

/// Whether the two lists hold no text in common.
fn apart(a: &Vec<Vec<char>>, b: &Vec<Vec<char>>) -> (r: bool)
    ensures
        r == disjoint(views(a@), views(b@)),
{
    let mut i: usize = 0;
    while i < a.len()
        invariant
            i <= a.len(),
            forall|h: int, j: int|
                0 <= h < i && 0 <= j < b@.len() ==> views(a@)[h] != views(b@)[j],
        decreases a.len() - i,
    {
        if holds(b, &a[i]) {
            let ghost j = choose|j: int| 0 <= j < views(b@).len() && views(b@)[j] == a@[i as int]@;
            assert(views(a@)[i as int] == views(b@)[j]);
            return false;
        }
        assert forall|j: int| 0 <= j < b@.len() implies views(a@)[i as int] != views(b@)[j] by {
            if views(a@)[i as int] == views(b@)[j] {
                assert(views(b@).contains(a@[i as int]@));
            }
        }
        i += 1;
    }
    true
}

#[verifier::rlimit(50)]
fn read_pattern(core: &Vec<char>) -> (r: Result<Pattern, LineError>)
    ensures
        match r {
            Ok(p) => parse_pattern(core@) == Ok::<PatternView, LineError>(p@) && p@.tokens.len() > 0
                && !(p.host_anchor && p.start_anchor) && forall|k: int|
                0 <= k < p@.tokens.len() ==> is_token(#[trigger] p@.tokens[k]),
            Err(e) => parse_pattern(core@) == Err::<PatternView, LineError>(e),
        },
{
    let mut bars: Vec<char> = Vec::new();
    bars.push('|');
    let start_bar = matches_at(core, &bars, 0);
    assert(bars@ =~= seq!['|']);
    bars.push('|');
    assert(bars@ =~= seq!['|', '|']);
    let host = matches_at(core, &bars, 0);
    let start = !host && start_bar;
    let skip: usize = if host {
        2
    } else if start {
        1
    } else {
        0
    };
    let inner = copy_range(core, skip, core.len());
    assert(inner@ =~= core@.skip(skip as int));
    let end = inner.len() > 0 && inner[inner.len() - 1] == '^';
    let body = if end {
        let b = copy_range(&inner, 0, inner.len() - 1);
        assert(b@ =~= inner@.drop_last());
        b
    } else {
        inner
    };
    assert(core@.skip(0) =~= core@);
    if !body_ok(&body) {
        return Err(LineError::BadPattern);
    }
    let pieces = split_text(&body, '*');
    proof {
        lemma_split_pieces(body@, '*', |c: char| is_token_char(c));
    }
    let mut tokens: Vec<Vec<char>> = Vec::new();
    let mut i: usize = 0;
    while i < pieces.len()
        invariant
            i <= pieces.len(),
            views(pieces@) == split(body@, '*'),
            views(tokens@) == drop_empty(views(pieces@).take(i as int)),
            forall|k: int, j: int|
                0 <= k < split(body@, '*').len() && 0 <= j < split(body@, '*')[k].len()
                    ==> is_token_char(#[trigger] split(body@, '*')[k][j]),
            forall|k: int| 0 <= k < tokens@.len() ==> is_token(#[trigger] views(tokens@)[k]),
        decreases pieces.len() - i,
    {
        let ghost before = views(tokens@);
        assert(views(pieces@).take(i + 1).drop_last() =~= views(pieces@).take(i as int));
        assert(views(pieces@).take(i + 1).last() == pieces@[i as int]@);
        if pieces[i].len() > 0 {
            let piece = copy_range(&pieces[i], 0, pieces[i].len());
            assert(piece@ =~= pieces@[i as int]@);
            assert(piece@ == split(body@, '*')[i as int]);
            assert(is_token(piece@));
            tokens.push(piece);
            assert(views(tokens@) =~= before.push(piece@));
        }
        i += 1;
    }
    assert(views(pieces@).take(pieces@.len() as int) =~= views(pieces@));
    if tokens.len() == 0 {
        return Err(LineError::NoLiteral);
    }
    let first_full = pieces[0].len() > 0;
    let last_full = pieces[pieces.len() - 1].len() > 0;
    Ok(
        Pattern {
            tokens,
            host_anchor: host && first_full,
            start_anchor: start && first_full,
            end_anchor: end && last_full,
        },
    )
}

fn type_of(word: &Vec<char>) -> (t: Option<ResourceType>)
    ensures
        t == type_named(word@),
{
    if reads_as(word, "script") {
        Some(ResourceType::Script)
    } else if reads_as(word, "image") {
        Some(ResourceType::Image)
    } else if reads_as(word, "stylesheet") {
        Some(ResourceType::Stylesheet)
    } else if reads_as(word, "xhr") {
        Some(ResourceType::XHR)
    } else if reads_as(word, "frame") {
        Some(ResourceType::Frame)
    } else if reads_as(word, "other") {
        Some(ResourceType::Other)
    } else {
        None
    }
}

/// Adds the text to the list unless it is there.
fn push_unique(list: &mut Vec<Vec<char>>, d: Vec<char>)
    requires
        is_domain(d@),
        forall|i: int| 0 <= i < old(list)@.len() ==> is_domain(#[trigger] views(old(list)@)[i]),
        all_distinct(views(old(list)@)),
    ensures
        views(final(list)@) == add_unique(views(old(list)@), d@),
        forall|i: int| 0 <= i < final(list)@.len() ==> is_domain(#[trigger] views(final(list)@)[i]),
        all_distinct(views(final(list)@)),
{
    if !holds(list, &d) {
        let ghost before = views(list@);
        list.push(d);
        assert(views(list@) =~= before.push(d@));
        assert forall|i: int, j: int| 0 <= i < j < list@.len() implies views(list@)[i] != views(
            list@,
        )[j] by {
            if j == list@.len() - 1 {
                if views(list@)[i] == d@ {
                    assert(before[i] == d@);
                    assert(before.contains(d@));
                }
            } else {
                assert(before[i] != before[j]);
            }
        }
    }
}

fn read_domain(entry: &Vec<char>, acc: Options) -> (r: Result<Options, LineError>)
    requires
        acc@.wf(),
    ensures
        match r {
            Ok(o) => apply_domain(entry@, acc@) == Ok::<OptionsView, LineError>(o@) && o@.wf(),
            Err(e) => apply_domain(entry@, acc@) == Err::<OptionsView, LineError>(e),
        },
{
    let mut acc = acc;
    if entry.len() > 0 && entry[0] == '~' {
        let d = copy_range(entry, 1, entry.len());
        assert(d@ =~= entry@.skip(1));
        if !domain_ok(&d) {
            return Err(LineError::BadOption);
        }
        push_unique(&mut acc.excluded, d);
        Ok(acc)
    } else {
        if !domain_ok(entry) {
            return Err(LineError::BadOption);
        }
        let d = copy_range(entry, 0, entry.len());
        assert(d@ =~= entry@);
        push_unique(&mut acc.included, d);
        Ok(acc)
    }
}

#[verifier::rlimit(50)]
fn read_option(word: &Vec<char>, given: Options) -> (r: Result<Options, LineError>)
    requires
        given@.wf(),
    ensures
        match r {
            Ok(o) => apply_option(word@, given@) == Ok::<OptionsView, LineError>(o@) && o@.wf(),
            Err(e) => apply_option(word@, given@) == Err::<OptionsView, LineError>(e),
        },
{
    let ghost init = given@;
    let mut acc = given;
    if reads_as(word, "third-party") {
        acc.third_party_only = true;
        return Ok(acc);
    }
    if reads_as(word, "strip") {
        acc.strip = true;
        return Ok(acc);
    }
    if let Some(t) = type_of(word) {
        acc.types.insert(t);
        return Ok(acc);
    }
    let tag = chars_of("domain=");
    if !matches_at(word, &tag, 0) {
        return Err(LineError::BadOption);
    }
    let list = copy_range(word, tag.len(), word.len());
    assert(list@ =~= word@.skip("domain="@.len() as int));
    let entries = split_text(&list, '|');
    let mut i: usize = 0;
    while i < entries.len()
        invariant
            i <= entries.len(),
            acc@.wf(),
            init == given@,
            apply_option(word@, init) == apply_domains(views(entries@), 0, init),
            apply_domains(views(entries@), 0, init) == apply_domains(
                views(entries@),
                i as int,
                acc@,
            ),
        decreases entries.len() - i,
    {
        match read_domain(&entries[i], acc) {
            Ok(next) => {
                acc = next;
            },
            Err(e) => {
                return Err(e);
            },
        }
        i += 1;
    }
    Ok(acc)
}

fn read_options(text: &Vec<char>) -> (r: Result<Options, LineError>)
    ensures
        match r {
            Ok(o) => parse_options(text@) == Ok::<OptionsView, LineError>(o@) && o@.wf()
                && disjoint(o@.included, o@.excluded),
            Err(e) => parse_options(text@) == Err::<OptionsView, LineError>(e),
        },
{
    let words = split_text(text, ',');
    let mut acc = Options {
        types: TypeSet::empty(),
        included: Vec::new(),
        excluded: Vec::new(),
        third_party_only: false,
        strip: false,
    };
    assert(acc@.included =~= Seq::empty() && acc@.excluded =~= Seq::empty());
    let mut i: usize = 0;
    while i < words.len()
        invariant
            i <= words.len(),
            acc@.wf(),
            views(words@) == split(text@, ','),
            apply_options(views(words@), 0, no_options()) == apply_options(
                views(words@),
                i as int,
                acc@,
            ),
        decreases words.len() - i,
    {
        match read_option(&words[i], acc) {
            Ok(next) => {
                acc = next;
            },
            Err(e) => {
                return Err(e);
            },
        }
        i += 1;
    }
    if !apart(&acc.included, &acc.excluded) {
        return Err(LineError::DomainConflict);
    }
    Ok(acc)
}

/// Reads one line of a list.
#[verifier::rlimit(50)]
pub fn read_line(line: &str) -> (parsed: ParsedLine)
    ensures
        parsed@ == parse_line(line@),
{
    let raw = chars_of(line);
    let text = fold_text(&trimmed(&raw));
    if text.len() == 0 || text[0] == '!' {
        return ParsedLine::Ignored;
    }
    let mut mark: Vec<char> = Vec::new();
    mark.push('@');
    mark.push('@');
    assert(mark@ =~= seq!['@', '@']);
    let is_exception = matches_at(&text, &mark, 0);
    let rest = if is_exception {
        let r = copy_range(&text, 2, text.len());
        assert(r@ =~= text@.skip(2));
        r
    } else {
        text
    };
    assert(rest@.skip(0) =~= rest@);
    let cut = find(&rest, 0, '$');
    let core = copy_range(&rest, 0, cut);
    assert(core@ =~= rest@.take(cut as int));
    let pattern = read_pattern(&core);
    let options = if cut < rest.len() {
        let tail = copy_range(&rest, cut + 1, rest.len());
        assert(tail@ =~= rest@.skip(cut + 1));
        read_options(&tail)
    } else {
        let none = Options {
            types: TypeSet::empty(),
            included: Vec::new(),
            excluded: Vec::new(),
            third_party_only: false,
            strip: false,
        };
        assert(none@.included =~= Seq::empty() && none@.excluded =~= Seq::empty());
        Ok(none)
    };
    match pattern {
        Err(e) => ParsedLine::Skipped(e),
        Ok(p) => match options {
            Err(e) => ParsedLine::Skipped(e),
            Ok(o) => ParsedLine::Rule(
                FilterRule::assemble(
                    p.tokens,
                    is_exception,
                    p.host_anchor,
                    p.start_anchor,
                    p.end_anchor,
                    o.types,
                    o.included,
                    o.excluded,
                    o.third_party_only,
                    o.strip,
                ),
            ),
        },
    }
}

/// What a list gave: its rules, in the order of their lines, and the number
/// of lines that were skipped for a fault.
#[derive(Debug)]
pub struct ParseOutcome {
    pub rules: Vec<FilterRule>,
    pub skipped: usize,
}

/// Reads the lines of a list. A line that cannot be read is counted and left
/// out; the lines after it are read as if it had not been there.
pub fn parse(lines: &Vec<String>) -> (outcome: ParseOutcome)
    ensures
        rule_views(outcome.rules@) == rules_of(line_views(lines@)),
        outcome.skipped == skipped_of(line_views(lines@)),
{
    let mut rules: Vec<FilterRule> = Vec::new();
    let mut skipped: usize = 0;
    let mut i: usize = 0;
    assert(rule_views(rules@) =~= Seq::empty());
    while i < lines.len()
        invariant
            i <= lines.len(),
            skipped <= i,
            rule_views(rules@) == rules_of(line_views(lines@).take(i as int)),
            skipped == skipped_of(line_views(lines@).take(i as int)),
        decreases lines.len() - i,
    {
        let ghost before = rule_views(rules@);
        assert(line_views(lines@).take(i + 1).drop_last() =~= line_views(lines@).take(i as int));
        assert(line_views(lines@).take(i + 1).last() == lines@[i as int]@);
        match read_line(lines[i].as_str()) {
            ParsedLine::Ignored => {},
            ParsedLine::Skipped(_) => {
                skipped += 1;
            },
            ParsedLine::Rule(rule) => {
                let ghost view = rule@;
                rules.push(rule);
                assert(rule_views(rules@) =~= before.push(view));
            },
        }
        i += 1;
    }
    assert(line_views(lines@).take(lines@.len() as int) =~= line_views(lines@));
    ParseOutcome { rules, skipped }
}

/// Lines of which none gives a rule give no rules: the empty list, or one
/// whose lines are all blank, comments or skipped.
pub proof fn lemma_no_rules(lines: Seq<Seq<char>>)
    requires
        forall|i: int| 0 <= i < lines.len() ==> !(parse_line(#[trigger] lines[i]) is Rule),
    ensures
        rules_of(lines).len() == 0,
    decreases lines.len(),
{
    if lines.len() > 0 {
        let rest = lines.drop_last();
        assert forall|i: int| 0 <= i < rest.len() implies !(parse_line(#[trigger] rest[i]) is Rule) by {
            assert(rest[i] == lines[i]);
        }
        lemma_no_rules(rest);
        assert(!(parse_line(lines[lines.len() - 1]) is Rule));
    }
}

/// Each line is read on its own: what two runs of lines give together is
/// what the first gives and then what the second gives, whatever faults
/// either holds.
pub proof fn lemma_lines_apart(first: Seq<Seq<char>>, second: Seq<Seq<char>>)
    ensures
        rules_of(first + second) == rules_of(first) + rules_of(second),
        skipped_of(first + second) == skipped_of(first) + skipped_of(second),
    decreases second.len(),
{
    if second.len() == 0 {
        assert(first + second =~= first);
        assert(rules_of(first) + rules_of(second) =~= rules_of(first));
    } else {
        let all = first + second;
        lemma_lines_apart(first, second.drop_last());
        assert(all.drop_last() =~= first + second.drop_last());
        assert(all.last() == second.last());
        match parse_line(second.last()) {
            LineOutcome::Rule(r) => {
                assert(rules_of(all) =~= rules_of(first) + rules_of(second));
            },
            _ => {},
        }
    }
}

/// Every line is counted once at most: the rules and the skipped lines are
/// no more than the lines.
pub proof fn lemma_counts(lines: Seq<Seq<char>>)
    ensures
        rules_of(lines).len() + skipped_of(lines) <= lines.len(),
    decreases lines.len(),
{
    if lines.len() > 0 {
        lemma_counts(lines.drop_last());
    }
}

} // verus!
