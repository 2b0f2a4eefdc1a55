//! Filter rules: one parsed line of a block list.

use vstd::prelude::*;
use crate::shield::ResourceType;
use crate::text::{is_space, lower, views};

verus! {

/// A set of resource types. The empty set stands for every type.
#[derive(Debug, Clone, Copy, PartialEq, Eq, Structural)]
pub struct TypeSet {
    pub script: bool,
    pub image: bool,
    pub xhr: bool,
    pub frame: bool,
    pub stylesheet: bool,
    pub other: bool,
}

impl TypeSet {
    pub open spec fn none() -> TypeSet {
        TypeSet {
            script: false,
            image: false,
            xhr: false,
            frame: false,
            stylesheet: false,
            other: false,
        }
    }

    pub open spec fn has(self, t: ResourceType) -> bool {
        match t {
            ResourceType::Script => self.script,
            ResourceType::Image => self.image,
            ResourceType::XHR => self.xhr,
            ResourceType::Frame => self.frame,
            ResourceType::Stylesheet => self.stylesheet,
            ResourceType::Other => self.other,
        }
    }

    pub open spec fn plus(self, t: ResourceType) -> TypeSet {
        match t {
            ResourceType::Script => TypeSet { script: true, ..self },
            ResourceType::Image => TypeSet { image: true, ..self },
            ResourceType::XHR => TypeSet { xhr: true, ..self },
            ResourceType::Frame => TypeSet { frame: true, ..self },
            ResourceType::Stylesheet => TypeSet { stylesheet: true, ..self },
            ResourceType::Other => TypeSet { other: true, ..self },
        }
    }

    /// A rule with this set applies to requests of type `t`.
    pub open spec fn admits(self, t: ResourceType) -> bool {
        self == TypeSet::none() || self.has(t)
    }

    pub fn empty() -> (set: TypeSet)
        ensures
            set == TypeSet::none(),
    {
        TypeSet {
            script: false,
            image: false,
            xhr: false,
            frame: false,
            stylesheet: false,
            other: false,
        }
    }

    pub fn is_empty(&self) -> (empty: bool)
        ensures
            empty == (*self == TypeSet::none()),
    {
        !self.script && !self.image && !self.xhr && !self.frame && !self.stylesheet && !self.other
    }

    pub fn contains(&self, t: ResourceType) -> (found: bool)
        ensures
            found == self.has(t),
    {
        match t {
            ResourceType::Script => self.script,
            ResourceType::Image => self.image,
            ResourceType::XHR => self.xhr,
            ResourceType::Frame => self.frame,
            ResourceType::Stylesheet => self.stylesheet,
            ResourceType::Other => self.other,
        }
    }

    pub fn insert(&mut self, t: ResourceType)
        ensures
            *final(self) == old(self).plus(t),
    {
        match t {
            ResourceType::Script => self.script = true,
            ResourceType::Image => self.image = true,
            ResourceType::XHR => self.xhr = true,
            ResourceType::Frame => self.frame = true,
            ResourceType::Stylesheet => self.stylesheet = true,
            ResourceType::Other => self.other = true,
        }
    }
}

/// A character that may stand in a literal token of a pattern: not a blank,
/// none of the characters that the rule syntax reserves, no ASCII capital.
pub open spec fn is_token_char(c: char) -> bool {
    !is_space(c) && c != '*' && c != '$' && c != '^' && c != '|' && lower(c) == c
}

/// A character that may stand in a domain of a rule's `domain=` option.
pub open spec fn is_domain_char(c: char) -> bool {
    !is_space(c) && c != ',' && c != '$' && c != '|' && lower(c) == c
}

pub open spec fn is_token(t: Seq<char>) -> bool {
    t.len() > 0 && forall|i: int| 0 <= i < t.len() ==> is_token_char(#[trigger] t[i])
}

pub open spec fn is_domain(d: Seq<char>) -> bool {
    d.len() > 0 && d[0] != '~' && forall|i: int| 0 <= i < d.len() ==> is_domain_char(#[trigger] d[i])
}

pub open spec fn all_distinct(list: Seq<Seq<char>>) -> bool {
    forall|i: int, j: int| 0 <= i < j < list.len() ==> list[i] != list[j]
}

pub open spec fn disjoint(a: Seq<Seq<char>>, b: Seq<Seq<char>>) -> bool {
    forall|i: int, j: int| 0 <= i < a.len() && 0 <= j < b.len() ==> a[i] != b[j]
}

/// What a rule says.
pub struct RuleView {
    /// The literal tokens of the pattern, in order. Between two of them any
    /// text may stand.
    pub tokens: Seq<Seq<char>>,
    /// The rule allows what it matches, whatever other rules say.
    pub is_exception: bool,
    /// The first token must begin where a label of the target's host begins.
    pub host_anchor: bool,
    /// The first token must begin where the address begins.
    pub start_anchor: bool,
    /// The last token must end where the address ends or a separator follows.
    pub end_anchor: bool,
    /// The resource types the rule is for; empty for all.
    pub types: TypeSet,
    /// Where not empty, the rule is only for pages of these domains.
    pub included: Seq<Seq<char>>,
    /// The rule is never for pages of these domains.
    pub excluded: Seq<Seq<char>>,
    /// The rule is only for requests that leave the page's own domain.
    pub third_party_only: bool,
    /// The rule's author marked it as one that strips: a match asks for the
    /// tracking parameters to be removed, not for the request to be blocked.
    pub strip: bool,
}

impl RuleView {
    /// What holds of every rule: it has a token, its tokens and domains are
    /// made of characters that the line syntax can carry, it is anchored at
    /// one place at most, and no domain is named twice or on both sides.
    pub open spec fn wf(self) -> bool {
        &&& self.tokens.len() > 0
        &&& forall|k: int| 0 <= k < self.tokens.len() ==> is_token(#[trigger] self.tokens[k])
        &&& !(self.host_anchor && self.start_anchor)
        &&& forall|i: int| 0 <= i < self.included.len() ==> is_domain(#[trigger] self.included[i])
        &&& forall|i: int| 0 <= i < self.excluded.len() ==> is_domain(#[trigger] self.excluded[i])
        &&& all_distinct(self.included)
        &&& all_distinct(self.excluded)
        &&& disjoint(self.included, self.excluded)
    }
}

/// One rule of a block list.
#[derive(Debug)]
pub struct FilterRule {
    pattern: Vec<Vec<char>>,
    is_exception: bool,
    host_anchor: bool,
    start_anchor: bool,
    end_anchor: bool,
    resource_types: TypeSet,
    included: Vec<Vec<char>>,
    excluded: Vec<Vec<char>>,
    third_party_only: bool,
    strip: bool,
}

impl View for FilterRule {
    type V = RuleView;

    closed spec fn view(&self) -> RuleView {
        RuleView {
            tokens: views(self.pattern@),
            is_exception: self.is_exception,
            host_anchor: self.host_anchor,
            start_anchor: self.start_anchor,
            end_anchor: self.end_anchor,
            types: self.resource_types,
            included: views(self.included@),
            excluded: views(self.excluded@),
            third_party_only: self.third_party_only,
            strip: self.strip,
        }
    }
}

/// What a vector of rules says.
pub open spec fn rule_views(rules: Seq<FilterRule>) -> Seq<RuleView> {
    Seq::new(rules.len(), |i: int| rules[i]@)
}

impl FilterRule {
    #[verifier::type_invariant]
    closed spec fn valid(&self) -> bool {
        self@.wf()
    }

    /// Puts a rule together from its parts.
    pub(crate) fn assemble(
        pattern: Vec<Vec<char>>,
        is_exception: bool,
        host_anchor: bool,
        start_anchor: bool,
        end_anchor: bool,
        resource_types: TypeSet,
        included: Vec<Vec<char>>,
        excluded: Vec<Vec<char>>,
        third_party_only: bool,
        strip: bool,
    ) -> (rule: FilterRule)
        requires
            (RuleView {
                tokens: views(pattern@),
                is_exception,
                host_anchor,
                start_anchor,
                end_anchor,
                types: resource_types,
                included: views(included@),
                excluded: views(excluded@),
                third_party_only,
                strip,
            }).wf(),
        ensures
            rule@ == (RuleView {
                tokens: views(pattern@),
                is_exception,
                host_anchor,
                start_anchor,
                end_anchor,
                types: resource_types,
                included: views(included@),
                excluded: views(excluded@),
                third_party_only,
                strip,
            }),
    {
        FilterRule {
            pattern,
            is_exception,
            host_anchor,
            start_anchor,
            end_anchor,
            resource_types,
            included,
            excluded,
            third_party_only,
            strip,
        }
    }

    pub fn token_count(&self) -> (n: usize)
        ensures
            n == self@.tokens.len(),
            n > 0,
            self@.wf(),
    {
        proof {
            use_type_invariant(self);
        }
        self.pattern.len()
    }

    pub fn token(&self, k: usize) -> (t: &Vec<char>)
        requires
            k < self@.tokens.len(),
        ensures
            t@ == self@.tokens[k as int],
            t@.len() > 0,
    {
        proof {
            use_type_invariant(self);
        }
        &self.pattern[k]
    }

    pub fn is_exception(&self) -> (b: bool)
        ensures
            b == self@.is_exception,
    {
        self.is_exception
    }

    pub fn host_anchor(&self) -> (b: bool)
        ensures
            b == self@.host_anchor,
    {
        self.host_anchor
    }

    pub fn start_anchor(&self) -> (b: bool)
        ensures
            b == self@.start_anchor,
    {
        self.start_anchor
    }

    pub fn end_anchor(&self) -> (b: bool)
        ensures
            b == self@.end_anchor,
    {
        self.end_anchor
    }

    pub fn resource_types(&self) -> (set: TypeSet)
        ensures
            set == self@.types,
    {
        self.resource_types
    }

    pub fn included(&self) -> (list: &Vec<Vec<char>>)
        ensures
            views(list@) == self@.included,
    {
        &self.included
    }

    pub fn excluded(&self) -> (list: &Vec<Vec<char>>)
        ensures
            views(list@) == self@.excluded,
    {
        &self.excluded
    }

    pub fn third_party_only(&self) -> (b: bool)
        ensures
            b == self@.third_party_only,
    {
        self.third_party_only
    }

    pub fn strip(&self) -> (b: bool)
        ensures
            b == self@.strip,
    {
        self.strip
    }
}

} // verus!
