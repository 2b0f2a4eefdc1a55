//! The shield: the one entry point through which requests are judged.

use vstd::prelude::*;
use crate::index::{deciding_rule, decision_for, lemma_nothing_applies};
use crate::parser::{lemma_no_rules, line_views, parse_line, rules_of, skipped_of};
use crate::request::{address_parts, request_of, Request, RequestError, UrlPartsView};
use crate::rule::RuleView;
use crate::store::{FilterStore, LoadReport};
use crate::text::{chars_of, reads_as};

verus! {

/// What is to be done with a request.
#[derive(Debug, Clone, Copy, PartialEq, Eq, Structural)]
pub enum Decision {
    Allow,
    Block,
    /// Let the request through once tracking parameters are removed.
    Sanitize,
}

/// The kind of resource that a request fetches.
#[derive(Debug, Clone, Copy, PartialEq, Eq, Structural)]
pub enum ResourceType {
    Script,
    Image,
    XHR,
    Frame,
    Stylesheet,
    Other,
}

/// The resource type that a tag names; a tag that names none means `Other`.
pub open spec fn type_tagged(tag: Seq<char>) -> ResourceType {
    if tag == "script"@ {
        ResourceType::Script
    } else if tag == "image"@ {
        ResourceType::Image
    } else if tag == "xhr"@ {
        ResourceType::XHR
    } else if tag == "frame"@ {
        ResourceType::Frame
    } else if tag == "stylesheet"@ {
        ResourceType::Stylesheet
    } else {
        ResourceType::Other
    }
}

impl ResourceType {
    pub fn from_tag(tag: &str) -> (t: ResourceType)
        ensures
            t == type_tagged(tag@),
    {
        let word = chars_of(tag);
        if reads_as(&word, "script") {
            ResourceType::Script
        } else if reads_as(&word, "image") {
            ResourceType::Image
        } else if reads_as(&word, "xhr") {
            ResourceType::XHR
        } else if reads_as(&word, "frame") {
            ResourceType::Frame
        } else if reads_as(&word, "stylesheet") {
            ResourceType::Stylesheet
        } else {
            ResourceType::Other
        }
    }
}

/// A decision with what led to it.
#[derive(Debug, Clone, Copy, PartialEq, Eq, Structural)]
pub struct Verdict {
    pub decision: Decision,
    /// The first rule of the list that blocks the request, or, where it is
    /// sanitised, the first that strips it.
    pub rule: Option<usize>,
    /// The address that could not be read, where the request was allowed
    /// for that reason.
    pub fault: Option<RequestError>,
}

/// The decision on a request whose two addresses have been taken apart: a
/// shield that is off allows everything; a request whose addresses cannot be
/// read is allowed; any other is decided by the rules.
pub open spec fn judged(
    enabled: bool,
    rules: Seq<RuleView>,
    target: Option<UrlPartsView>,
    source: Option<UrlPartsView>,
    resource_type: ResourceType,
) -> Decision {
    if !enabled {
        Decision::Allow
    } else {
        match request_of(target, source, resource_type) {
            Ok(req) => decision_for(rules, req),
            Err(_) => Decision::Allow,
        }
    }
}

/// The address that makes a request unreadable, if one does.
pub open spec fn fault_of(
    enabled: bool,
    target: Option<UrlPartsView>,
    source: Option<UrlPartsView>,
    resource_type: ResourceType,
) -> Option<RequestError> {
    if !enabled {
        None
    } else {
        match request_of(target, source, resource_type) {
            Ok(_) => None,
            Err(e) => Some(e),
        }
    }
}

/// The rule that is reported with a decision: the one that decides, where
/// the rules were asked at all.
pub open spec fn reported(
    enabled: bool,
    rules: Seq<RuleView>,
    target: Option<UrlPartsView>,
    source: Option<UrlPartsView>,
    resource_type: ResourceType,
    rule: Option<usize>,
) -> bool {
    if !enabled {
        rule is None
    } else {
        match request_of(target, source, resource_type) {
            Ok(req) => deciding_rule(rules, req, rule),
            Err(_) => rule is None,
        }
    }
}

/// Once a list that gives no rule is loaded, every request is allowed.
pub proof fn lemma_empty_list_allows(
    lines: Seq<Seq<char>>,
    enabled: bool,
    target: Option<UrlPartsView>,
    source: Option<UrlPartsView>,
    resource_type: ResourceType,
)
    requires
        forall|i: int| 0 <= i < lines.len() ==> !(parse_line(#[trigger] lines[i]) is Rule),
    ensures
        judged(enabled, rules_of(lines), target, source, resource_type) == Decision::Allow,
{
    lemma_no_rules(lines);
    if enabled {
        match request_of(target, source, resource_type) {
            Ok(req) => {
                lemma_nothing_applies(rules_of(lines), req);
            },
            Err(_) => {},
        }
    }
}

/// The shield: a filter store and a switch.
pub struct WaveShield {
    enabled: bool,
    store: FilterStore,
}

impl WaveShield {
    /// The rules in force.
    pub closed spec fn rules(&self) -> Seq<RuleView> {
        self.store@
    }

    pub closed spec fn enabled(&self) -> bool {
        self.enabled
    }

    /// A shield that is on and has no rule.
    pub fn new() -> (shield: Self)
        ensures
            shield.enabled(),
            shield.rules().len() == 0,
    {
        Self { enabled: true, store: FilterStore::new() }
    }

    pub fn is_enabled(&self) -> (on: bool)
        ensures
            on == self.enabled(),
    {
        self.enabled
    }

    /// Switches the shield on or off. The rules stay.
    pub fn set_enabled(&mut self, on: bool)
        ensures
            final(self).enabled() == on,
            final(self).rules() == old(self).rules(),
    {
        self.enabled = on;
    }

    /// Reads a list and puts its rules in force in place of those that were.
    pub fn load_filters(&mut self, filter_lines: Vec<String>) -> (report: LoadReport)
        ensures
            final(self).rules() == rules_of(line_views(filter_lines@)),
            final(self).enabled() == old(self).enabled(),
            report.accepted == rules_of(line_views(filter_lines@)).len(),
            report.skipped == skipped_of(line_views(filter_lines@)),
    {
        self.store.load(&filter_lines)
    }

    /// Decides a request and says what led to the decision.
    pub fn check_request(&self, url: &str, source_url: &str, resource_type: &str) -> (verdict:
        Verdict)
        ensures
            verdict.decision == judged(
                self.enabled(),
                self.rules(),
                address_parts(url@),
                address_parts(source_url@),
                type_tagged(resource_type@),
            ),
            verdict.fault == fault_of(
                self.enabled(),
                address_parts(url@),
                address_parts(source_url@),
                type_tagged(resource_type@),
            ),
            reported(
                self.enabled(),
                self.rules(),
                address_parts(url@),
                address_parts(source_url@),
                type_tagged(resource_type@),
                verdict.rule,
            ),
    {
        if !self.enabled {
            return Verdict { decision: Decision::Allow, rule: None, fault: None };
        }
        let kind = ResourceType::from_tag(resource_type);
        match Request::new(url, source_url, kind) {
            Ok(request) => {
                let index = self.store.active();
                let outcome = index.decide(&request);
                Verdict { decision: outcome.decision, rule: outcome.rule, fault: None }
            },
            Err(e) => Verdict { decision: Decision::Allow, rule: None, fault: Some(e) },
        }
    }

    /// Decides a request.
    pub fn should_allow_request(&self, url: &str, source_url: &str, resource_type: &str) -> (decision:
        Decision)
        ensures
            decision == judged(
                self.enabled(),
                self.rules(),
                address_parts(url@),
                address_parts(source_url@),
                type_tagged(resource_type@),
            ),
    {
        self.check_request(url, source_url, resource_type).decision
    }
}

} // verus!
