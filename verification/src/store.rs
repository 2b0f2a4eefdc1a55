//! The filter store: the owner of the index that is in force.

use std::sync::Arc;
use vstd::prelude::*;
use crate::index::CompiledIndex;
use crate::parser::{line_views, parse, rules_of, skipped_of};
use crate::rule::RuleView;

verus! {

/// How a list was taken up.
#[derive(Debug, Clone, Copy, PartialEq, Eq, Structural)]
pub struct LoadReport {
    /// The number of lines that gave a rule.
    pub accepted: usize,
    /// The number of lines that were skipped for a fault.
    pub skipped: usize,
}

/// `std::sync::Arc::clone` hands out one more handle on the same value.
#[verifier::external_body]
fn share(handle: &Arc<CompiledIndex>) -> (other: Arc<CompiledIndex>)
    ensures
        other == *handle,
{
    Arc::clone(handle)
}

/// Holds the index in force. Readers take a handle on it and keep it for as
/// long as they match against it; a reload puts a new index in its place
/// and leaves the handles that are out untouched.
pub struct FilterStore {
    active: Arc<CompiledIndex>,
}

impl View for FilterStore {
    type V = Seq<RuleView>;

    /// The rules in force.
    closed spec fn view(&self) -> Seq<RuleView> {
        self.active@
    }
}

impl FilterStore {
    /// A store with no rule in force.
    pub fn new() -> (store: Self)
        ensures
            store@.len() == 0,
    {
        let index = CompiledIndex::compile(Vec::new());
        FilterStore { active: Arc::new(index) }
    }

    /// Reads and compiles a list without touching any store.
    pub fn build(lines: &Vec<String>) -> (built: (CompiledIndex, LoadReport))
        ensures
            built.0@ == rules_of(line_views(lines@)),
            built.1.accepted == rules_of(line_views(lines@)).len(),
            built.1.skipped == skipped_of(line_views(lines@)),
    {
        let outcome = parse(lines);
        let report = LoadReport { accepted: outcome.rules.len(), skipped: outcome.skipped };
        (CompiledIndex::compile(outcome.rules), report)
    }

    /// Puts an index in force in place of the one that was.
    pub fn install(&mut self, index: CompiledIndex)
        ensures
            final(self)@ == index@,
    {
        self.active = Arc::new(index);
    }

    /// Reads and compiles a list and puts it in force. A list that gives no
    /// rule puts the empty index in force.
    pub fn load(&mut self, lines: &Vec<String>) -> (report: LoadReport)
        ensures
            final(self)@ == rules_of(line_views(lines@)),
            report.accepted == rules_of(line_views(lines@)).len(),
            report.skipped == skipped_of(line_views(lines@)),
    {
        let (index, report) = Self::build(lines);
        self.install(index);
        report
    }

    /// A handle on the index in force.
    pub fn active(&self) -> (handle: Arc<CompiledIndex>)
        ensures
            handle@ == self@,
    {
        share(&self.active)
    }
}

} // verus!
