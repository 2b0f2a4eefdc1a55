use wave_core::index::CompiledIndex;
use wave_core::request::Request;
use wave_core::shield::{Decision, ResourceType};
use wave_core::store::FilterStore;

fn lines(list: &[&str]) -> Vec<String> {
    list.iter().map(|s| s.to_string()).collect()
}

fn request(url: &str) -> Request {
    Request::new(url, "https://mysite.com/", ResourceType::Script).unwrap()
}

#[test]
fn new_store_is_empty() {
    let store = FilterStore::new();
    assert_eq!(store.active().len(), 0);
}

#[test]
fn load_reports_counts() {
    let mut store = FilterStore::new();
    let report = store.load(&lines(&["||a.example^", "! note", "||", "b$x", "", "c"]));
    assert_eq!(report.accepted, 2);
    assert_eq!(report.skipped, 2);
    assert_eq!(store.active().len(), 2);
}

#[test]
fn handle_keeps_the_index_it_was_taken_on() {
    let mut store = FilterStore::new();
    store.load(&lines(&["||old.example^"]));
    let before = store.active();
    store.load(&lines(&["||new.example^"]));
    let after = store.active();
    let old_req = request("https://old.example/x");
    let new_req = request("https://new.example/x");
    assert_eq!(before.decide(&old_req).decision, Decision::Block);
    assert_eq!(before.decide(&new_req).decision, Decision::Allow);
    assert_eq!(after.decide(&old_req).decision, Decision::Allow);
    assert_eq!(after.decide(&new_req).decision, Decision::Block);
    assert_eq!(before.len(), 1);
    assert_eq!(before.rule(0).to_line(), "||old.example^");
}

#[test]
fn build_leaves_the_store_alone() {
    let mut store = FilterStore::new();
    store.load(&lines(&["||old.example^"]));
    let (index, report): (CompiledIndex, _) = FilterStore::build(&lines(&["||new.example^", "*"]));
    assert_eq!(report.accepted, 1);
    assert_eq!(report.skipped, 1);
    assert_eq!(store.active().rule(0).to_line(), "||old.example^");
    store.install(index);
    assert_eq!(store.active().rule(0).to_line(), "||new.example^");
}

#[test]
fn all_skipped_list_empties_the_store() {
    let mut store = FilterStore::new();
    store.load(&lines(&["||old.example^"]));
    let report = store.load(&lines(&["||", "^"]));
    assert_eq!(report.accepted, 0);
    assert_eq!(report.skipped, 2);
    assert_eq!(store.active().len(), 0);
    assert_eq!(
        store.active().decide(&request("https://old.example/x")).decision,
        Decision::Allow
    );
}
