use std::cell::Cell;
use std::cmp::Ordering;
use std::rc::Rc;

use demo_windows::{
    compare_names, set_open, Demo, DemoWindows, Demos, OpenWindows, VisibilitySet,
};

struct Stub {
    name: &'static str,
    calls: Rc<Cell<u32>>,
    closes_itself: bool,
}

impl Demo for Stub {
    fn name(&self) -> &'static str {
        self.name
    }

    fn show(&mut self, _ctx: &egui::CtxRef, open: &mut bool) {
        self.calls.set(self.calls.get() + 1);
        if self.closes_itself {
            *open = false;
        }
    }
}

fn stub(name: &'static str, closes_itself: bool) -> (Box<dyn Demo>, Rc<Cell<u32>>) {
    let calls = Rc::new(Cell::new(0));
    let demo: Box<dyn Demo> = Box::new(Stub {
        name,
        calls: calls.clone(),
        closes_itself,
    });
    (demo, calls)
}

fn strings(names: &[&str]) -> Vec<String> {
    names.iter().map(|s| s.to_string()).collect()
}

#[test]
fn set_open_twice_is_idempotent() {
    let mut s = VisibilitySet::new();
    set_open(&mut s, "Alpha", true);
    let once = s.names();
    set_open(&mut s, "Alpha", true);
    assert_eq!(s.names(), once);
    assert_eq!(s.len(), 1);
    assert!(s.is_open("Alpha"));

    set_open(&mut s, "Alpha", false);
    set_open(&mut s, "Alpha", false);
    assert_eq!(s.len(), 0);
    assert!(!s.is_open("Alpha"));
}

#[test]
fn round_trip_keeps_exactly_the_names() {
    let mut a = VisibilitySet::new();
    a.set_open("B", true);
    a.set_open("A", true);
    let mut b = VisibilitySet::new();
    b.set_open("A", true);
    b.set_open("B", true);
    assert_eq!(a.names(), strings(&["A", "B"]));
    assert_eq!(b.names(), a.names());

    let restored = VisibilitySet::from_names(&a.names());
    assert_eq!(restored.names(), strings(&["A", "B"]));
    assert_eq!(restored.len(), 2);
    assert!(restored.is_open("A") && restored.is_open("B"));
    assert!(!restored.is_open("C"));
}

#[test]
fn restoring_tolerates_order_and_repetition() {
    let s = VisibilitySet::from_names(&strings(&["Zoom", "Alpha", "Zoom", "Beta"]));
    assert_eq!(s.names(), strings(&["Alpha", "Beta", "Zoom"]));
    assert_eq!(s.len(), 3);
}

#[test]
fn listing_follows_str_order() {
    let s = VisibilitySet::from_names(&strings(&["b", "ab", "a", "B", "é", "z"]));
    let mut expected = strings(&["b", "ab", "a", "B", "é", "z"]);
    expected.sort();
    assert_eq!(s.names(), expected);
}

#[test]
fn compare_names_orders_like_str() {
    assert_eq!(compare_names("a", "b"), Ordering::Less);
    assert_eq!(compare_names("b", "a"), Ordering::Greater);
    assert_eq!(compare_names("ab", "ab"), Ordering::Equal);
    assert_eq!(compare_names("ab", "abc"), Ordering::Less);
    assert_eq!(compare_names("", "a"), Ordering::Less);
    assert_eq!(compare_names("", ""), Ordering::Equal);
    assert_eq!(compare_names("Z", "a"), Ordering::Less);
    assert_eq!(compare_names("é", "z"), Ordering::Greater);
}

#[test]
fn new_registry_opens_only_the_default() {
    let (a, _) = stub("Alpha", false);
    let (g, _) = stub("Widget Gallery", false);
    let (b, _) = stub("Beta", false);
    let demos = Demos::new(vec![a, g, b], "Widget Gallery");
    assert!(demos.is_open("Widget Gallery"));
    assert!(!demos.is_open("Alpha"));
    assert!(!demos.is_open("Beta"));
    assert_eq!(demos.open().names(), strings(&["Widget Gallery"]));
}

#[test]
fn show_skips_closed_demos() {
    let (a, a_calls) = stub("Alpha", false);
    let (b, b_calls) = stub("Beta", false);
    let (c, c_calls) = stub("Gamma", false);
    let mut demos = Demos::new(vec![a, b, c], "Beta");
    let ctx = egui::CtxRef::default();
    assert_eq!(demos.show(&ctx), vec![false, true, false]);
    assert_eq!(demos.show(&ctx), vec![false, true, false]);
    assert_eq!(a_calls.get(), 0);
    assert_eq!(b_calls.get(), 2);
    assert_eq!(c_calls.get(), 0);
    assert!(demos.is_open("Beta"));
}

#[test]
fn demo_closed_from_within_is_closed_after_show() {
    let (a, a_calls) = stub("Alpha", true);
    let (b, b_calls) = stub("Beta", false);
    let open = VisibilitySet::from_names(&strings(&["Alpha", "Beta"]));
    let mut demos = Demos::restore(vec![a, b], open);
    let ctx = egui::CtxRef::default();
    assert_eq!(demos.show(&ctx), vec![false, true]);
    assert_eq!(a_calls.get(), 1);
    assert_eq!(b_calls.get(), 1);
    assert!(!demos.is_open("Alpha"));
    assert!(demos.is_open("Beta"));
    assert_eq!(demos.show(&ctx), vec![false, true]);
    assert_eq!(a_calls.get(), 1);
    assert_eq!(b_calls.get(), 2);
}

#[test]
fn stale_persisted_names_are_inert() {
    let (a, a_calls) = stub("Alpha", false);
    let open = VisibilitySet::from_names(&strings(&["Removed Demo", "Alpha"]));
    let mut demos = Demos::restore(vec![a], open);
    let ctx = egui::CtxRef::default();
    demos.show(&ctx);
    demos.apply_clicks(&vec![false]);
    assert_eq!(a_calls.get(), 1);
    assert!(demos.is_open("Removed Demo"));
    assert!(demos.is_open("Alpha"));
    assert_eq!(demos.open().names(), strings(&["Alpha", "Removed Demo"]));
}

#[test]
fn alpha_beta_scenario() {
    let (a, a_calls) = stub("Alpha", false);
    let (b, b_calls) = stub("Beta", false);
    let mut demos = Demos::restore(vec![a, b], VisibilitySet::new());
    demos.set_open("Alpha", true);
    let ctx = egui::CtxRef::default();
    demos.show(&ctx);
    assert_eq!(a_calls.get(), 1);
    assert_eq!(b_calls.get(), 0);
    assert!(demos.is_open("Alpha"));
    assert!(!demos.is_open("Beta"));
}

#[test]
fn built_in_panels_start_hidden() {
    let none = OpenWindows::none();
    assert!(!none.settings && !none.inspection && !none.memory);
    let default = OpenWindows::default();
    assert!(!default.settings && !default.inspection && !default.memory);

    let (g, _) = stub("Widget Gallery", false);
    let host = DemoWindows::new(Demos::new(vec![g], "Widget Gallery"));
    assert!(!host.open_windows.settings);
    assert!(!host.open_windows.inspection);
    assert!(!host.open_windows.memory);
    assert!(host.demos.is_open("Widget Gallery"));
}

#[test]
fn duplicate_names_are_detected() {
    let (a, _) = stub("Alpha", false);
    let (b, _) = stub("Beta", false);
    let (a2, _) = stub("Alpha", false);
    let dup = Demos::new(vec![a, b, a2], "Beta");
    assert!(!dup.names_unique());

    let (a, _) = stub("Alpha", false);
    let (b, _) = stub("Beta", false);
    let fine = Demos::new(vec![a, b], "Beta");
    assert!(fine.names_unique());

    let empty = Demos::new(Vec::new(), "Beta");
    assert!(empty.names_unique());
    assert!(empty.is_open("Beta"));
}

#[test]
fn checklist_without_clicks_changes_nothing() {
    let (a, _) = stub("Alpha", false);
    let (b, _) = stub("Beta", false);
    let mut demos = Demos::new(vec![a, b], "Beta");
    assert_eq!(demos.names(), vec!["Alpha", "Beta"]);
    demos.apply_clicks(&vec![false, false]);
    assert!(!demos.is_open("Alpha"));
    assert!(demos.is_open("Beta"));
}

#[test]
fn clicks_flip_each_demo() {
    let (a, _) = stub("Alpha", false);
    let (b, _) = stub("Beta", false);
    let (c, _) = stub("Gamma", false);
    let open = VisibilitySet::from_names(&strings(&["Beta", "Stale"]));
    let mut demos = Demos::restore(vec![a, b, c], open);
    demos.apply_clicks(&vec![true, true, false]);
    assert!(demos.is_open("Alpha"));
    assert!(!demos.is_open("Beta"));
    assert!(!demos.is_open("Gamma"));
    assert!(demos.is_open("Stale"));
    assert_eq!(demos.open().names(), strings(&["Alpha", "Stale"]));
}

#[test]
fn alpha_beta_checklist_after_show() {
    let (a, a_calls) = stub("Alpha", false);
    let (b, b_calls) = stub("Beta", false);
    let mut demos = Demos::restore(vec![a, b], VisibilitySet::new());
    demos.set_open("Alpha", true);
    let ctx = egui::CtxRef::default();
    assert_eq!(demos.show(&ctx), vec![true, false]);
    assert_eq!((a_calls.get(), b_calls.get()), (1, 0));
    let names = demos.names();
    let ticked: Vec<bool> = names.iter().map(|n| demos.is_open(n)).collect();
    assert_eq!(ticked, vec![true, false]);
    demos.apply_clicks(&vec![false, false]);
    assert_eq!(demos.open().names(), strings(&["Alpha"]));
}

#[test]
fn panel_clicks_flip_only_their_flag() {
    let mut panels = OpenWindows::none();
    panels.apply_clicks((false, false, false));
    assert!(!panels.settings && !panels.inspection && !panels.memory);
    panels.apply_clicks((true, false, true));
    assert!(panels.settings && !panels.inspection && panels.memory);
    panels.apply_clicks((true, false, false));
    assert!(!panels.settings && !panels.inspection && panels.memory);
}
