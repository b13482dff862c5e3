use mitty_antenna::extract::extract_updates;
use mitty_antenna::pipeline::{compose_message, oldest_first, plan_notifications, run_pipeline, Store};
use mitty_antenna::MittyUpdate;

fn update(title: &str, body: &str) -> MittyUpdate {
    MittyUpdate::new(title.to_string(), body.to_string())
}

fn bodies(v: &[MittyUpdate]) -> Vec<String> {
    v.iter().map(|u| u.body.clone()).collect()
}

#[test]
fn store_keeps_bodies_unique() {
    let mut store = Store::new();
    store.insert_if_absent(update("12:00", "Hello"));
    store.insert_if_absent(update("12:30", "Hello"));
    store.insert_if_absent(update("12:05", "World"));
    let entries = store.entries();
    assert_eq!(bodies(&entries), vec!["Hello".to_string(), "World".to_string()]);
    assert_eq!(entries[0].title, "12:00");
}

#[test]
fn lookup_matches_exact_bodies_only() {
    let mut store = Store::new();
    store.insert_if_absent(update("12:00", "Hello"));
    assert!(store.lookup(&"Hello".to_string()));
    assert!(!store.lookup(&"Hello ".to_string()));
    assert!(!store.lookup(&"hello".to_string()));
}

#[test]
fn all_candidates_seen_means_zero_deliveries() {
    let mut store = Store::new();
    store.insert_if_absent(update("12:00", "Hello"));
    store.insert_if_absent(update("12:05", "World"));
    let extracted = vec![update("12:05", "World"), update("12:00", "Hello")];
    let outcomes = vec![true, true];
    let (report, store) = run_pipeline(&extracted, store, &outcomes);
    assert_eq!(report.attempts, 0);
    assert_eq!(report.delivered.len(), 0);
    assert!(!report.delivery_failed);
    assert_eq!(store.entries().len(), 2);
}

#[test]
fn second_run_does_not_renotify() {
    let store = Store::new();
    let extracted = vec![update("12:05", "World"), update("12:00", "Hello")];
    let outcomes = vec![true, true];
    let (first, store) = run_pipeline(&extracted, store, &outcomes);
    assert_eq!(first.delivered.len(), 2);
    let (second, store) = run_pipeline(&extracted, store, &outcomes);
    assert_eq!(second.delivered.len(), 0);
    assert_eq!(second.attempts, 0);
    assert_eq!(store.entries().len(), 2);
}

#[test]
fn notifications_go_out_oldest_first() {
    // The document lists newest first: C, B, A. Deliveries must run A, B, C.
    let store = Store::new();
    let extracted = vec![update("3", "C"), update("2", "B"), update("1", "A")];
    let outcomes = vec![true, true, true];
    let (report, _store) = run_pipeline(&extracted, store, &outcomes);
    assert_eq!(
        bodies(&report.delivered),
        vec!["A".to_string(), "B".to_string(), "C".to_string()]
    );
}

#[test]
fn failed_delivery_stops_the_walk() {
    // Three novel records; the second delivery fails: only the first is
    // notified and persisted, the rest wait for the next run.
    let store = Store::new();
    let extracted = vec![update("3", "C"), update("2", "B"), update("1", "A")];
    let outcomes = vec![true, false, true];
    let (report, store) = run_pipeline(&extracted, store, &outcomes);
    assert_eq!(bodies(&report.delivered), vec!["A".to_string()]);
    assert_eq!(report.attempts, 2);
    assert!(report.delivery_failed);
    assert_eq!(bodies(&store.entries()), vec!["A".to_string()]);
}

#[test]
fn skipped_known_records_do_not_consume_deliveries() {
    let mut store = Store::new();
    store.insert_if_absent(update("2", "B"));
    let extracted = vec![update("3", "C"), update("2", "B"), update("1", "A")];
    let outcomes = vec![true, true, true];
    let (report, _store) = run_pipeline(&extracted, store, &outcomes);
    assert_eq!(bodies(&report.delivered), vec!["A".to_string(), "C".to_string()]);
}

#[test]
fn end_to_end_two_new_records() {
    // Newest first on the page: World (12:05) above Hello (12:00).
    let doc = "<html><body><table><tr>\
        <td>DD/MM HH:MM<span>.</span>Scroll to the right to read!</td>\
        <td>12:05<span>.</span>World</td>\
        <td>12:00<span>.</span>Hello</td>\
        </tr></table></body></html>";
    let extracted = extract_updates(doc).unwrap();
    let store = Store::new();
    let outcomes = vec![true, true];
    let (report, store) = run_pipeline(&extracted, store, &outcomes);
    let messages: Vec<String> =
        report.delivered.iter().map(|u| compose_message("101", u)).collect();
    assert_eq!(
        messages,
        vec![
            "New transmission from Mitty received <@&101>\n>>> **12:00**: Hello".to_string(),
            "New transmission from Mitty received <@&101>\n>>> **12:05**: World".to_string(),
        ]
    );
    assert_eq!(bodies(&store.entries()), vec!["Hello".to_string(), "World".to_string()]);
}

#[test]
fn oldest_first_reverses() {
    let v = vec![update("3", "C"), update("2", "B"), update("1", "A")];
    let r = oldest_first(&v);
    assert_eq!(bodies(&r), vec!["A".to_string(), "B".to_string(), "C".to_string()]);
}

#[test]
fn plan_keeps_only_unseen_candidates() {
    let cands = vec![update("1", "A"), update("2", "B"), update("3", "C")];
    let seen = vec![false, true, false];
    let plan = plan_notifications(&cands, &seen);
    assert_eq!(bodies(&plan), vec!["A".to_string(), "C".to_string()]);
}

#[test]
fn display_line_joins_title_and_body() {
    assert_eq!(update("12:00", "Hello").display_line(), "12:00: Hello");
}
