use mitty_antenna::extract::{decode_cell, extract_from_tables, extract_updates, is_anchor_cell, Cell, Table};
use mitty_antenna::MittyAntennaError;

fn cell(texts: &[&str]) -> Cell {
    Cell { texts: texts.iter().map(|t| t.to_string()).collect() }
}

const ANCHOR_TD: &str = "<td>DD/MM HH:MM<span>.</span>Scroll to the right to read!</td>";

fn page(extra_tds: &str) -> String {
    format!("<html><body><table><tr>{}{}</tr></table></body></html>", ANCHOR_TD, extra_tds)
}

#[test]
fn extracts_records_after_anchor() {
    let doc = page("<td>12:05<span>.</span>World</td><td>12:00<span>.</span>Hello</td>");
    let updates = extract_updates(&doc).unwrap();
    assert_eq!(updates.len(), 2);
    assert_eq!(updates[0].title, "12:05");
    assert_eq!(updates[0].body, "World");
    assert_eq!(updates[1].title, "12:00");
    assert_eq!(updates[1].body, "Hello");
}

#[test]
fn extraction_is_deterministic() {
    let doc = page("<td>12:05<span>.</span>World</td><td>12:00<span>.</span>Hello</td>");
    let a = extract_updates(&doc).unwrap();
    let b = extract_updates(&doc).unwrap();
    assert_eq!(a.len(), b.len());
    for (x, y) in a.iter().zip(b.iter()) {
        assert_eq!(x.title, y.title);
        assert_eq!(x.body, y.body);
    }
}

#[test]
fn no_anchor_is_a_parse_error() {
    let doc = "<html><body><table><tr><td>just<span>.</span>noise</td></tr></table></body></html>";
    let err = extract_updates(doc).unwrap_err();
    assert!(matches!(err, MittyAntennaError::UpdateBoard(_)));
    assert_eq!(err.message(), "update board parsing error: No posts found in HTML");
}

#[test]
fn document_without_tables_is_a_parse_error() {
    let err = extract_updates("<html><body><p>nothing here</p></body></html>").unwrap_err();
    assert!(matches!(err, MittyAntennaError::UpdateBoard(_)));
}

#[test]
fn sentinel_keeps_earlier_records_and_drops_later_ones() {
    let doc = page(
        "<td>12:10<span>.</span>Kept</td>\
         <td>12:05<span>.</span>[CORRUPTED DATA] [RESTARTING...]</td>\
         <td>12:00<span>.</span>Dropped</td>",
    );
    let updates = extract_updates(&doc).unwrap();
    assert_eq!(updates.len(), 1);
    assert_eq!(updates[0].body, "Kept");
}

#[test]
fn sentinel_right_after_anchor_succeeds_with_no_records() {
    let doc = page("<td>12:05<span>.</span>[CORRUPTED DATA] [RESTARTING...]</td>");
    let updates = extract_updates(&doc).unwrap();
    assert_eq!(updates.len(), 0);
}

#[test]
fn undecodable_cells_are_silently_dropped() {
    let doc = page("<td>lonely</td><td>12:00<span>.</span>Hello</td><td></td>");
    let updates = extract_updates(&doc).unwrap();
    assert_eq!(updates.len(), 1);
    assert_eq!(updates[0].body, "Hello");
}

#[test]
fn first_yielding_container_wins() {
    let doc = format!(
        "<html><body>\
         <table><tr><td>plain<span>.</span>table</td></tr></table>\
         <table><tr>{}<td>12:00<span>.</span>First</td></tr></table>\
         <table><tr>{}<td>12:00<span>.</span>Second</td></tr></table>\
         </body></html>",
        ANCHOR_TD, ANCHOR_TD
    );
    let updates = extract_updates(&doc).unwrap();
    assert_eq!(updates.len(), 1);
    assert_eq!(updates[0].body, "First");
}

#[test]
fn titles_and_bodies_are_trimmed() {
    let tables = vec![Table {
        cells: vec![
            cell(&["  DD/MM HH:MM  ", ".", "  Scroll to the right to read!  "]),
            cell(&["  12:00 ", ".", "\n Hello \t"]),
        ],
    }];
    let updates = extract_from_tables(&tables).unwrap();
    assert_eq!(updates.len(), 1);
    assert_eq!(updates[0].title, "12:00");
    assert_eq!(updates[0].body, "Hello");
}

#[test]
fn anchor_cell_recognition_is_exact() {
    assert!(is_anchor_cell(&cell(&["DD/MM HH:MM", ".", "Scroll to the right to read!"])));
    assert!(is_anchor_cell(&cell(&[" DD/MM HH:MM ", "anything", "Scroll to the right to read!"])));
    assert!(!is_anchor_cell(&cell(&["DD/MM HH:MM", ".", "Scroll to the left to read!"])));
    assert!(!is_anchor_cell(&cell(&["DD/MM HH:MM", "."])));
    assert!(!is_anchor_cell(&cell(&[])));
}

#[test]
fn decode_cell_takes_first_and_third_nodes() {
    let decoded = decode_cell(&cell(&[" 12:00", ".", "Hello ", "extra"])).unwrap();
    assert_eq!(decoded.title, "12:00");
    assert_eq!(decoded.body, "Hello");
    assert!(decode_cell(&cell(&["only", "two"])).is_none());
}

#[test]
fn error_messages_name_their_kind() {
    assert_eq!(
        MittyAntennaError::Transport("timeout".to_string()).message(),
        "transport error: timeout"
    );
    assert_eq!(MittyAntennaError::Store("locked".to_string()).message(), "store error: locked");
}

#[test]
fn anchor_markers_in_candidate_position_are_records() {
    let doc = page(&format!("<td>12:00<span>.</span>Hello</td>{}", ANCHOR_TD));
    let updates = extract_updates(&doc).unwrap();
    assert_eq!(updates.len(), 2);
    assert_eq!(updates[0].body, "Hello");
    assert_eq!(updates[1].title, "DD/MM HH:MM");
    assert_eq!(updates[1].body, "Scroll to the right to read!");
}
