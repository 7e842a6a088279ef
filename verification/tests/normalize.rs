use crowd_core::normalize::{canonical_event_order, canonical_id_order};

#[test]
fn ids_come_in_text_order_and_equal_ids_keep_their_order() {
    let ids = vec!["hall", "exit", "hall", "Zone", "atrium"];
    assert_eq!(canonical_id_order(&ids), vec![3, 4, 1, 0, 2]);
    assert_eq!(canonical_id_order(&Vec::new()), Vec::<usize>::new());
}

#[test]
fn events_come_by_tick_then_portal_then_closing_first() {
    let events = vec![(5, "door", true), (2, "gate", false), (5, "door", false), (5, "arch", true), (2, "gate", false)];
    assert_eq!(canonical_event_order(&events), vec![1, 4, 3, 2, 0]);
}
