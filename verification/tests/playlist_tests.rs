use playlist_sync::extraction::get_tracks_from_messages;
use playlist_sync::messages::ChatRecord;
use playlist_sync::messages::MessageRecord;
use playlist_sync::playlist::{
    build_playlist_metadata, plan_reconciliation, refresh_metadata_today, PlaylistMembership,
};

/// The hex text of a string, uppercase digits, as the message store writes it.
fn hex_of(s: &str) -> Vec<u8> {
    let mut v = Vec::new();
    for b in s.bytes() {
        v.extend(format!("{:02X}", b).into_bytes());
    }
    v
}

fn track_url(id: &str) -> String {
    format!("https://open.spotify.com/track/{}", id)
}

const A: &str = "AAAAAAAAAAAAAAAAAAAAAA";
const B: &str = "BBBBBBBBBBBBBBBBBBBBBB";

fn page_of(n: usize, tag: u8) -> Vec<Vec<u8>> {
    let mut items = Vec::new();
    for k in 0..n {
        items.push(format!("{}{:021}", tag as char, k).into_bytes());
    }
    items
}

#[test]
fn pagination_accumulates_every_page() {
    // Pages of 100, 100 and 37 entries; only the last reports no next page.
    let mut membership = PlaylistMembership::new();
    assert_eq!(membership.page_request(), Some(0));
    membership.record_page(page_of(100, b'x'), true);
    assert_eq!(membership.page_request(), Some(100));
    membership.record_page(page_of(100, b'y'), true);
    assert_eq!(membership.page_request(), Some(200));
    membership.record_page(page_of(37, b'z'), false);
    assert_eq!(membership.page_request(), None);
    assert_eq!(membership.items.len(), 237);
    assert_eq!(membership.items[0], page_of(100, b'x')[0]);
    assert_eq!(membership.items[236], page_of(37, b'z')[36]);
}

#[test]
fn reconciliation_appends_only_the_missing() {
    let mut membership = PlaylistMembership::new();
    membership.record_page(vec![A.as_bytes().to_vec()], false);
    let extracted = vec![A.as_bytes().to_vec(), B.as_bytes().to_vec()];
    let plan = plan_reconciliation(&extracted, &membership);
    assert_eq!(plan.to_append, vec![B.as_bytes().to_vec()]);
    assert_eq!(plan.count_added(), 1);
    assert!(plan.refresh_metadata);
}

#[test]
fn reconciliation_noop_touches_nothing() {
    let mut membership = PlaylistMembership::new();
    membership.record_page(vec![A.as_bytes().to_vec(), B.as_bytes().to_vec()], false);
    let extracted = vec![B.as_bytes().to_vec(), A.as_bytes().to_vec()];
    let plan = plan_reconciliation(&extracted, &membership);
    assert!(plan.to_append.is_empty());
    assert_eq!(plan.count_added(), 0);
    assert!(!plan.refresh_metadata);
}

#[test]
fn reconciliation_of_nothing_is_a_noop() {
    let mut membership = PlaylistMembership::new();
    membership.record_page(Vec::new(), false);
    let plan = plan_reconciliation(&Vec::new(), &membership);
    assert!(plan.to_append.is_empty());
    assert!(!plan.refresh_metadata);
}

#[test]
fn metadata_is_built_from_chat_and_date() {
    let md = build_playlist_metadata(&String::from("Music"), &String::from("2024-05-01"));
    assert_eq!(md.title, "Music Archive - (Updated 2024-05-01)");
    assert_eq!(
        md.description,
        "All songs sent in the Music group chat. Last updated on 2024-05-01."
    );
}

#[test]
fn todays_metadata_embeds_the_returned_date() {
    let (md, date) = refresh_metadata_today(&String::from("Music"));
    assert_eq!(md.title, format!("Music Archive - (Updated {})", date));
    assert_eq!(
        md.description,
        format!("All songs sent in the Music group chat. Last updated on {}.", date)
    );
}

#[test]
fn end_to_end_run_appends_exactly_the_new_track() {
    // The conversation "Music" shares track A and then track B; the
    // playlist already holds A.  Reconciliation appends exactly B.
    let chats = vec![ChatRecord { id: 3, display_name: String::from("Music") }];
    let msgs = vec![
        MessageRecord { id: 1, chat_id: 3, timestamp: 100, raw_payload: hex_of(&track_url(A)) },
        MessageRecord { id: 2, chat_id: 3, timestamp: 200, raw_payload: hex_of(&track_url(B)) },
    ];
    let run = get_tracks_from_messages(&chats, msgs, &String::from("Music"), 0, None, None)
        .unwrap();
    assert_eq!(run.checkpoint, Some(2));

    let mut membership = PlaylistMembership::new();
    membership.record_page(vec![A.as_bytes().to_vec()], false);

    let plan = plan_reconciliation(&run.track_ids, &membership);
    assert_eq!(plan.to_append, vec![B.as_bytes().to_vec()]);
    assert_eq!(plan.count_added(), 1);
    assert!(plan.refresh_metadata);
}
