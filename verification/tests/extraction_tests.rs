use playlist_sync::checkpoint::{
    format_checkpoint, next_checkpoint, parse_checkpoint, should_skip_extraction,
};
use playlist_sync::extraction::{extract_track_ids, get_tracks_from_messages};
use playlist_sync::messages::{get_chat_id, get_messages, ChatRecord, MessageRecord, StoreError};

/// The hex text of a string, uppercase digits, as the message store writes it.
fn hex_of(s: &str) -> Vec<u8> {
    let mut v = Vec::new();
    for b in s.bytes() {
        v.extend(format!("{:02X}", b).into_bytes());
    }
    v
}

fn track_url(id: &str) -> String {
    format!("https://open.spotify.com/track/{}", id)
}

fn message(id: i64, chat_id: i64, timestamp: i64, text: &str) -> MessageRecord {
    MessageRecord { id, chat_id, timestamp, raw_payload: hex_of(text) }
}

const A: &str = "AAAAAAAAAAAAAAAAAAAAAA";
const B: &str = "BBBBBBBBBBBBBBBBBBBBBB";
const C: &str = "CCCCCCCCCCCCCCCCCCCCCC";

#[test]
fn resolves_first_matching_chat() {
    let chats = vec![
        ChatRecord { id: 7, display_name: String::from("Other") },
        ChatRecord { id: 12, display_name: String::from("Music") },
        ChatRecord { id: 44, display_name: String::from("Music") },
    ];
    assert_eq!(get_chat_id(&chats, &String::from("Music")), Ok(12));
}

#[test]
fn missing_chat_is_an_error_not_an_empty_result() {
    let chats = vec![ChatRecord { id: 7, display_name: String::from("Other") }];
    assert_eq!(
        get_chat_id(&chats, &String::from("Music")),
        Err(StoreError::ConversationNotFound)
    );
}

#[test]
fn selection_filters_and_sorts() {
    let msgs = vec![
        // Later timestamp, listed first: must come out last.
        message(5, 1, 300, &track_url(B)),
        // Other chat: dropped.
        message(6, 2, 100, &track_url(A)),
        // No track signature: dropped.
        message(7, 1, 150, "just words"),
        // Before the window: dropped.
        message(8, 1, 10, &track_url(A)),
        message(9, 1, 200, &track_url(A)),
    ];
    let sel = get_messages(msgs, 1, 100, Some(1000));
    let ids: Vec<i64> = sel.iter().map(|m| m.id).collect();
    assert_eq!(ids, vec![9, 5]);
}

#[test]
fn equal_timestamps_break_ties_by_id() {
    let msgs = vec![
        message(22, 1, 100, &track_url(B)),
        message(21, 1, 100, &track_url(A)),
    ];
    let sel = get_messages(msgs, 1, 0, None);
    let ids: Vec<i64> = sel.iter().map(|m| m.id).collect();
    assert_eq!(ids, vec![21, 22]);
}

#[test]
fn signature_matches_either_hex_case() {
    // The store may render hex in either case; the coarse filter must not care.
    let upper = hex_of(&track_url(A));
    let lower: Vec<u8> = upper.iter().map(|b| b.to_ascii_lowercase()).collect();
    let msgs = vec![
        MessageRecord { id: 1, chat_id: 1, timestamp: 10, raw_payload: lower },
        MessageRecord { id: 2, chat_id: 1, timestamp: 20, raw_payload: upper },
    ];
    let sel = get_messages(msgs, 1, 0, None);
    assert_eq!(sel.len(), 2);
}

#[test]
fn dedup_keeps_first_appearance_order() {
    // References appear as a, b, a, c, b across the batch.
    let msgs = vec![
        message(1, 1, 10, &format!("{} {}", track_url(A), track_url(B))),
        message(2, 1, 20, &format!("{} {}", track_url(A), track_url(C))),
        message(3, 1, 30, &track_url(B)),
    ];
    let out = extract_track_ids(&msgs);
    assert_eq!(
        out,
        vec![A.as_bytes().to_vec(), B.as_bytes().to_vec(), C.as_bytes().to_vec()]
    );
}

#[test]
fn malformed_payload_is_isolated() {
    let mut bad = hex_of(&track_url(B));
    bad.pop(); // odd length: the decoder must reject exactly this message
    let msgs = vec![
        message(1, 1, 10, &track_url(A)),
        MessageRecord { id: 2, chat_id: 1, timestamp: 20, raw_payload: bad },
        message(3, 1, 30, &track_url(C)),
    ];
    let out = extract_track_ids(&msgs);
    assert_eq!(out, vec![A.as_bytes().to_vec(), C.as_bytes().to_vec()]);
}

#[test]
fn parse_checkpoint_reads_decimal_text() {
    assert_eq!(parse_checkpoint(&Some(b"12345".to_vec())), Some(12345));
}

#[test]
fn parse_checkpoint_absent_is_no_checkpoint() {
    assert_eq!(parse_checkpoint(&None), None);
}

#[test]
fn parse_checkpoint_garbage_is_no_checkpoint() {
    assert_eq!(parse_checkpoint(&Some(b"12x4".to_vec())), None);
    assert_eq!(parse_checkpoint(&Some(b"".to_vec())), None);
    assert_eq!(parse_checkpoint(&Some(b"-7".to_vec())), None);
}

#[test]
fn parse_checkpoint_rejects_values_beyond_the_id_type() {
    assert_eq!(parse_checkpoint(&Some(b"9223372036854775807".to_vec())), Some(i64::MAX));
    assert_eq!(parse_checkpoint(&Some(b"9223372036854775808".to_vec())), None);
}

#[test]
fn format_checkpoint_writes_decimal_text() {
    assert_eq!(format_checkpoint(0), b"0".to_vec());
    assert_eq!(format_checkpoint(40570), b"40570".to_vec());
}

#[test]
fn checkpoint_round_trips_through_its_text() {
    for id in [0, 7, 10, 99, 40570, i64::MAX] {
        assert_eq!(parse_checkpoint(&Some(format_checkpoint(id))), Some(id));
    }
}

#[test]
fn skip_rule_compares_newest_to_checkpoint() {
    assert!(should_skip_extraction(42, Some(42)));
    assert!(!should_skip_extraction(42, Some(41)));
    assert!(!should_skip_extraction(42, None));
}

#[test]
fn empty_window_leaves_checkpoint_alone() {
    assert_eq!(next_checkpoint(Some(9), None), Some(9));
    assert_eq!(next_checkpoint(None, None), None);
    assert_eq!(next_checkpoint(Some(9), Some(11)), Some(11));
}

#[test]
fn run_extracts_and_checkpoints_newest_id() {
    let chats = vec![ChatRecord { id: 1, display_name: String::from("Music") }];
    let msgs = vec![
        message(10, 1, 100, &track_url(A)),
        message(11, 1, 200, &track_url(B)),
    ];
    let out = get_tracks_from_messages(&chats, msgs, &String::from("Music"), 0, None, None)
        .unwrap();
    assert_eq!(out.track_ids, vec![A.as_bytes().to_vec(), B.as_bytes().to_vec()]);
    assert_eq!(out.checkpoint, Some(11));
}

#[test]
fn second_run_is_idempotent() {
    let chats = vec![ChatRecord { id: 1, display_name: String::from("Music") }];
    let build = || {
        vec![
            message(10, 1, 100, &track_url(A)),
            message(11, 1, 200, &track_url(B)),
        ]
    };
    let first = get_tracks_from_messages(&chats, build(), &String::from("Music"), 0, None, None)
        .unwrap();
    assert_eq!(first.checkpoint, Some(11));
    let second = get_tracks_from_messages(
        &chats,
        build(),
        &String::from("Music"),
        0,
        None,
        first.checkpoint,
    )
    .unwrap();
    assert!(second.track_ids.is_empty());
    assert_eq!(second.checkpoint, Some(11));
}

#[test]
fn unresolved_conversation_aborts_the_run() {
    let msgs = vec![message(10, 1, 100, &track_url(A))];
    let r = get_tracks_from_messages(&Vec::new(), msgs, &String::from("Music"), 0, None, None);
    assert_eq!(r.unwrap_err(), StoreError::ConversationNotFound);
}

#[test]
fn empty_window_yields_nothing_and_keeps_checkpoint() {
    let chats = vec![ChatRecord { id: 1, display_name: String::from("Music") }];
    let out = get_tracks_from_messages(
        &chats,
        Vec::new(),
        &String::from("Music"),
        0,
        None,
        Some(5),
    )
    .unwrap();
    assert!(out.track_ids.is_empty());
    assert_eq!(out.checkpoint, Some(5));
}
