use playlist_sync::payload::{extract_track_ids_from_message, hex_to_bytes, PayloadError};

/// The hex text of a string, uppercase digits, as the message store writes it.
fn hex_of(s: &str) -> Vec<u8> {
    let mut v = Vec::new();
    for b in s.bytes() {
        v.extend(format!("{:02X}", b).into_bytes());
    }
    v
}

#[test]
fn hex_decodes_pairs() {
    let bytes = hex_to_bytes(b"48656c6c6f").unwrap();
    assert_eq!(bytes, b"Hello".to_vec());
}

#[test]
fn hex_accepts_both_cases() {
    let lower = hex_to_bytes(b"4a4b4c").unwrap();
    let upper = hex_to_bytes(b"4A4B4C").unwrap();
    assert_eq!(lower, b"JKL".to_vec());
    assert_eq!(upper, b"JKL".to_vec());
}

#[test]
fn hex_rejects_odd_length() {
    assert_eq!(hex_to_bytes(b"48656"), Err(PayloadError::OddLength));
}

#[test]
fn hex_rejects_non_digit() {
    assert_eq!(hex_to_bytes(b"48zz"), Err(PayloadError::InvalidHexDigit));
}

#[test]
fn extracts_one_track_id() {
    let text = b"see https://open.spotify.com/track/AAAAAAAAAAAAAAAAAAAAAA today";
    let ids = extract_track_ids_from_message(text);
    assert_eq!(ids, vec![b"AAAAAAAAAAAAAAAAAAAAAA".to_vec()]);
}

#[test]
fn discards_ids_of_wrong_length() {
    // One identifier of twenty-one characters, one of twenty-three: both noise.
    let text = b"https://open.spotify.com/track/AAAAAAAAAAAAAAAAAAAAA \
                 https://open.spotify.com/track/BBBBBBBBBBBBBBBBBBBBBBB";
    let ids = extract_track_ids_from_message(text);
    assert!(ids.is_empty());
}

#[test]
fn keeps_duplicates_within_a_message() {
    // Deduplication happens at the driver level, not here.
    let text = b"https://open.spotify.com/track/AAAAAAAAAAAAAAAAAAAAAA and \
                 https://open.spotify.com/track/AAAAAAAAAAAAAAAAAAAAAA";
    let ids = extract_track_ids_from_message(text);
    assert_eq!(ids.len(), 2);
}

#[test]
fn id_run_stops_at_query_string() {
    let text = b"https://open.spotify.com/track/AAAAAAAAAAAAAAAAAAAAAA?si=xyz";
    let ids = extract_track_ids_from_message(text);
    assert_eq!(ids, vec![b"AAAAAAAAAAAAAAAAAAAAAA".to_vec()]);
}

#[test]
fn hex_of_round_trips_through_decoder() {
    let payload = hex_of("plain text with no links");
    let bytes = hex_to_bytes(&payload).unwrap();
    assert_eq!(bytes, b"plain text with no links".to_vec());
}
