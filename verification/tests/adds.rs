use playlist_sync::add;

#[test]
fn main_test_add() {
    assert_eq!(add(1, 2), 3);
}

#[test]
fn messages_scraper_test_add() {
    assert_eq!(add(1, 2), 3);
}

#[test]
fn playlist_handler_test_add() {
    assert_eq!(add(1, 2), 3);
}
