use reki3::routing::{greeting, is_announce_path, query_of_path, reply_body};

#[test]
fn announce_paths() {
    assert!(is_announce_path(b"/announce?info_hash=x"));
    assert!(is_announce_path(b"/announce"));
    assert!(is_announce_path(b"/announcement"));
    assert!(!is_announce_path(b"/scrape"));
    assert!(!is_announce_path(b"/annou"));
}

#[test]
fn query_of_paths() {
    assert_eq!(query_of_path(b"/announce?a=1&b=2"), b"a=1&b=2");
    assert_eq!(query_of_path(b"/announce?a=1?b"), b"a=1?b");
    assert_eq!(query_of_path(b"/announce"), b"");
}

#[test]
fn reply_bodies() {
    assert_eq!(greeting(), b"Hi".to_vec());
    assert_eq!(reply_body(Ok(vec![1, 2])), vec![1, 2]);
    assert_eq!(reply_body(Err("No port specified".to_string())), b"No port specified\n".to_vec());
}
