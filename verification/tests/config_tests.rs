use reki3::config::{ANNOUNCE_INTERVAL, DROP_THRESHOLD, LISTEN_ADDR, NUM_THREADS, REDIS_URL};

#[test]
fn check_announce_interval_test() {
    assert!(ANNOUNCE_INTERVAL > 0);
}

#[test]
fn check_drop_threshold_test() {
    assert!(DROP_THRESHOLD > ANNOUNCE_INTERVAL);
}

#[test]
fn default_settings_values() {
    assert_eq!(DROP_THRESHOLD, 180);
    assert_eq!(REDIS_URL, "redis://127.0.0.1:56002/");
    assert_eq!(LISTEN_ADDR, "0.0.0.0:9001");
    assert_eq!(NUM_THREADS, 10);
}
