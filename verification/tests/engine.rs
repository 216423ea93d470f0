use lbucket::engine::Engine;
use lbucket::errors::CacheError;

const NOW: u64 = 1_700_000_000;

#[test]
fn count_then_get_then_decay() {
    // COUNT "img1" 5; GET "img1" -> 1; after the scheduler fires: GET -> 0.
    let mut e = Engine::new();
    let timer = e.record_hit(NOW, 5, "img1");
    let t = timer.expect("first hit for a window must schedule a timer");
    assert_eq!(t.fire_after, 5);
    assert_eq!(t.pocket_instant, NOW + 5);
    assert_eq!(t.record_expiry, 35);
    assert_eq!(e.get("img1").unwrap(), 1);
    e.fire(NOW + 5);
    assert_eq!(e.get("img1").unwrap(), 0);
}

#[test]
fn same_window_shares_one_pocket() {
    // COUNT "img1" 5 twice and COUNT "img2" 5 once within the same second:
    // one pocket, one timer; firing zeroes both counters.
    let mut e = Engine::new();
    assert!(e.record_hit(NOW, 5, "img1").is_some());
    assert!(e.record_hit(NOW, 5, "img1").is_none());
    assert!(e.record_hit(NOW, 5, "img2").is_none());
    assert_eq!(e.pocket_count(), 1);
    assert_eq!(e.get("img1").unwrap(), 2);
    assert_eq!(e.get("img2").unwrap(), 1);
    e.fire(NOW + 5);
    assert_eq!(e.pocket_count(), 0);
    assert_eq!(e.get("img1").unwrap(), 0);
    assert_eq!(e.get("img2").unwrap(), 0);
}

#[test]
fn get_missing_is_not_found() {
    let e = Engine::new();
    let err = e.get("missing").unwrap_err();
    assert_eq!(err.msg, "key mcaptcha_cache:captcha:missing not found");
}

#[test]
fn net_decay_equals_net_increments() {
    // N hits in one window; after the window's pocket fires the counter is
    // back where it started.
    let mut e = Engine::new();
    for _ in 0..7 {
        e.record_hit(NOW, 10, "img");
    }
    assert_eq!(e.get("img").unwrap(), 7);
    e.fire(NOW + 10);
    assert_eq!(e.get("img").unwrap(), 0);
}

#[test]
fn distinct_windows_get_distinct_pockets() {
    let mut e = Engine::new();
    assert!(e.record_hit(NOW, 5, "img").is_some());
    assert!(e.record_hit(NOW, 8, "img").is_some());
    assert_eq!(e.pocket_count(), 2);
    assert_eq!(e.get("img").unwrap(), 2);
    e.fire(NOW + 5);
    assert_eq!(e.get("img").unwrap(), 1);
    e.fire(NOW + 8);
    assert_eq!(e.get("img").unwrap(), 0);
}

#[test]
fn external_delete_drops_pending_decrement() {
    // Deleting a counter before its decay must not make the fire routine
    // fail; its pending decrement is simply dropped.
    let mut e = Engine::new();
    e.record_hit(NOW, 5, "gone");
    e.record_hit(NOW, 5, "kept");
    e.remove_counter("gone");
    e.fire(NOW + 5);
    assert!(e.get("gone").is_err());
    assert_eq!(e.get("kept").unwrap(), 0);
}

#[test]
fn firing_absent_pocket_is_noop() {
    let mut e = Engine::new();
    e.record_hit(NOW, 5, "img");
    e.fire(NOW + 999);
    assert_eq!(e.get("img").unwrap(), 1);
    e.fire(NOW + 5);
    e.fire(NOW + 5);
    assert_eq!(e.get("img").unwrap(), 0);
}

#[test]
fn decay_clamps_at_zero() {
    // A counter deleted and re-created below its pending decay clamps at 0
    // rather than wrapping.
    let mut e = Engine::new();
    e.record_hit(NOW, 5, "img");
    e.record_hit(NOW, 8, "img");
    e.remove_counter("img");
    e.record_hit(NOW, 12, "img");
    assert_eq!(e.get("img").unwrap(), 1);
    e.fire(NOW + 5);
    assert_eq!(e.get("img").unwrap(), 0);
    e.fire(NOW + 8);
    assert_eq!(e.get("img").unwrap(), 0);
}

#[test]
fn empty_key_is_a_key() {
    let mut e = Engine::new();
    e.record_hit(NOW, 5, "");
    assert_eq!(e.get("").unwrap(), 1);
}

#[test]
fn largest_window_fits() {
    let mut e = Engine::new();
    let t = e.record_hit(0, u64::MAX - 30, "img").unwrap();
    assert_eq!(t.pocket_instant, u64::MAX - 30);
    assert_eq!(t.record_expiry, u64::MAX);
    assert_eq!(e.get("img").unwrap(), 1);
}

#[test]
fn bucket_increments_and_decays() {
    let mut e = Engine::new();
    let t = e
        .bucket_increment(5, "img")
        .expect("first bucket hit must schedule its key's timer");
    assert_eq!(t.fire_after, 5);
    assert_eq!(t.record_expiry, 35);
    assert!(e.bucket_increment(5, "img").is_none());
    assert!(e.bucket_increment(5, "other").is_some());
    assert_eq!(e.get("img").unwrap(), 2);
    e.fire_bucket("img");
    assert_eq!(e.get("img").unwrap(), 0);
    assert_eq!(e.get("other").unwrap(), 1);
}

#[test]
fn bucket_fire_without_bucket_is_noop() {
    let mut e = Engine::new();
    e.bucket_increment(5, "img");
    e.fire_bucket("absent");
    assert_eq!(e.get("img").unwrap(), 1);
}

#[test]
fn on_delete_is_idempotent() {
    let mut e = Engine::new();
    e.bucket_increment(5, "img");
    e.on_delete("img");
    e.on_delete("img");
    assert_eq!(e.get("img").unwrap(), 1);
    // the bucket record is gone, so the key's next hit owes a fresh timer
    assert!(e.bucket_increment(5, "img").is_some());
}

#[test]
fn cache_error_carries_message() {
    let err = CacheError::new(String::from("boom"));
    assert_eq!(err.msg, "boom");
    let err = CacheError::from(String::from("also boom"));
    assert_eq!(err.msg, "also boom");
}
