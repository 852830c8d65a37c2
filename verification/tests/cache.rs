use df::image_storage::ImageStorage;
use poll_promise::Promise;

type Cache = ImageStorage<String, String>;

#[test]
fn empty_cache_misses_and_drains() {
    let mut cache = Cache::new();
    assert!(cache.get("anything").is_none());
    assert!(!cache.in_queue("anything"));
    cache.update_state();
    assert!(cache.queued_keys().is_empty());
}

#[test]
fn request_twice_same_cycle_queues_once() {
    let mut cache = Cache::new();
    let (_sender, promise) = Promise::new();
    let mut first_spawned = false;
    cache.request("img1", |_key| {
        first_spawned = true;
        promise
    });
    assert!(first_spawned);

    let (_sender2, promise2) = Promise::new();
    let mut second_spawned = false;
    cache.request("img1", |_key| {
        second_spawned = true;
        promise2
    });
    assert!(!second_spawned, "a key already in flight must not spawn again");
    assert_eq!(cache.queued_keys(), vec!["img1".to_owned()]);
}

#[test]
fn fetch_closure_receives_the_key() {
    let mut cache = Cache::new();
    let mut seen = String::new();
    let (_sender, promise) = Promise::new();
    cache.request("sword", |key| {
        seen = key;
        promise
    });
    assert_eq!(seen, "sword");
}

#[test]
fn drain_moves_ready_and_keeps_pending_in_order() {
    let mut cache = Cache::new();
    let (sender_a, promise_a) = Promise::new();
    let (sender_b, promise_b) = Promise::new();
    let (sender_c, promise_c) = Promise::new();
    cache.request("a", move |_key| promise_a);
    cache.request("b", move |_key| promise_b);
    cache.request("c", move |_key| promise_c);
    assert_eq!(
        cache.queued_keys(),
        vec!["a".to_owned(), "b".to_owned(), "c".to_owned()]
    );

    // Only the middle fetch completes before the drain.
    sender_b.send(Ok("B".to_owned()));
    cache.update_state();

    assert_eq!(cache.queued_keys(), vec!["a".to_owned(), "c".to_owned()]);
    assert_eq!(cache.get("b"), Some(&"B".to_owned()));
    assert!(cache.get("a").is_none());
    assert!(cache.get("c").is_none());

    // The surviving slots kept their own handles: completing "a"'s task
    // resolves "a", and "c" alone stays queued.
    sender_a.send(Ok("A".to_owned()));
    cache.update_state();
    assert_eq!(cache.get("a"), Some(&"A".to_owned()));
    assert_eq!(cache.queued_keys(), vec!["c".to_owned()]);
    drop(sender_c);
}

#[test]
fn successful_fetch_persists_across_cycles() {
    let mut cache = Cache::new();
    let (sender, promise) = Promise::new();
    cache.request("k", move |_key| promise);
    sender.send(Ok("value".to_owned()));
    cache.update_state();

    assert_eq!(cache.get("k"), Some(&"value".to_owned()));
    assert!(!cache.in_queue("k"));

    // Later cycles never lose the entry.
    cache.update_state();
    cache.update_state();
    assert_eq!(cache.get("k"), Some(&"value".to_owned()));

    // A renewed request for a resolved key spawns nothing.
    let (_sender2, promise2) = Promise::new();
    let mut spawned = false;
    cache.request("k", |_key| {
        spawned = true;
        promise2
    });
    assert!(!spawned);
    assert!(cache.queued_keys().is_empty());
}

#[test]
fn failed_fetch_is_dropped_and_retry_is_accepted() {
    let mut cache = Cache::new();
    let (sender, promise) = Promise::new();
    cache.request("k", move |_key| promise);
    sender.send(Err("not found".to_owned()));
    cache.update_state();

    // The failure is contained: the key is simply absent again.
    assert!(cache.get("k").is_none());
    assert!(!cache.in_queue("k"));

    // A new request for the failed key is accepted, not deduplicated.
    let (_sender2, promise2) = Promise::new();
    let mut spawned = false;
    cache.request("k", |_key| {
        spawned = true;
        promise2
    });
    assert!(spawned);
    assert_eq!(cache.queued_keys(), vec!["k".to_owned()]);
}

#[test]
fn store_result_inserts_success_and_drops_failure() {
    let mut cache = Cache::new();
    cache.store_result("good".to_owned(), Ok("G".to_owned()));
    cache.store_result("bad".to_owned(), Err("E".to_owned()));
    assert_eq!(cache.get("good"), Some(&"G".to_owned()));
    assert!(cache.get("bad").is_none());
}

#[test]
fn distinct_keys_resolve_independently() {
    let mut cache = Cache::new();
    let (sender_x, promise_x) = Promise::new();
    let (sender_y, promise_y) = Promise::new();
    cache.request("x", move |_key| promise_x);
    cache.request("y", move |_key| promise_y);
    sender_x.send(Ok("X".to_owned()));
    sender_y.send(Err("gone".to_owned()));
    cache.update_state();
    assert_eq!(cache.get("x"), Some(&"X".to_owned()));
    assert!(cache.get("y").is_none());
    assert!(cache.queued_keys().is_empty());
}

#[test]
fn default_cache_is_empty() {
    let cache: Cache = Default::default();
    assert!(cache.get("k").is_none());
    assert!(cache.queued_keys().is_empty());
}
