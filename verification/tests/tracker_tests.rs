use redai::config::Config;
use redai::error::Error;
use redai::tracker::Tracker;

#[test]
fn test_tracker_seed_and_noop_update() {
    let mut t = Tracker::new("hello".to_string());
    assert_eq!(t.snapshots().len(), 1);
    assert_eq!(t.latest(), "hello");

    // an identical save changes nothing
    t.update("hello".to_string());
    assert_eq!(t.snapshots().len(), 1);

    t.update("world".to_string());
    assert_eq!(t.snapshots().len(), 2);
    assert_eq!(t.latest(), "world");
    assert_eq!(t.oldest(), Some("hello".to_string()));
}

#[test]
fn test_tracker_eviction_keeps_newest_fifty() {
    let mut t = Tracker::new("A".to_string());
    for i in 0..60 {
        t.update(format!("content {}", i));
    }
    // the count cap retains exactly the 50 most recent distinct contents
    assert_eq!(t.snapshots().len(), 50);
    assert_eq!(t.latest(), "content 59");
    assert_eq!(t.oldest(), Some("content 10".to_string()));
}

#[test]
fn test_tracker_age_eviction() {
    let mut t = Tracker::new("old".to_string());
    t.update_at("older".to_string(), 1000);
    // thirty-one minutes later the first two snapshots are stale
    let late = 1000 + 31 * 60 * 1000;
    t.update_at("fresh".to_string(), late);
    // the seed snapshot carries the real clock and so still counts as
    // fresh, but the explicitly stamped one has aged out
    assert_eq!(t.latest(), "fresh");
    let contents: Vec<String> = t.snapshots().iter().map(|s| s.content.clone()).collect();
    assert!(!contents.contains(&"older".to_string()));
    assert!(contents.contains(&"fresh".to_string()));
}

#[test]
fn test_tracker_summarize_recent_edits() {
    let mut t = Tracker::new("fn f() {}\n".to_string());
    t.update("fn f() { 42 }\n".to_string());
    let s = t.summarize_recent_edits();
    assert_eq!(s, "-fn f() {}\n+fn f() { 42 }\n");

    let fresh = Tracker::new("alone\n".to_string());
    assert_eq!(fresh.summarize_recent_edits(), "");
}

#[test]
fn test_config_new() {
    let c = Config::new(
        "test-key".to_string(),
        "https://openrouter.ai/api/v1".to_string(),
        "mistralai/codestral-2508".to_string(),
    );
    assert_eq!(c.base_url, "https://openrouter.ai/api/v1");
    assert_eq!(c.model, "mistralai/codestral-2508");
}

#[test]
fn test_error_messages() {
    assert_eq!(
        Error::OffsetOutOfBounds.message(),
        "Out of bounds byte index"
    );
    assert_eq!(
        Error::Transport("connection refused".to_string()).message(),
        "connection refused"
    );
    assert_eq!(
        Error::ContextLost.message(),
        "cursor token not found in context"
    );
    assert!(
        redai::error::Error::PatchFormat(redai::error::PatchToken::Search)
            .message()
            .contains("<|SEARCH|>")
    );
}

#[test]
fn test_tracker_cleanup_drops_stale_snapshots() {
    let mut t = Tracker::new("seed".to_string());
    t.update_at("stale".to_string(), 1000);
    // judged against the real clock, the explicitly back-dated snapshot
    // has aged out while the seed is still fresh
    t.cleanup();
    let contents: Vec<String> = t.snapshots().iter().map(|s| s.content.clone()).collect();
    assert_eq!(contents, vec!["seed".to_string()]);
}
