use hermes_gateway::FeedId;
use hermes_gateway::feeds::Feeds;

fn id(n: u64) -> FeedId {
    FeedId::new(0, 0, 0, n)
}

fn sorted(mut v: Vec<FeedId>) -> Vec<FeedId> {
    v.sort_by_key(|f| (f.w0, f.w1, f.w2, f.w3));
    v
}

#[test]
fn add_raises_dirty_and_union_collects() {
    let mut feeds = Feeds::new();
    assert!(feeds.is_empty());
    assert!(!feeds.consume_dirty());
    feeds.add(vec![id(1), id(2)]);
    assert!(!feeds.is_empty());
    assert!(feeds.consume_dirty());
    assert!(!feeds.consume_dirty());
    assert_eq!(sorted(feeds.union()), vec![id(1), id(2)]);
}

#[test]
fn union_deduplicates_across_sets() {
    let mut feeds = Feeds::new();
    feeds.add(vec![id(1), id(2), id(2)]);
    feeds.add(vec![id(2), id(3)]);
    feeds.add(vec![id(3), id(1)]);
    assert_eq!(sorted(feeds.union()), vec![id(1), id(2), id(3)]);
}

#[test]
fn union_ignores_registration_order() {
    let mut a = Feeds::new();
    a.add(vec![id(1), id(2)]);
    a.add(vec![id(3)]);
    a.add(Vec::new());
    let mut b = Feeds::new();
    b.add(Vec::new());
    b.add(vec![id(3)]);
    b.add(vec![id(1), id(2)]);
    assert_eq!(sorted(a.union()), sorted(b.union()));
}

#[test]
fn remove_of_unregistered_set_changes_nothing() {
    let mut feeds = Feeds::new();
    feeds.add(vec![id(1)]);
    feeds.add(vec![id(2), id(3)]);
    let _ = feeds.consume_dirty();
    let before = sorted(feeds.union());
    feeds.remove(&vec![id(4)]);
    assert_eq!(sorted(feeds.union()), before);
    assert!(!feeds.consume_dirty());
    feeds.remove(&vec![id(2)]); // subset of an entry, not value-equal
    assert_eq!(sorted(feeds.union()), before);
    assert!(!feeds.consume_dirty());
}

#[test]
fn remove_takes_first_matching_entry_only() {
    let mut feeds = Feeds::new();
    feeds.add(vec![id(7)]);
    feeds.add(vec![id(7)]);
    let _ = feeds.consume_dirty();
    feeds.remove(&vec![id(7)]);
    assert!(feeds.consume_dirty());
    assert!(!feeds.is_empty());
    assert_eq!(feeds.union(), vec![id(7)]);
    feeds.remove(&vec![id(7)]);
    assert!(feeds.is_empty());
    assert!(feeds.union().is_empty());
}

#[test]
fn empty_sets_may_be_registered() {
    let mut feeds = Feeds::new();
    feeds.add(Vec::new());
    assert!(!feeds.is_empty());
    assert!(feeds.union().is_empty());
    feeds.remove(&Vec::new());
    assert!(feeds.is_empty());
}
