use routing::name_type::NameType;
use routing::refresh::{bytes_equal, DedupPolicy, RefreshAggregator};

fn name(b: u8) -> NameType {
    NameType::new([b; 64])
}

#[test]
fn quorum_of_three_delivers_once_with_all_payloads() {
    let mut agg = RefreshAggregator::new(3, 10, DedupPolicy::BySender);
    assert_eq!(agg.add(7, name(1), name(10), vec![1], 0), None);
    assert_eq!(agg.add(7, name(1), name(11), vec![2], 1), None);
    assert!(agg.contains(7, &name(1)));
    assert_eq!(agg.add(7, name(1), name(12), vec![3], 2), Some(vec![vec![1], vec![2], vec![3]]));
    assert!(!agg.contains(7, &name(1)));
    // a later message for the same key starts a new round
    assert_eq!(agg.add(7, name(1), name(13), vec![4], 3), None);
    assert!(agg.contains(7, &name(1)));
}

#[test]
fn repeated_sender_is_counted_once() {
    let mut agg = RefreshAggregator::new(2, 10, DedupPolicy::BySender);
    assert_eq!(agg.add(1, name(1), name(10), vec![1], 0), None);
    assert_eq!(agg.add(1, name(1), name(10), vec![9], 1), None);
    assert_eq!(agg.add(1, name(1), name(10), vec![8], 2), None);
    assert_eq!(agg.add(1, name(1), name(11), vec![2], 3), Some(vec![vec![1], vec![2]]));
}

#[test]
fn repeated_payload_is_counted_once_when_deduplicating_by_payload() {
    let mut agg = RefreshAggregator::new(2, 10, DedupPolicy::ByPayload);
    assert_eq!(agg.add(1, name(1), name(10), vec![5, 5], 0), None);
    assert_eq!(agg.add(1, name(1), name(11), vec![5, 5], 1), None);
    assert_eq!(agg.add(1, name(1), name(11), vec![6], 2), Some(vec![vec![5, 5], vec![6]]));
}

#[test]
fn keys_are_kept_apart() {
    let mut agg = RefreshAggregator::new(2, 10, DedupPolicy::BySender);
    assert_eq!(agg.add(1, name(1), name(10), vec![1], 0), None);
    assert_eq!(agg.add(2, name(1), name(11), vec![2], 0), None);
    assert_eq!(agg.add(1, name(2), name(12), vec![3], 0), None);
    assert_eq!(agg.add(2, name(1), name(13), vec![4], 0), Some(vec![vec![2], vec![4]]));
    assert!(agg.contains(1, &name(1)));
    assert!(agg.contains(1, &name(2)));
    assert!(!agg.contains(2, &name(1)));
}

#[test]
fn stale_bucket_below_quorum_is_dropped() {
    let mut agg = RefreshAggregator::new(3, 10, DedupPolicy::BySender);
    assert_eq!(agg.add(4, name(1), name(10), vec![1], 100), None);
    assert_eq!(agg.add(4, name(1), name(11), vec![2], 105), None);
    agg.expire(115);
    assert!(agg.contains(4, &name(1)));
    agg.expire(116);
    assert!(!agg.contains(4, &name(1)));
    // the partial round is not merged into a later one
    assert_eq!(agg.add(4, name(1), name(12), vec![3], 117), None);
    assert_eq!(agg.add(4, name(1), name(13), vec![4], 118), None);
    assert_eq!(agg.add(4, name(1), name(14), vec![5], 119), Some(vec![vec![3], vec![4], vec![5]]));
}

#[test]
fn expiry_keeps_fresh_buckets() {
    let mut agg = RefreshAggregator::new(5, 3, DedupPolicy::BySender);
    assert_eq!(agg.add(1, name(1), name(10), vec![1], 0), None);
    assert_eq!(agg.add(2, name(2), name(10), vec![1], 5), None);
    assert_eq!(agg.add(3, name(3), name(10), vec![1], 9), None);
    agg.expire(8);
    assert!(!agg.contains(1, &name(1)));
    assert!(agg.contains(2, &name(2)));
    assert!(agg.contains(3, &name(3)));
}

#[test]
fn quorum_of_one_delivers_at_once() {
    let mut agg = RefreshAggregator::new(1, 10, DedupPolicy::BySender);
    assert_eq!(agg.add(1, name(1), name(10), vec![7], 0), Some(vec![vec![7]]));
    assert!(!agg.contains(1, &name(1)));
}

#[test]
fn configuration_is_kept() {
    let mut agg = RefreshAggregator::new(4, 30, DedupPolicy::ByPayload);
    assert_eq!(agg.add(1, name(1), name(10), vec![1], 0), None);
    agg.expire(100);
    assert_eq!(agg.quorum(), 4);
    assert_eq!(agg.staleness(), 30);
    assert_eq!(agg.policy(), DedupPolicy::ByPayload);
}

#[test]
fn byte_strings_compare_by_content() {
    assert!(bytes_equal(&vec![1, 2, 3], &vec![1, 2, 3]));
    assert!(!bytes_equal(&vec![1, 2, 3], &vec![1, 2, 4]));
    assert!(!bytes_equal(&vec![1, 2], &vec![1, 2, 3]));
    assert!(bytes_equal(&vec![], &vec![]));
}
