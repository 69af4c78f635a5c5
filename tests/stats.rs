use keyspace_stats::retry::{next_step, RetryStep};
use keyspace_stats::stats::{merge, observe, sample_size, shows_children};
use keyspace_stats::{KeyspaceTreeNodeInfo, PrefixMap};

fn sample_tree() -> PrefixMap<Option<u64>> {
    let mut map = PrefixMap::default();
    map.insert("foo:bar".to_string(), 1);
    map.insert("foo:bar:".to_string(), 2);
    map.insert("foo:bar:1".to_string(), 4);
    map.insert("foo:bar:2".to_string(), 8);
    map
}

#[test]
fn observe_sums_counts_and_memory() {
    let observed = observe(&sample_tree().simplify()).unwrap();
    assert_eq!(observed.value, KeyspaceTreeNodeInfo { memory_usage: 15, count: 4 });
    let bar_colon = observed.get("foo:bar:").unwrap();
    assert_eq!(bar_colon.value, KeyspaceTreeNodeInfo { memory_usage: 14, count: 3 });
    let one = bar_colon.get("foo:bar:1").unwrap();
    assert_eq!(one.value, KeyspaceTreeNodeInfo { memory_usage: 4, count: 1 });
}

#[test]
fn observe_every_node_is_own_plus_children() {
    let observed = observe(&sample_tree()).unwrap();
    fn check(node: &PrefixMap<KeyspaceTreeNodeInfo>, own: &PrefixMap<Option<u64>>) {
        let mut count = own.value.map_or(0, |_| 1);
        let mut memory = own.value.unwrap_or(0);
        for (k, child) in node.iter() {
            count += child.value.count;
            memory += child.value.memory_usage;
            check(child, own.get(k).unwrap());
        }
        assert_eq!(node.value.count, count);
        assert_eq!(node.value.memory_usage, memory);
    }
    check(&observed, &sample_tree());
}

#[test]
fn observe_empty_tree() {
    let empty: PrefixMap<Option<u64>> = PrefixMap::default();
    let observed = observe(&empty).unwrap();
    assert_eq!(observed.value, KeyspaceTreeNodeInfo::zero());
    assert_eq!(observed.len(), 0);
}

#[test]
fn observe_reports_overflow() {
    let mut map = PrefixMap::default();
    map.insert("a".to_string(), u64::MAX);
    map.insert("b".to_string(), 1);
    assert!(observe(&map).is_none());
    let mut fits = PrefixMap::default();
    fits.insert("a".to_string(), u64::MAX - 1);
    fits.insert("b".to_string(), 1);
    assert_eq!(observe(&fits).unwrap().value.memory_usage, u64::MAX);
}

#[test]
fn merge_adds_roots() {
    let a = PrefixMap::new(KeyspaceTreeNodeInfo { memory_usage: 10, count: 2 }, Vec::new());
    let b = PrefixMap::new(KeyspaceTreeNodeInfo { memory_usage: 30, count: 5 }, Vec::new());
    let merged = merge(vec![("0".to_string(), a), ("3".to_string(), b)]).unwrap();
    assert_eq!(merged.value, KeyspaceTreeNodeInfo { memory_usage: 40, count: 7 });
    assert_eq!(merged.len(), 2);
    assert_eq!(merged.get("3").unwrap().value.count, 5);
    let none = merge(Vec::new()).unwrap();
    assert_eq!(none.value, KeyspaceTreeNodeInfo::zero());
}

#[test]
fn merge_reports_overflow() {
    let a = PrefixMap::new(KeyspaceTreeNodeInfo { memory_usage: u64::MAX, count: 1 }, Vec::new());
    let b = PrefixMap::new(KeyspaceTreeNodeInfo { memory_usage: 1, count: 1 }, Vec::new());
    assert!(merge(vec![("0".to_string(), a), ("1".to_string(), b)]).is_none());
}

#[test]
fn checked_add_adds_fields() {
    let a = KeyspaceTreeNodeInfo { memory_usage: 3, count: 1 };
    let b = KeyspaceTreeNodeInfo { memory_usage: 4, count: 2 };
    assert_eq!(a.checked_add(&b), Some(KeyspaceTreeNodeInfo { memory_usage: 7, count: 3 }));
    let big = KeyspaceTreeNodeInfo { memory_usage: 0, count: u64::MAX };
    assert_eq!(big.checked_add(&a), None);
}

#[test]
fn pruning_boundary() {
    assert!(shows_children(&KeyspaceTreeNodeInfo { memory_usage: 0, count: 3 }));
    assert!(!shows_children(&KeyspaceTreeNodeInfo { memory_usage: 0, count: 2 }));
    assert!(!shows_children(&KeyspaceTreeNodeInfo { memory_usage: 0, count: 0 }));
}

#[test]
fn sample_size_policy() {
    assert_eq!(sample_size(0), 0);
    assert_eq!(sample_size(100), 100);
    assert_eq!(sample_size(101), 20);
    assert_eq!(sample_size(500), 100);
    assert_eq!(sample_size(501), 50);
    assert_eq!(sample_size(1000), 100);
    assert_eq!(sample_size(1001), 200);
    assert_eq!(sample_size(u64::MAX), 200);
}

#[test]
fn retry_steps() {
    assert_eq!(next_step(true, 0), RetryStep::Finish);
    assert_eq!(next_step(false, 0), RetryStep::Retry { delay_secs: 1 });
    assert_eq!(next_step(false, 1), RetryStep::Retry { delay_secs: 2 });
    assert_eq!(next_step(false, 2), RetryStep::Retry { delay_secs: 5 });
    assert_eq!(next_step(false, 3), RetryStep::Finish);
}
