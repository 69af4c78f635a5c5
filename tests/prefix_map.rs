use keyspace_stats::PrefixMap;

fn count_values<V>(map: &PrefixMap<Option<V>>) -> usize {
    map.transform::<usize, _>(&|_, value, children| {
        value.as_ref().map_or(0, |_| 1) + children.iter().map(|(_, v)| v).sum::<usize>()
    })
}

#[test]
fn prefix_map_test1() {
    let mut map = PrefixMap::default();
    map.insert("foo:bar".to_string(), ());
    map.insert("foo:bar:".to_string(), ());
    map.insert("foo:bar:1".to_string(), ());
    assert!(map.get("foo:").unwrap().get("foo:bar").unwrap().value.is_some());
    assert!(map.get("foo:").unwrap().get("foo:bar:").unwrap().get("foo:bar:").is_none());
    assert!(map.get("foo:").unwrap().get("foo:bar:").unwrap().value.is_some());
    assert!(map.get("foo:").unwrap().get("foo:bar:").unwrap().get("foo:bar:1").unwrap().value.is_some());
}

#[test]
fn test2() {
    let mut map = PrefixMap::default();
    map.insert("foo".to_string(), ());
    map.insert("".to_string(), ());
    assert!(map.value.is_some());
    assert!(map.get("foo").unwrap().value.is_some());
}

#[test]
fn test_simplify() {
    let simplified = {
        let mut map = PrefixMap::default();
        map.insert("foo:bar".to_string(), ());
        map.insert("foo:bar:".to_string(), ());
        map.insert("foo:bar:1".to_string(), ());
        map.insert("foo:bar:2".to_string(), ());
        map
    }
    .simplify();

    let v1 = simplified.get("foo:bar").unwrap();
    assert_eq!(v1.len(), 0);
    assert!(v1.value.is_some());

    let v2 = simplified.get("foo:bar:").unwrap();
    assert_eq!(v2.len(), 2);
    assert!(v2.value.is_some());

    let v3 = v2.get("foo:bar:1").unwrap();
    assert_eq!(v3.len(), 0);
    assert!(v3.value.is_some());

    let v4 = v2.get("foo:bar:2").unwrap();
    assert_eq!(v4.len(), 0);
    assert!(v4.value.is_some());
}

#[test]
fn test_transform() {
    let map = {
        let mut map = PrefixMap::default();
        map.insert("foo:bar".to_string(), ());
        map.insert("foo:bar:".to_string(), ());
        map.insert("foo:bar:1".to_string(), ());
        map.insert("foo:bar:2".to_string(), ());
        map
    };

    let count = map.transform::<usize, _>(&|_, value, children| {
        value.map_or(0, |_| 1) + children.iter().map(|(_, v)| v).sum::<usize>()
    });

    assert_eq!(count, 4);
}

#[test]
fn test_transform_sum() {
    let map = {
        let mut map = PrefixMap::default();
        map.insert("foo:bar".to_string(), 1);
        map.insert("foo:bar:".to_string(), 2);
        map.insert("foo:bar:1".to_string(), 4);
        map.insert("foo:bar:2".to_string(), 8);
        map
    };

    let count = map.transform::<i64, _>(&|_, value, children| {
        value.map_or(0, |v| v) + children.iter().map(|(_, v)| v).sum::<i64>()
    });

    assert_eq!(count, 1 + 2 + 4 + 8);
}

#[test]
fn test_simplify_deep() {
    let simplified = {
        let mut map = PrefixMap::default();
        map.insert("bar:1".to_string(), ());
        map.insert("bar:deep:very:deep".to_string(), ());
        map
    }
    .simplify();

    println!("{:?}", simplified);

    let v1 = simplified.get("bar:1").unwrap();
    assert_eq!(v1.len(), 0);
    assert!(v1.value.is_some());

    let v2 = simplified.get("bar:deep:very:deep").unwrap();
    assert_eq!(v2.len(), 0);
    assert!(v2.value.is_some());
}

#[test]
fn insert_splits_at_every_separator() {
    let mut map = PrefixMap::default();
    map.insert("a|b,c.d_e".to_string(), 7u64);
    let n1 = map.get("a|").unwrap();
    let n2 = n1.get("a|b,").unwrap();
    let n3 = n2.get("a|b,c.").unwrap();
    let n4 = n3.get("a|b,c.d_").unwrap();
    let leaf = n4.get("a|b,c.d_e").unwrap();
    assert!(n1.value.is_none());
    assert!(n4.value.is_none());
    assert_eq!(leaf.value, Some(7));
    assert_eq!(map.len(), 1);
}

#[test]
fn insert_without_separator_is_a_root_child() {
    let mut map = PrefixMap::default();
    map.insert("plain".to_string(), 3u64);
    assert_eq!(map.len(), 1);
    assert_eq!(map.get("plain").unwrap().value, Some(3));
    assert!(map.value.is_none());
}

#[test]
fn insert_same_key_last_write_wins() {
    let mut map = PrefixMap::default();
    map.insert("a:b".to_string(), 1u64);
    map.insert("a:b".to_string(), 2u64);
    let a = map.get("a:").unwrap();
    assert_eq!(a.len(), 1);
    assert_eq!(a.get("a:b").unwrap().value, Some(2));
    assert_eq!(count_values(&map), 1);
}

#[test]
fn insert_keeps_children_of_overwritten_node() {
    let mut map = PrefixMap::default();
    map.insert("a:b:c".to_string(), 1u64);
    map.insert("a:b:".to_string(), 2u64);
    map.insert("a:b:".to_string(), 3u64);
    let ab = map.get("a:").unwrap().get("a:b:").unwrap();
    assert_eq!(ab.value, Some(3));
    assert_eq!(ab.get("a:b:c").unwrap().value, Some(1));
}

fn shape(map: &PrefixMap<Option<u64>>) -> Vec<String> {
    map.transform::<Vec<String>, _>(&|key, value, children| {
        let mut lines = vec![format!("{}={:?}", key, value)];
        for (_, c) in children {
            lines.extend(c);
        }
        lines.sort();
        lines
    })
}

#[test]
fn insertion_order_of_distinct_keys_does_not_matter() {
    let keys = ["x:1", "x:2", "x:", "y", "x:1:z"];
    let mut a = PrefixMap::default();
    for (i, k) in keys.iter().enumerate() {
        a.insert(k.to_string(), i as u64);
    }
    let mut b = PrefixMap::default();
    for (i, k) in keys.iter().enumerate().rev() {
        b.insert(k.to_string(), i as u64);
    }
    assert_eq!(shape(&a), shape(&b));
}

#[test]
fn count_of_distinct_keys() {
    let mut map = PrefixMap::default();
    for k in ["a", "a:", "a:b", "a:b:c", "b.c", "b.d", "c_e|f"] {
        map.insert(k.to_string(), ());
    }
    assert_eq!(count_values(&map), 7);
    let empty: PrefixMap<Option<()>> = PrefixMap::default();
    assert_eq!(count_values(&empty), 0);
}

#[test]
fn replace_nodes_renames_keys() {
    let mut map = PrefixMap::default();
    map.insert("a:b".to_string(), 1u64);
    map.insert("a:c".to_string(), 2u64);
    let keys = map.replace_nodes::<Vec<String>, _>(&|key, _, children| {
        let mut all = Vec::new();
        for (k, sub) in children {
            all.push(k);
            all.extend(sub);
        }
        all.sort();
        (format!("<{}>", key), all)
    });
    assert_eq!(keys, vec!["<a:>", "<a:b>", "<a:c>"]);
}

#[test]
fn transform_to_prefix_map_keeps_keys() {
    let mut map = PrefixMap::default();
    map.insert("a:b".to_string(), 5u64);
    let doubled = map.transform_to_prefix_map::<u64, _>(&|_, value, children| {
        (value.map_or(0, |v| 2 * v), children)
    });
    assert_eq!(doubled.value, 0);
    assert_eq!(doubled.get("a:").unwrap().get("a:b").unwrap().value, 10);
}

#[test]
fn simplify_collapses_chains_of_any_length() {
    // no placeholder
    let mut m0 = PrefixMap::default();
    m0.insert("k".to_string(), 1u64);
    m0.insert("j".to_string(), 2u64);
    let s0 = m0.simplify();
    assert_eq!(s0.get("k").unwrap().value, Some(1));

    // one placeholder
    let mut m1 = PrefixMap::default();
    m1.insert("a:k".to_string(), 1u64);
    m1.insert("j".to_string(), 2u64);
    let s1 = m1.simplify();
    assert_eq!(s1.len(), 2);
    assert_eq!(s1.get("a:k").unwrap().value, Some(1));

    // ten placeholders
    let mut m10 = PrefixMap::default();
    m10.insert("a:a:a:a:a:a:a:a:a:a:k".to_string(), 1u64);
    m10.insert("j".to_string(), 2u64);
    let s10 = m10.simplify();
    assert_eq!(s10.len(), 2);
    let leaf = s10.get("a:a:a:a:a:a:a:a:a:a:k").unwrap();
    assert_eq!(leaf.value, Some(1));
    assert_eq!(leaf.len(), 0);
}

#[test]
fn simplify_is_idempotent() {
    let mut map = PrefixMap::default();
    for (i, k) in ["p:q:r:s", "p:q:t", "u:v", "w"].iter().enumerate() {
        map.insert(k.to_string(), i as u64);
    }
    let once = map.simplify();
    let twice = once.simplify();
    assert_eq!(shape(&once), shape(&twice));
}

#[test]
fn simplify_keeps_stored_values() {
    fn entries(map: &PrefixMap<Option<u64>>) -> Vec<(String, u64)> {
        map.transform::<Vec<(String, u64)>, _>(&|key, value, children| {
            let mut all: Vec<(String, u64)> = value.map(|v| (key.clone(), v)).into_iter().collect();
            for (_, c) in children {
                all.extend(c);
            }
            all.sort();
            all
        })
    }
    let mut map = PrefixMap::default();
    map.insert("bar:1".to_string(), 1u64);
    map.insert("bar:deep:very:deep".to_string(), 2u64);
    let simplified = map.simplify();
    assert_eq!(entries(&map), entries(&simplified));
    assert_eq!(
        entries(&simplified),
        vec![("bar:1".to_string(), 1), ("bar:deep:very:deep".to_string(), 2)]
    );
    // the root and `bar:` each had a single child and no value
    assert_eq!(simplified.len(), 2);
    assert!(simplified.get("bar:deep:").is_none());
}

#[test]
fn iter_lists_children() {
    let mut map = PrefixMap::default();
    map.insert("a".to_string(), 1u64);
    map.insert("b".to_string(), 2u64);
    let mut keys: Vec<&str> = map.iter().iter().map(|(k, _)| k.as_str()).collect();
    keys.sort();
    assert_eq!(keys, vec!["a", "b"]);
    let built = PrefixMap::new(9u64, Vec::new());
    assert_eq!(built.value, 9);
    assert_eq!(built.find_child("a"), None);
}

#[test]
fn count_and_sum_by_fold() {
    let mut map = PrefixMap::default();
    map.insert("foo:bar".to_string(), 1u64);
    map.insert("foo:bar:".to_string(), 2u64);
    map.insert("foo:bar:1".to_string(), 4u64);
    map.insert("foo:bar:2".to_string(), 8u64);
    assert_eq!(map.count_values(), Some(4));
    assert_eq!(map.sum_values(), Some(15));
    map.insert("foo:bar:1".to_string(), 16u64);
    assert_eq!(map.count_values(), Some(4));
    assert_eq!(map.sum_values(), Some(27));
    let empty: PrefixMap<Option<u64>> = PrefixMap::default();
    assert_eq!(empty.count_values(), Some(0));
    assert_eq!(empty.sum_values(), Some(0));
}

#[test]
fn sum_reports_overflow() {
    let mut map = PrefixMap::default();
    map.insert("a".to_string(), u64::MAX);
    assert_eq!(map.sum_values(), Some(u64::MAX));
    map.insert("b".to_string(), 1u64);
    assert_eq!(map.sum_values(), None);
    assert_eq!(map.count_values(), Some(2));
}
