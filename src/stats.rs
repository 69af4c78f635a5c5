use vstd::prelude::*;
use crate::fold::rebuilds_to;
use crate::prefix_map::{children_total, tree_total, unit_weight, value_weight, weight, PrefixMap};

verus! {

/// What was observed at a node and below: how many keys, and their memory.
#[derive(Debug, Clone, Copy, PartialEq, Eq, Structural)]
pub struct KeyspaceTreeNodeInfo {
    pub memory_usage: u64,
    pub count: u64,
}

impl KeyspaceTreeNodeInfo {
    pub fn zero() -> (r: Self)
        ensures
            r.memory_usage == 0,
            r.count == 0,
    {
        KeyspaceTreeNodeInfo { memory_usage: 0, count: 0 }
    }

    /// The field-wise sum, or `None` where a field does not fit.
    pub fn checked_add(&self, other: &Self) -> (r: Option<Self>)
        ensures
            r.is_some() <==> self.memory_usage + other.memory_usage <= u64::MAX && self.count + other.count
                <= u64::MAX,
            r.is_some() ==> r.unwrap().memory_usage == self.memory_usage + other.memory_usage
                && r.unwrap().count == self.count + other.count,
    {
        match (self.memory_usage.checked_add(other.memory_usage), self.count.checked_add(other.count)) {
            (Some(memory_usage), Some(count)) => Some(KeyspaceTreeNodeInfo { memory_usage, count }),
            _ => None,
        }
    }
}

/// The number of keys held at `t` and below.
pub open spec fn total_count(t: PrefixMap<Option<u64>>) -> nat {
    tree_total(t, unit_weight())
}

/// The memory of the keys held at `t` and below.
pub open spec fn total_memory(t: PrefixMap<Option<u64>>) -> nat {
    tree_total(t, value_weight())
}

/// `r` has the shape and the keys of `t`, and each of its nodes holds the
/// count and the memory of the keys at the matching node of `t` and below.
pub open spec fn aggregates(t: PrefixMap<Option<u64>>, r: PrefixMap<KeyspaceTreeNodeInfo>) -> bool
    decreases t,
{
    &&& r.value.count == total_count(t)
    &&& r.value.memory_usage == total_memory(t)
    &&& r.children@.len() == t.children@.len()
    &&& forall|i: int|
        0 <= i < t.children@.len() ==> (#[trigger] r.children@[i]).0 == t.children@[i].0 && aggregates(
            t.children@[i].1,
            r.children@[i].1,
        )
}

proof fn lemma_children_totals_grow(cs: Seq<(String, PrefixMap<Option<u64>>)>, w: spec_fn(u64) -> nat, i: int, j: int)
    requires
        0 <= i <= j <= cs.len(),
    ensures
        children_total(cs, w, i) <= children_total(cs, w, j),
        i < j ==> tree_total(cs[i].1, w) <= children_total(cs, w, j),
    decreases j - i,
{
    if i < j {
        lemma_children_totals_grow(cs, w, i, j - 1);
        if i < j - 1 {
            lemma_children_totals_grow(cs, w, i + 1, j);
        }
    }
}

/// `x`, or `u64::MAX` where `x` is larger.
pub open spec fn saturate(x: nat) -> nat {
    if x <= u64::MAX {
        x
    } else {
        u64::MAX as nat
    }
}

/// The sum of the counts at the roots of the first `n` subtrees of `cs`.
pub open spec fn sum_counts(cs: Seq<(String, PrefixMap<KeyspaceTreeNodeInfo>)>, n: int) -> nat
    decreases n,
{
    if n <= 0 || n > cs.len() {
        0
    } else {
        sum_counts(cs, n - 1) + cs[n - 1].1.value.count as nat
    }
}

/// The sum of the memory at the roots of the first `n` subtrees of `cs`.
pub open spec fn sum_memory(cs: Seq<(String, PrefixMap<KeyspaceTreeNodeInfo>)>, n: int) -> nat
    decreases n,
{
    if n <= 0 || n > cs.len() {
        0
    } else {
        sum_memory(cs, n - 1) + cs[n - 1].1.value.memory_usage as nat
    }
}

/// A node's own count and memory, added to those at its children's roots,
/// saturating.
fn add_node(value: &Option<u64>, children: &Vec<(String, PrefixMap<KeyspaceTreeNodeInfo>)>) -> (r: KeyspaceTreeNodeInfo)
    ensures
        r.count == saturate(weight(*value, unit_weight()) + sum_counts(children@, children@.len() as int)),
        r.memory_usage == saturate(weight(*value, value_weight()) + sum_memory(children@, children@.len() as int)),
{
    let mut acc = match value {
        Some(m) => KeyspaceTreeNodeInfo { memory_usage: *m, count: 1 },
        None => KeyspaceTreeNodeInfo::zero(),
    };
    let mut i: usize = 0;
    while i < children.len()
        invariant
            i <= children@.len(),
            acc.count == saturate(weight(*value, unit_weight()) + sum_counts(children@, i as int)),
            acc.memory_usage == saturate(weight(*value, value_weight()) + sum_memory(children@, i as int)),
        decreases children@.len() - i,
    {
        acc = KeyspaceTreeNodeInfo {
            memory_usage: acc.memory_usage.saturating_add(children[i].1.value.memory_usage),
            count: acc.count.saturating_add(children[i].1.value.count),
        };
        i = i + 1;
    }
    acc
}

proof fn lemma_observed_sums(
    cv: Seq<(String, PrefixMap<KeyspaceTreeNodeInfo>)>,
    cs: Seq<(String, PrefixMap<Option<u64>>)>,
    n: int,
)
    requires
        0 <= n <= cv.len(),
        cv.len() == cs.len(),
        forall|i: int| 0 <= i < cs.len() ==> aggregates(cs[i].1, (#[trigger] cv[i]).1),
    ensures
        sum_counts(cv, n) == children_total(cs, unit_weight(), n),
        sum_memory(cv, n) == children_total(cs, value_weight(), n),
    decreases n,
{
    if n > 0 {
        lemma_observed_sums(cv, cs, n - 1);
        assert(aggregates(cs[n - 1].1, cv[n - 1].1));
    }
}

/// A rebuild whose combiner adds a node's own count and memory to its
/// children's aggregates gives the aggregates, where the totals fit.
proof fn lemma_rebuild_aggregates<F>(node: PrefixMap<Option<u64>>, key: String, f: F, out: PrefixMap<KeyspaceTreeNodeInfo>)
    where
        F: Fn(&String, &Option<u64>, Vec<(String, PrefixMap<KeyspaceTreeNodeInfo>)>) -> (
            KeyspaceTreeNodeInfo,
            Vec<(String, PrefixMap<KeyspaceTreeNodeInfo>)>,
        ),
    requires
        forall|k: &String, v: &Option<u64>, c: Vec<(String, PrefixMap<KeyspaceTreeNodeInfo>)>, o: (
            KeyspaceTreeNodeInfo,
            Vec<(String, PrefixMap<KeyspaceTreeNodeInfo>)>,
        )|
            #[trigger] f.ensures((k, v, c), o) ==> o.1 == c && o.0.count == saturate(
                weight(*v, unit_weight()) + sum_counts(c@, c@.len() as int),
            ) && o.0.memory_usage == saturate(weight(*v, value_weight()) + sum_memory(c@, c@.len() as int)),
        rebuilds_to(node, key, f, out),
        total_count(node) <= u64::MAX,
        total_memory(node) <= u64::MAX,
    ensures
        aggregates(node, out),
    decreases node,
{
    let cv = choose|cv: Vec<(String, PrefixMap<KeyspaceTreeNodeInfo>)>|
        #![trigger f.ensures((&key, &node.value, cv), (out.value, out.children))]
        cv@.len() == node.children@.len() && (forall|i: int|
            0 <= i < node.children@.len() ==> (#[trigger] cv@[i]).0 == node.children@[i].0
                && rebuilds_to(node.children@[i].1, node.children@[i].0, f, cv@[i].1)) && f.ensures(
            (&key, &node.value, cv),
            (out.value, out.children),
        );
    let n = node.children@.len() as int;
    assert forall|i: int| 0 <= i < n implies aggregates(node.children@[i].1, (#[trigger] cv@[i]).1) by {
        lemma_children_totals_grow(node.children@, unit_weight(), i, n);
        lemma_children_totals_grow(node.children@, value_weight(), i, n);
        assert(rebuilds_to(node.children@[i].1, node.children@[i].0, f, cv@[i].1));
        lemma_rebuild_aggregates(node.children@[i].1, node.children@[i].0, f, cv@[i].1);
    }
    lemma_observed_sums(cv@, node.children@, n);
    assert(out.children == cv);
}

/// The observed count and memory of every node of `t`, or `None` where a
/// total does not fit in a `u64`.
pub fn observe(t: &PrefixMap<Option<u64>>) -> (r: Option<PrefixMap<KeyspaceTreeNodeInfo>>)
    ensures
        r.is_some() <==> total_count(*t) <= u64::MAX && total_memory(*t) <= u64::MAX,
        r.is_some() ==> aggregates(*t, r.unwrap()),
{
    match (t.count_values(), t.sum_values()) {
        (Some(_), Some(_)) => {
            let build = |_key: &String, value: &Option<u64>, children: Vec<(String, PrefixMap<KeyspaceTreeNodeInfo>)>| -> (o: (
                KeyspaceTreeNodeInfo,
                Vec<(String, PrefixMap<KeyspaceTreeNodeInfo>)>,
            ))
                ensures
                    o.1 == children,
                    o.0.count == saturate(weight(*value, unit_weight()) + sum_counts(children@, children@.len() as int)),
                    o.0.memory_usage == saturate(
                        weight(*value, value_weight()) + sum_memory(children@, children@.len() as int),
                    ),
                { (add_node(value, &children), children) };
            let r = t.transform_to_prefix_map(&build);
            proof {
                let k = choose|k: String| k@ == Seq::<char>::empty() && #[trigger] rebuilds_to(*t, k, build, r);
                lemma_rebuild_aggregates(*t, k, build, r);
            }
            Some(r)
        },
        _ => None,
    }
}

/// The sum of the counts at the roots of the first `n` trees.
pub open spec fn roots_count(trees: Seq<(String, PrefixMap<KeyspaceTreeNodeInfo>)>, n: int) -> nat
    decreases n,
{
    if n <= 0 || n > trees.len() {
        0
    } else {
        roots_count(trees, n - 1) + trees[n - 1].1.value.count as nat
    }
}

/// The sum of the memory at the roots of the first `n` trees.
pub open spec fn roots_memory(trees: Seq<(String, PrefixMap<KeyspaceTreeNodeInfo>)>, n: int) -> nat
    decreases n,
{
    if n <= 0 || n > trees.len() {
        0
    } else {
        roots_memory(trees, n - 1) + trees[n - 1].1.value.memory_usage as nat
    }
}

/// One tree whose children are the given namespaces' trees, each under its
/// name, and whose root sums their roots; `None` where a sum does not fit.
pub fn merge(trees: Vec<(String, PrefixMap<KeyspaceTreeNodeInfo>)>) -> (r: Option<PrefixMap<KeyspaceTreeNodeInfo>>)
    ensures
        r.is_some() <==> roots_count(trees@, trees@.len() as int) <= u64::MAX && roots_memory(
            trees@,
            trees@.len() as int,
        ) <= u64::MAX,
        r.is_some() ==> r.unwrap().value.count == roots_count(trees@, trees@.len() as int)
            && r.unwrap().value.memory_usage == roots_memory(trees@, trees@.len() as int)
            && r.unwrap().children == trees,
{
    let mut acc = KeyspaceTreeNodeInfo::zero();
    let mut i: usize = 0;
    while i < trees.len()
        invariant
            i <= trees@.len(),
            acc.count == roots_count(trees@, i as int),
            acc.memory_usage == roots_memory(trees@, i as int),
        decreases trees@.len() - i,
    {
        acc = match acc.checked_add(&trees[i].1.value) {
            Some(sum) => sum,
            None => {
                proof {
                    lemma_roots_grow(trees@, i as int + 1, trees@.len() as int);
                }
                return None;
            },
        };
        i = i + 1;
    }
    Some(PrefixMap::new(acc, trees))
}

proof fn lemma_roots_grow(trees: Seq<(String, PrefixMap<KeyspaceTreeNodeInfo>)>, i: int, j: int)
    requires
        0 <= i <= j <= trees.len(),
    ensures
        roots_count(trees, i) <= roots_count(trees, j),
        roots_memory(trees, i) <= roots_memory(trees, j),
    decreases j - i,
{
    if i < j {
        lemma_roots_grow(trees, i, j - 1);
    }
}

/// Merging two namespaces adds their root counts and their root memory.
pub proof fn lemma_merge_adds(trees: Seq<(String, PrefixMap<KeyspaceTreeNodeInfo>)>)
    requires
        trees.len() == 2,
    ensures
        roots_count(trees, 2) == trees[0].1.value.count + trees[1].1.value.count,
        roots_memory(trees, 2) == trees[0].1.value.memory_usage + trees[1].1.value.memory_usage,
{
    assert(roots_count(trees, 0) == 0);
    assert(roots_memory(trees, 0) == 0);
    assert(roots_count(trees, 1) == trees[0].1.value.count);
    assert(roots_memory(trees, 1) == trees[0].1.value.memory_usage);
}

/// A presented node lists its children only where more than two keys were
/// observed at it and below.
pub fn shows_children(info: &KeyspaceTreeNodeInfo) -> (r: bool)
    ensures
        r == (info.count > 2),
{
    info.count > 2
}

/// How many keys to sample from a namespace of `keys` keys.
pub open spec fn spec_sample_size(keys: u64) -> u64 {
    if keys <= 100 {
        keys
    } else if keys <= 500 {
        keys / 5
    } else if keys <= 1000 {
        keys / 10
    } else {
        200
    }
}

/// How many keys to sample from a namespace of `keys` keys: all of a small
/// one, a fifth or a tenth of a middling one, and 200 of a large one.
pub fn sample_size(keys: u64) -> (r: u64)
    ensures
        r == spec_sample_size(keys),
{
    if keys <= 100 {
        keys
    } else if keys <= 500 {
        keys / 5
    } else if keys <= 1000 {
        keys / 10
    } else {
        200
    }
}

} // verus!
