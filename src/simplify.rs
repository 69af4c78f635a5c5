use vstd::prelude::*;
use crate::fold::folds_to;
use crate::prefix_map::PrefixMap;

verus! {

/// A node with no value and exactly one child: a placeholder that simplifying
/// removes.
pub open spec fn is_placeholder<V>(t: PrefixMap<Option<V>>) -> bool {
    t.value.is_none() && t.children@.len() == 1
}

/// The key under which the simplified form of `t`, filed under `key`, is filed
/// at its parent: that of the first node below a run of placeholders.
pub open spec fn simplified_key<V>(key: Seq<char>, t: PrefixMap<Option<V>>) -> Seq<char>
    decreases t,
{
    if is_placeholder(t) {
        simplified_key(t.children@[0].0@, t.children@[0].1)
    } else {
        key
    }
}

/// `r` is `t` with every placeholder replaced, at its parent, by its only
/// child filed under the child's own key.
pub open spec fn simplifies_to<V>(t: PrefixMap<Option<V>>, r: PrefixMap<Option<V>>) -> bool
    decreases t,
{
    if is_placeholder(t) {
        simplifies_to(t.children@[0].1, r)
    } else {
        &&& r.value == t.value
        &&& r.children@.len() == t.children@.len()
        &&& forall|i: int|
            0 <= i < t.children@.len() ==> (#[trigger] r.children@[i]).0@ == simplified_key(
                t.children@[i].0@,
                t.children@[i].1,
            ) && simplifies_to(t.children@[i].1, r.children@[i].1)
    }
}

/// `a` and `b` have the same values and the same keys, by their text, child by
/// child, at every node.
pub open spec fn same_tree<V>(a: PrefixMap<Option<V>>, b: PrefixMap<Option<V>>) -> bool
    decreases a,
{
    &&& a.value == b.value
    &&& a.children@.len() == b.children@.len()
    &&& forall|i: int|
        0 <= i < a.children@.len() ==> (#[trigger] a.children@[i]).0@ == b.children@[i].0@ && same_tree(
            a.children@[i].1,
            b.children@[i].1,
        )
}

/// No node of `t` is a placeholder.
pub open spec fn is_simple<V>(t: PrefixMap<Option<V>>) -> bool
    decreases t,
{
    &&& !is_placeholder(t)
    &&& forall|i: int| 0 <= i < t.children@.len() ==> is_simple(#[trigger] t.children@[i].1)
}

/// `t`, filed under `key`, holds `v` under the key `k`, at its root or below.
pub open spec fn holds<V>(t: PrefixMap<Option<V>>, key: Seq<char>, k: Seq<char>, v: V) -> bool
    decreases t,
{
    (key == k && t.value == Some(v)) || exists|i: int|
        0 <= i < t.children@.len() && holds((#[trigger] t.children@[i]).1, t.children@[i].0@, k, v)
}

/// `t`, filed under `key`, has at its root or below a node that is no
/// placeholder, filed under `k`, with value `v` and `n` children.
pub open spec fn has_node<V>(t: PrefixMap<Option<V>>, key: Seq<char>, k: Seq<char>, v: Option<V>, n: nat) -> bool
    decreases t,
{
    (key == k && t.value == v && t.children@.len() == n && !is_placeholder(t)) || exists|i: int|
        0 <= i < t.children@.len() && has_node((#[trigger] t.children@[i]).1, t.children@[i].0@, k, v, n)
}

/// The key and the node reached from `t`, filed under `key`, by going `n`
/// times to the first child.
pub open spec fn first_descendant<V>(key: Seq<char>, t: PrefixMap<Option<V>>, n: nat) -> (Seq<char>, PrefixMap<Option<V>>)
    decreases n,
{
    if n == 0 || t.children@.len() == 0 {
        (key, t)
    } else {
        first_descendant(t.children@[0].0@, t.children@[0].1, (n - 1) as nat)
    }
}

/// No placeholder is left after simplifying.
pub proof fn lemma_simplified_is_simple<V>(t: PrefixMap<Option<V>>, r: PrefixMap<Option<V>>)
    requires
        simplifies_to(t, r),
    ensures
        is_simple(r),
    decreases t,
{
    if is_placeholder(t) {
        lemma_simplified_is_simple(t.children@[0].1, r);
    } else {
        assert forall|i: int| 0 <= i < r.children@.len() implies is_simple(#[trigger] r.children@[i].1) by {
            lemma_simplified_is_simple(t.children@[i].1, r.children@[i].1);
        }
    }
}

proof fn lemma_simple_is_fixed<V>(t: PrefixMap<Option<V>>, r: PrefixMap<Option<V>>, key: Seq<char>)
    requires
        is_simple(t),
        simplifies_to(t, r),
    ensures
        same_tree(r, t),
        simplified_key(key, t) == key,
    decreases t,
{
    assert forall|i: int| 0 <= i < r.children@.len() implies (#[trigger] r.children@[i]).0@
        == t.children@[i].0@ && same_tree(r.children@[i].1, t.children@[i].1) by {
        assert(is_simple(t.children@[i].1));
        lemma_simple_is_fixed(t.children@[i].1, r.children@[i].1, t.children@[i].0@);
    }
}

/// Simplifying twice gives what simplifying once gives.
pub proof fn lemma_simplify_idempotent<V>(t: PrefixMap<Option<V>>, r1: PrefixMap<Option<V>>, r2: PrefixMap<Option<V>>)
    requires
        simplifies_to(t, r1),
        simplifies_to(r1, r2),
    ensures
        same_tree(r2, r1),
{
    lemma_simplified_is_simple(t, r1);
    lemma_simple_is_fixed(r1, r2, Seq::empty());
}

/// Simplifying keeps every stored value under its key: the simplified tree,
/// filed under its new key, holds exactly what `t` held.
pub proof fn lemma_simplify_keeps_entries<V>(
    t: PrefixMap<Option<V>>,
    r: PrefixMap<Option<V>>,
    key: Seq<char>,
    k: Seq<char>,
    v: V,
)
    requires
        simplifies_to(t, r),
    ensures
        holds(t, key, k, v) <==> holds(r, simplified_key(key, t), k, v),
    decreases t,
{
    if is_placeholder(t) {
        lemma_simplify_keeps_entries(t.children@[0].1, r, t.children@[0].0@, k, v);
        if holds(t, key, k, v) {
            let i = choose|i: int|
                0 <= i < t.children@.len() && holds((#[trigger] t.children@[i]).1, t.children@[i].0@, k, v);
            assert(i == 0);
        }
        if holds(t.children@[0].1, t.children@[0].0@, k, v) {
            assert(holds(t, key, k, v));
        }
    } else {
        assert forall|i: int| 0 <= i < t.children@.len() implies holds(t.children@[i].1, t.children@[i].0@, k, v)
            == holds(r.children@[i].1, r.children@[i].0@, k, v) by {
            lemma_simplify_keeps_entries(t.children@[i].1, r.children@[i].1, t.children@[i].0@, k, v);
        }
        if holds(t, key, k, v) && !(key == k && t.value == Some(v)) {
            let i = choose|i: int|
                0 <= i < t.children@.len() && holds((#[trigger] t.children@[i]).1, t.children@[i].0@, k, v);
            assert(holds(r.children@[i].1, r.children@[i].0@, k, v));
        }
        if holds(r, key, k, v) && !(key == k && r.value == Some(v)) {
            let i = choose|i: int|
                0 <= i < r.children@.len() && holds((#[trigger] r.children@[i]).1, r.children@[i].0@, k, v);
            assert(holds(t.children@[i].1, t.children@[i].0@, k, v));
        }
    }
}

/// Simplifying removes only placeholders: every other node stays, filed
/// under its own key, with its value and its number of children.
pub proof fn lemma_simplify_keeps_nodes<V>(
    t: PrefixMap<Option<V>>,
    r: PrefixMap<Option<V>>,
    key: Seq<char>,
    k: Seq<char>,
    v: Option<V>,
    n: nat,
)
    requires
        simplifies_to(t, r),
    ensures
        has_node(t, key, k, v, n) <==> has_node(r, simplified_key(key, t), k, v, n),
    decreases t,
{
    if is_placeholder(t) {
        lemma_simplify_keeps_nodes(t.children@[0].1, r, t.children@[0].0@, k, v, n);
        if has_node(t, key, k, v, n) {
            let i = choose|i: int|
                0 <= i < t.children@.len() && has_node((#[trigger] t.children@[i]).1, t.children@[i].0@, k, v, n);
            assert(i == 0);
        }
        if has_node(t.children@[0].1, t.children@[0].0@, k, v, n) {
            assert(has_node(t, key, k, v, n));
        }
    } else {
        assert forall|i: int| 0 <= i < t.children@.len() implies has_node(t.children@[i].1, t.children@[i].0@, k, v, n)
            == has_node(r.children@[i].1, r.children@[i].0@, k, v, n) by {
            lemma_simplify_keeps_nodes(t.children@[i].1, r.children@[i].1, t.children@[i].0@, k, v, n);
        }
        if has_node(t, key, k, v, n) && !(key == k && t.value == v && t.children@.len() == n) {
            let i = choose|i: int|
                0 <= i < t.children@.len() && has_node((#[trigger] t.children@[i]).1, t.children@[i].0@, k, v, n);
            assert(has_node(r.children@[i].1, r.children@[i].0@, k, v, n));
        }
        if has_node(r, key, k, v, n) && !(key == k && r.value == v && r.children@.len() == n) {
            let i = choose|i: int|
                0 <= i < r.children@.len() && has_node((#[trigger] r.children@[i]).1, r.children@[i].0@, k, v, n);
            assert(has_node(t.children@[i].1, t.children@[i].0@, k, v, n));
        }
    }
}

/// A run of `n` placeholders, whatever `n`, collapses into one edge: `t`
/// simplifies as the first node below the run does, filed under that node's
/// key.
pub proof fn lemma_placeholder_run_collapses<V>(
    key: Seq<char>,
    t: PrefixMap<Option<V>>,
    n: nat,
    r: PrefixMap<Option<V>>,
)
    requires
        forall|j: nat| j < n ==> is_placeholder(#[trigger] first_descendant(key, t, j).1),
    ensures
        simplified_key(key, t) == simplified_key(first_descendant(key, t, n).0, first_descendant(key, t, n).1),
        simplifies_to(t, r) == simplifies_to(first_descendant(key, t, n).1, r),
    decreases n,
{
    if n > 0 {
        assert(is_placeholder(first_descendant(key, t, 0).1));
        let k0 = t.children@[0].0@;
        let c0 = t.children@[0].1;
        assert forall|j: nat| j < (n - 1) as nat implies is_placeholder(#[trigger] first_descendant(k0, c0, j).1) by {
            assert(first_descendant(key, t, j + 1) == first_descendant(k0, c0, j));
            assert(is_placeholder(first_descendant(key, t, j + 1).1));
        }
        lemma_placeholder_run_collapses(k0, c0, (n - 1) as nat, r);
        assert(first_descendant(key, t, n) == first_descendant(k0, c0, (n - 1) as nat));
    }
}

/// A fold whose combiner collapses placeholders simplifies.
proof fn lemma_fold_simplifies<V, G>(node: PrefixMap<Option<V>>, key: String, g: G, out: (String, PrefixMap<Option<V>>))
    where
        G: Fn(&String, &Option<V>, Vec<(String, PrefixMap<Option<V>>)>) -> (String, PrefixMap<Option<V>>),
    requires
        forall|k: &String, v: &Option<V>, c: Vec<(String, PrefixMap<Option<V>>)>, o: (String, PrefixMap<Option<V>>)|
            #[trigger] g.ensures((k, v, c), o) ==> if v.is_none() && c@.len() == 1 {
                o == c@[0]
            } else {
                o.0 == *k && o.1.value == *v && o.1.children == c
            },
        folds_to(node, key, g, out),
    ensures
        out.0@ == simplified_key(key@, node),
        simplifies_to(node, out.1),
    decreases node,
{
    let cv = choose|cv: Vec<(String, PrefixMap<Option<V>>)>|
        #![trigger g.ensures((&key, &node.value, cv), out)]
        cv@.len() == node.children@.len() && (forall|i: int|
            0 <= i < node.children@.len() ==> folds_to(
                node.children@[i].1,
                node.children@[i].0,
                g,
                #[trigger] cv@[i],
            )) && g.ensures((&key, &node.value, cv), out);
    assert forall|i: int| 0 <= i < node.children@.len() implies (#[trigger] cv@[i]).0@
        == simplified_key(node.children@[i].0@, node.children@[i].1) && simplifies_to(
        node.children@[i].1,
        cv@[i].1,
    ) by {
        lemma_fold_simplifies(node.children@[i].1, node.children@[i].0, g, cv@[i]);
    }
    if is_placeholder(node) {
        assert(out == cv@[0]);
    }
}

impl<V: Copy> PrefixMap<Option<V>> {
    /// The tree without placeholders: each node with no value and a single
    /// child gives way, at its parent, to that child under the child's own key.
    pub fn simplify(&self) -> (r: Self)
        ensures
            simplifies_to(*self, r),
    {
        let collapse = |prefix: &String, value: &Option<V>, children: Vec<(String, PrefixMap<Option<V>>)>| -> (o: (String, PrefixMap<Option<V>>))
            ensures
                if value.is_none() && children@.len() == 1 {
                    o == children@[0]
                } else {
                    o.0 == *prefix && o.1.value == *value && o.1.children == children
                },
            {
                if value.is_none() && children.len() == 1 {
                    let mut children = children;
                    children.remove(0)
                } else {
                    (prefix.clone(), PrefixMap::new(*value, children))
                }
            };
        let r = self.replace_nodes(&collapse);
        proof {
            let (k, nk) = choose|k: String, nk: String|
                k@ == Seq::<char>::empty() && #[trigger] folds_to(*self, k, collapse, (nk, r));
            lemma_fold_simplifies(*self, k, collapse, (nk, r));
        }
        r
    }
}

} // verus!
