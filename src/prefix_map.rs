use vstd::prelude::*;
use vstd::string::StrSliceExecFns;
use vstd::string::StringExecFns;

verus! {

/// Characters that end a key prefix.
pub open spec fn is_separator(c: char) -> bool {
    c == ':' || c == '|' || c == ',' || c == '.' || c == '_'
}

/// The prefixes of `s` that end at a separator found at a position `>= start`,
/// shortest first.
pub open spec fn separator_prefixes_from(s: Seq<char>, start: int) -> Seq<Seq<char>>
    decreases s.len() - start,
{
    if start < 0 || start >= s.len() {
        seq![]
    } else if is_separator(s[start]) {
        seq![s.take(start + 1)] + separator_prefixes_from(s, start + 1)
    } else {
        separator_prefixes_from(s, start + 1)
    }
}

/// The path of child keys below a node, reached by the separators of `s` at
/// positions `>= start`, that leads to the node holding `s`.
pub open spec fn key_path_from(s: Seq<char>, start: int) -> Seq<Seq<char>> {
    let d = separator_prefixes_from(s, start);
    if d.len() > 0 && d.last() == s {
        d
    } else if d.len() == 0 && start == s.len() {
        seq![]
    } else {
        d.push(s)
    }
}

/// The path of child keys from the root to the node that holds key `s`.
pub open spec fn key_path(s: Seq<char>) -> Seq<Seq<char>> {
    key_path_from(s, 0)
}

/// The text `b` strictly extends the text `a`.
pub open spec fn extends(a: Seq<char>, b: Seq<char>) -> bool {
    a.len() < b.len() && b.take(a.len() as int) == a
}

/// `p` is a proper prefix of the path `q`.
pub open spec fn is_proper_prefix(p: Seq<Seq<char>>, q: Seq<Seq<char>>) -> bool {
    p.len() < q.len() && q.take(p.len() as int) == p
}

/// A trie keyed by full key prefixes: every node has a value and children,
/// each filed under its own prefix string.
#[derive(Debug)]
pub struct PrefixMap<T> {
    pub value: T,
    pub children: Vec<(String, PrefixMap<T>)>,
}

impl<T> PrefixMap<T> {
    /// The children of this node are filed under distinct keys.
    pub open spec fn unique_keys(&self) -> bool {
        forall|i: int, j: int|
            0 <= i < self.children@.len() && 0 <= j < self.children@.len() && i != j
                ==> self.children@[i].0@ != self.children@[j].0@
    }

    /// The subtree filed under `key` is well formed: at every node, sibling
    /// keys are unique and each child's key strictly extends its parent's.
    pub open spec fn wf_under(&self, key: Seq<char>) -> bool
        decreases self,
    {
        &&& self.unique_keys()
        &&& forall|i: int|
            0 <= i < self.children@.len() ==> extends(key, (#[trigger] self.children@[i]).0@)
                && self.children@[i].1.wf_under(self.children@[i].0@)
    }

    /// The tree is well formed, its root filed under the empty key.
    pub open spec fn wf(&self) -> bool {
        self.wf_under(Seq::empty())
    }

    /// Some child of this node is filed under `k`.
    pub open spec fn has_child(&self, k: Seq<char>) -> bool {
        exists|i: int| 0 <= i < self.children@.len() && self.children@[i].0@ == k
    }

    /// The index of the child filed under `k` (meaningful when `has_child(k)`).
    pub open spec fn child_index(&self, k: Seq<char>) -> int {
        choose|i: int| 0 <= i < self.children@.len() && self.children@[i].0@ == k
    }

    /// The value of the node reached from this one by the child keys of `path`,
    /// if there is one.
    pub open spec fn lookup(&self, path: Seq<Seq<char>>) -> Option<T>
        decreases path.len(),
    {
        if path.len() == 0 {
            Some(self.value)
        } else if self.has_child(path[0]) {
            self.children@[self.child_index(path[0])].1.lookup(path.drop_first())
        } else {
            None
        }
    }

    proof fn lemma_lookup_child(&self, j: int, p: Seq<Seq<char>>)
        requires
            self.unique_keys(),
            0 <= j < self.children@.len(),
            p.len() > 0,
            self.children@[j].0@ == p[0],
        ensures
            self.lookup(p) == self.children@[j].1.lookup(p.drop_first()),
    {
        assert(self.has_child(p[0]));
        let i = self.child_index(p[0]);
        assert(i == j);
    }

    /// Replacing the subtree at one position changes only the lookups that go
    /// through it.
    proof fn lemma_lookup_replaced(&self, b: PrefixMap<T>, idx: int, p: Seq<Seq<char>>)
        requires
            self.unique_keys(),
            b.value == self.value,
            b.children@.len() == self.children@.len(),
            0 <= idx < self.children@.len(),
            b.children@[idx].0@ == self.children@[idx].0@,
            forall|j: int| 0 <= j < self.children@.len() && j != idx ==> b.children@[j] == self.children@[j],
            p.len() > 0,
        ensures
            b.unique_keys(),
            p[0] == self.children@[idx].0@ ==> b.lookup(p) == b.children@[idx].1.lookup(p.drop_first()),
            p[0] != self.children@[idx].0@ ==> b.lookup(p) == self.lookup(p),
    {
        assert forall|i: int, j: int|
            0 <= i < b.children@.len() && 0 <= j < b.children@.len() && i != j
                implies b.children@[i].0@ != b.children@[j].0@ by {
            assert(self.children@[i].0@ != self.children@[j].0@);
        }
        if p[0] == self.children@[idx].0@ {
            b.lemma_lookup_child(idx, p);
        } else if self.has_child(p[0]) {
            let j = self.child_index(p[0]);
            self.lemma_lookup_child(j, p);
            b.lemma_lookup_child(j, p);
        } else {
            assert(!b.has_child(p[0])) by {
                if b.has_child(p[0]) {
                    let j = b.child_index(p[0]);
                    assert(self.children@[j].0@ == p[0]);
                }
            }
        }
    }

    /// Adding a child under a new key changes only the lookups that go through it.
    proof fn lemma_lookup_pushed(&self, b: PrefixMap<T>, e: (String, PrefixMap<T>), p: Seq<Seq<char>>)
        requires
            self.unique_keys(),
            !self.has_child(e.0@),
            b.value == self.value,
            b.children@ == self.children@.push(e),
            p.len() > 0,
        ensures
            b.unique_keys(),
            p[0] == e.0@ ==> b.lookup(p) == e.1.lookup(p.drop_first()),
            p[0] != e.0@ ==> b.lookup(p) == self.lookup(p),
    {
        let n = self.children@.len();
        assert forall|i: int, j: int|
            0 <= i < b.children@.len() && 0 <= j < b.children@.len() && i != j
                implies b.children@[i].0@ != b.children@[j].0@ by {
            if i < n && j < n {
                assert(self.children@[i].0@ != self.children@[j].0@);
            } else if i < n {
                assert(self.children@[i].0@ != e.0@);
            } else {
                assert(self.children@[j].0@ != e.0@);
            }
        }
        if p[0] == e.0@ {
            b.lemma_lookup_child(n as int, p);
        } else if self.has_child(p[0]) {
            let j = self.child_index(p[0]);
            self.lemma_lookup_child(j, p);
            b.lemma_lookup_child(j, p);
        } else {
            assert(!b.has_child(p[0])) by {
                if b.has_child(p[0]) {
                    let j = b.child_index(p[0]);
                    assert(self.children@[j].0@ == p[0]);
                }
            }
        }
    }

    pub fn new(value: T, children: Vec<(String, PrefixMap<T>)>) -> (r: Self)
        ensures
            r.value == value,
            r.children == children,
    {
        PrefixMap { value, children }
    }

    /// The position of the child filed under `key`.
    pub fn find_child(&self, key: &str) -> (r: Option<usize>)
        ensures
            r.is_some() <==> self.has_child(key@),
            r.is_some() ==> r.unwrap() < self.children@.len() && self.children@[r.unwrap() as int].0@
                == key@,
    {
        let k = String::from_str(key);
        let mut i: usize = 0;
        while i < self.children.len()
            invariant
                i <= self.children@.len(),
                k@ == key@,
                forall|j: int| 0 <= j < i ==> self.children@[j].0@ != key@,
            decreases self.children@.len() - i,
        {
            if self.children[i].0.eq(&k) {
                return Some(i);
            }
            i = i + 1;
        }
        None
    }

    /// The child filed under `key`.
    pub fn get(&self, key: &str) -> (r: Option<&PrefixMap<T>>)
        ensures
            r.is_some() <==> self.has_child(key@),
            r.is_some() ==> exists|i: int|
                0 <= i < self.children@.len() && self.children@[i].0@ == key@ && *r.unwrap()
                    == self.children@[i].1,
            r.is_some() && self.unique_keys() ==> *r.unwrap() == self.children@[self.child_index(key@)].1,
    {
        match self.find_child(key) {
            Some(i) => {
                proof {
                    assert(self.children@[i as int].0@ == key@);
                    if self.unique_keys() {
                        assert(self.child_index(key@) == i);
                    }
                }
                Some(&self.children[i].1)
            },
            None => None,
        }
    }

    /// The number of children of this node.
    pub fn len(&self) -> (r: usize)
        ensures
            r == self.children@.len(),
    {
        self.children.len()
    }

    /// The children of this node with their keys.
    pub fn iter(&self) -> (r: &[(String, PrefixMap<T>)])
        ensures
            r@ == self.children@,
    {
        self.children.as_slice()
    }
}

impl<V> Default for PrefixMap<Option<V>> {
    /// An empty tree: a root with no value and no children.
    fn default() -> (r: Self)
        ensures
            r.value.is_none(),
            r.children@.len() == 0,
            r.wf(),
    {
        PrefixMap { value: None, children: Vec::new() }
    }
}

/// `after` is `before` with `v` stored at the node reached by `path`, every
/// node on the way that was missing added with no value, and nothing else
/// changed.
pub open spec fn inserted<V>(
    before: PrefixMap<Option<V>>,
    after: PrefixMap<Option<V>>,
    path: Seq<Seq<char>>,
    v: V,
) -> bool {
    forall|p: Seq<Seq<char>>|
        #[trigger] after.lookup(p) == if p == path {
            Some(Some(v))
        } else if is_proper_prefix(p, path) && before.lookup(p).is_none() {
            Some(None)
        } else {
            before.lookup(p)
        }
}

/// Inserting along `rest` below the child filed under `k` (added first, with no
/// value, where it was missing) inserts along `[k] + rest` here.
proof fn lemma_inserted_below<V>(
    before: PrefixMap<Option<V>>,
    mid: PrefixMap<Option<V>>,
    after: PrefixMap<Option<V>>,
    idx: int,
    k: Seq<char>,
    rest: Seq<Seq<char>>,
    c0: PrefixMap<Option<V>>,
    v: V,
)
    requires
        before.unique_keys(),
        0 <= idx < mid.children@.len(),
        mid.children@[idx].0@ == k,
        mid.children@[idx].1 == c0,
        before.has_child(k) ==> mid == before,
        !before.has_child(k) ==> mid.value == before.value && mid.children@ == before.children@.push(
            mid.children@[idx],
        ) && c0.value.is_none() && c0.children@.len() == 0,
        after.value == mid.value,
        after.children@.len() == mid.children@.len(),
        after.children@[idx].0 == mid.children@[idx].0,
        forall|j: int| 0 <= j < mid.children@.len() && j != idx ==> after.children@[j] == mid.children@[j],
        inserted(c0, after.children@[idx].1, rest, v),
    ensures
        after.unique_keys(),
        inserted(before, after, seq![k] + rest, v),
{
    let lp = seq![k] + rest;
    if !before.has_child(k) {
        before.lemma_lookup_pushed(mid, mid.children@[idx], seq![k]);
    }
    assert(mid.unique_keys());
    mid.lemma_lookup_replaced(after, idx, seq![k]);
    assert forall|p: Seq<Seq<char>>| #[trigger] after.lookup(p) == if p == lp {
        Some(Some(v))
    } else if is_proper_prefix(p, lp) && before.lookup(p).is_none() {
        Some(None)
    } else {
        before.lookup(p)
    } by {
        if p.len() == 0 {
            assert(after.lookup(p) == before.lookup(p));
        } else {
            mid.lemma_lookup_replaced(after, idx, p);
            if p[0] == k {
                let q = p.drop_first();
                assert(p =~= seq![k] + q);
                assert(lp.drop_first() =~= rest);
                assert((p == lp) == (q == rest));
                assert(is_proper_prefix(p, lp) == is_proper_prefix(q, rest)) by {
                    if is_proper_prefix(q, rest) {
                        assert(lp.take(p.len() as int) =~= seq![k] + rest.take(q.len() as int));
                    }
                    if is_proper_prefix(p, lp) {
                        assert(rest.take(q.len() as int) =~= lp.take(p.len() as int).drop_first());
                    }
                }
                assert(after.lookup(p) == after.children@[idx].1.lookup(q));
                if before.has_child(k) {
                    before.lemma_lookup_child(idx, p);
                    assert(before.lookup(p) == c0.lookup(q));
                } else {
                    assert(before.lookup(p) == None::<Option<V>>);
                    if q.len() > 0 {
                        assert(!c0.has_child(q[0]));
                        assert(c0.lookup(q) == None::<Option<V>>);
                    } else {
                        assert(c0.lookup(q) == Some(None::<V>));
                        assert(rest.take(0) =~= q);
                    }
                }
            } else {
                if !before.has_child(k) {
                    before.lemma_lookup_pushed(mid, mid.children@[idx], p);
                }
                assert(after.lookup(p) == before.lookup(p));
                assert(p != lp);
                assert(!is_proper_prefix(p, lp)) by {
                    if is_proper_prefix(p, lp) {
                        assert(lp.take(p.len() as int)[0] == p[0]);
                    }
                }
            }
        }
    }
}

/// The weight `w` gives a node's value: none where it has no value.
pub open spec fn weight<V>(value: Option<V>, w: spec_fn(V) -> nat) -> nat {
    match value {
        Some(v) => w(v),
        None => 0,
    }
}

/// The weight `w` gives what a lookup found: none where no value was found.
pub open spec fn found_weight<V>(found: Option<Option<V>>, w: spec_fn(V) -> nat) -> nat {
    match found {
        Some(Some(v)) => w(v),
        _ => 0,
    }
}

/// The total weight that `w` gives the values stored in `t`.
pub open spec fn tree_total<V>(t: PrefixMap<Option<V>>, w: spec_fn(V) -> nat) -> nat
    decreases t, 1nat, 0nat,
{
    weight(t.value, w) + children_total(t.children@, w, t.children@.len() as int)
}

/// The total weight that `w` gives the values stored in the first `n`
/// subtrees of `cs`.
pub open spec fn children_total<V>(cs: Seq<(String, PrefixMap<Option<V>>)>, w: spec_fn(V) -> nat, n: int) -> nat
    decreases cs, 0nat, n,
{
    if n <= 0 || n > cs.len() {
        0
    } else {
        children_total(cs, w, n - 1) + tree_total(cs[n - 1].1, w)
    }
}

/// Weighs each stored value one: `tree_total` with it counts the values.
pub open spec fn unit_weight<V>() -> spec_fn(V) -> nat {
    |v: V| 1nat
}

/// Weighs each stored number by itself: `tree_total` with it sums them.
pub open spec fn value_weight() -> spec_fn(u64) -> nat {
    |v: u64| v as nat
}

/// What `insert` does: `after` is `before` with `v` inserted under `key`,
/// and the value that `key` held, if any, has given way to `v` in every total.
pub open spec fn insert_step<V>(before: PrefixMap<Option<V>>, after: PrefixMap<Option<V>>, key: Seq<char>, v: V) -> bool {
    &&& inserted(before, after, key_path(key), v)
    &&& forall|w: spec_fn(V) -> nat|
        #[trigger] tree_total(after, w) + found_weight(before.lookup(key_path(key)), w) == tree_total(before, w)
            + w(v)
}

proof fn lemma_children_total_prefix<V>(
    a: Seq<(String, PrefixMap<Option<V>>)>,
    b: Seq<(String, PrefixMap<Option<V>>)>,
    w: spec_fn(V) -> nat,
    n: int,
)
    requires
        0 <= n <= a.len(),
        n <= b.len(),
        forall|j: int| 0 <= j < n ==> a[j] == b[j],
    ensures
        children_total(a, w, n) == children_total(b, w, n),
    decreases n,
{
    if n > 0 {
        lemma_children_total_prefix(a, b, w, n - 1);
    }
}

proof fn lemma_children_total_update<V>(
    cs: Seq<(String, PrefixMap<Option<V>>)>,
    idx: int,
    e: (String, PrefixMap<Option<V>>),
    w: spec_fn(V) -> nat,
    n: int,
)
    requires
        0 <= idx < n <= cs.len(),
    ensures
        children_total(cs.update(idx, e), w, n) + tree_total(cs[idx].1, w) == children_total(cs, w, n)
            + tree_total(e.1, w),
    decreases n,
{
    if n - 1 == idx {
        lemma_children_total_prefix(cs.update(idx, e), cs, w, n - 1);
    } else {
        lemma_children_total_update(cs, idx, e, w, n - 1);
    }
}

proof fn lemma_children_total_push<V>(
    cs: Seq<(String, PrefixMap<Option<V>>)>,
    e: (String, PrefixMap<Option<V>>),
    w: spec_fn(V) -> nat,
)
    ensures
        children_total(cs.push(e), w, cs.len() + 1 as int) == children_total(cs, w, cs.len() as int) + tree_total(e.1, w),
{
    lemma_children_total_prefix(cs.push(e), cs, w, cs.len() as int);
}

/// The totals after inserting along `[k] + rest` below a child, given those of
/// the child.
proof fn lemma_total_below<V>(
    before: PrefixMap<Option<V>>,
    mid: PrefixMap<Option<V>>,
    after: PrefixMap<Option<V>>,
    idx: int,
    k: Seq<char>,
    rest: Seq<Seq<char>>,
    c0: PrefixMap<Option<V>>,
    v: V,
    w: spec_fn(V) -> nat,
)
    requires
        before.unique_keys(),
        0 <= idx < mid.children@.len(),
        mid.children@[idx].0@ == k,
        mid.children@[idx].1 == c0,
        before.has_child(k) ==> mid == before,
        !before.has_child(k) ==> mid.value == before.value && mid.children@ == before.children@.push(
            mid.children@[idx],
        ) && c0.value.is_none() && c0.children@.len() == 0,
        after.value == mid.value,
        after.children@ == mid.children@.update(idx, after.children@[idx]),
        tree_total(after.children@[idx].1, w) + found_weight(c0.lookup(rest), w) == tree_total(c0, w) + w(v),
    ensures
        tree_total(after, w) + found_weight(before.lookup(seq![k] + rest), w) == tree_total(before, w) + w(v),
{
    let lp = seq![k] + rest;
    let n = mid.children@.len() as int;
    lemma_children_total_update(mid.children@, idx, after.children@[idx], w, n);
    assert(lp.drop_first() =~= rest);
    if before.has_child(k) {
        before.lemma_lookup_child(idx, lp);
    } else {
        lemma_children_total_push(before.children@, mid.children@[idx], w);
        assert(children_total(c0.children@, w, 0) == 0);
        assert(before.lookup(lp) == None::<Option<V>>);
        if rest.len() > 0 {
            assert(!c0.has_child(rest[0]));
        }
    }
}

proof fn lemma_key_path_end(s: Seq<char>)
    ensures
        s.len() == 0 ==> key_path(s) == Seq::<Seq<char>>::empty(),
        s.len() > 0 ==> key_path(s).len() > 0 && key_path(s).last() == s,
{
    if s.len() == 0 {
        assert(key_path(s) =~= Seq::<Seq<char>>::empty());
    }
}

proof fn lemma_key_path_injective(k1: Seq<char>, k2: Seq<char>)
    requires
        k1 != k2,
    ensures
        key_path(k1) != key_path(k2),
{
    lemma_key_path_end(k1);
    lemma_key_path_end(k2);
    if k1.len() == 0 {
        assert(k1 =~= Seq::<char>::empty());
        if k2.len() == 0 {
            assert(k2 =~= Seq::<char>::empty());
        }
    } else if k2.len() > 0 {
        assert(key_path(k1).last() != key_path(k2).last());
    }
}

/// A lookup found a stored value.
pub open spec fn is_stored<V>(found: Option<Option<V>>) -> bool {
    match found {
        Some(Some(_)) => true,
        _ => false,
    }
}

/// The total weight that `w` gives the values `vals`.
pub open spec fn weights_sum<V>(vals: Seq<V>, w: spec_fn(V) -> nat) -> nat
    decreases vals.len(),
{
    if vals.len() == 0 {
        0
    } else {
        weights_sum(vals.drop_last(), w) + w(vals.last())
    }
}

proof fn lemma_inserts_so_far<V>(
    trees: Seq<PrefixMap<Option<V>>>,
    keys: Seq<Seq<char>>,
    vals: Seq<V>,
    w: spec_fn(V) -> nat,
    m: int,
)
    requires
        trees.len() == keys.len() + 1,
        vals.len() == keys.len(),
        trees[0].value.is_none(),
        trees[0].children@.len() == 0,
        forall|i: int, j: int| 0 <= i < j < keys.len() ==> keys[i] != keys[j],
        forall|i: int| 0 <= i < keys.len() ==> insert_step(trees[i], #[trigger] trees[i + 1], keys[i], vals[i]),
        0 <= m <= keys.len(),
    ensures
        tree_total(trees[m], w) == weights_sum(vals.take(m), w),
        forall|p: Seq<Seq<char>>|
            is_stored(#[trigger] trees[m].lookup(p)) ==> exists|i: int| 0 <= i < m && p == key_path(keys[i]),
    decreases m,
{
    if m == 0 {
        assert(vals.take(0) =~= Seq::<V>::empty());
        assert(children_total(trees[0].children@, w, 0) == 0);
        assert forall|p: Seq<Seq<char>>| !is_stored(#[trigger] trees[0].lookup(p)) by {
            if p.len() > 0 {
                assert(!trees[0].has_child(p[0]));
            }
        }
    } else {
        let i = m - 1;
        lemma_inserts_so_far(trees, keys, vals, w, i);
        assert(insert_step(trees[i], trees[i + 1], keys[i], vals[i]));
        let lp = key_path(keys[i]);
        assert(!is_stored(trees[i].lookup(lp))) by {
            if is_stored(trees[i].lookup(lp)) {
                let j = choose|j: int| 0 <= j < i && lp == key_path(keys[j]);
                lemma_key_path_injective(keys[j], keys[i]);
            }
        }
        assert(tree_total(trees[m], w) + found_weight(trees[i].lookup(lp), w) == tree_total(trees[i], w) + w(
            vals[i],
        ));
        assert(vals.take(m).drop_last() =~= vals.take(i));
        assert forall|p: Seq<Seq<char>>| is_stored(#[trigger] trees[m].lookup(p)) implies exists|j: int|
            0 <= j < m && p == key_path(keys[j]) by {
            if p != lp {
                assert(is_stored(trees[i].lookup(p)));
                let j = choose|j: int| 0 <= j < i && p == key_path(keys[j]);
                assert(0 <= j < m && p == key_path(keys[j]));
            }
        }
    }
}

/// Inserting distinct keys one after another into an empty tree stores each
/// of their values once: whatever the weight `w`, the tree's total is the
/// sum of the values' weights. With `unit_weight` that total is the number of
/// keys, with `value_weight` the sum of the values.
pub proof fn lemma_distinct_inserts_total<V>(
    trees: Seq<PrefixMap<Option<V>>>,
    keys: Seq<Seq<char>>,
    vals: Seq<V>,
    w: spec_fn(V) -> nat,
)
    requires
        trees.len() == keys.len() + 1,
        vals.len() == keys.len(),
        trees[0].value.is_none(),
        trees[0].children@.len() == 0,
        forall|i: int, j: int| 0 <= i < j < keys.len() ==> keys[i] != keys[j],
        forall|i: int| 0 <= i < keys.len() ==> insert_step(trees[i], #[trigger] trees[i + 1], keys[i], vals[i]),
    ensures
        tree_total(trees.last(), w) == weights_sum(vals, w),
{
    lemma_inserts_so_far(trees, keys, vals, w, keys.len() as int);
    assert(vals.take(keys.len() as int) =~= vals);
}

/// With `unit_weight`, values weigh one each: their total is their number.
pub proof fn lemma_unit_weights_sum<V>(vals: Seq<V>)
    ensures
        weights_sum(vals, unit_weight()) == vals.len(),
    decreases vals.len(),
{
    if vals.len() > 0 {
        lemma_unit_weights_sum(vals.drop_last());
    }
}

/// The value last given to `k` in a run that inserts `vals[i]` under
/// `keys[i]`, in order.
pub open spec fn last_value<V>(keys: Seq<Seq<char>>, vals: Seq<V>, k: Seq<char>) -> Option<V>
    decreases keys.len(),
{
    if keys.len() == 0 || vals.len() != keys.len() {
        None
    } else if keys.last() == k {
        Some(vals.last())
    } else {
        last_value(keys.drop_last(), vals.drop_last(), k)
    }
}

/// What a lookup of `p` finds after inserting `vals[i]` under `keys[i]`, in
/// order, into an empty tree: the last value of the key whose path `p` is;
/// else no value where `p` is the root or leads on to some key's node; else
/// nothing.
pub open spec fn run_lookup<V>(keys: Seq<Seq<char>>, vals: Seq<V>, p: Seq<Seq<char>>) -> Option<Option<V>> {
    if exists|i: int| 0 <= i < keys.len() && #[trigger] key_path(keys[i]) == p {
        let i = choose|i: int| 0 <= i < keys.len() && #[trigger] key_path(keys[i]) == p;
        Some(last_value(keys, vals, keys[i]))
    } else if p.len() == 0 || exists|i: int| 0 <= i < keys.len() && is_proper_prefix(p, #[trigger] key_path(keys[i])) {
        Some(None)
    } else {
        None
    }
}

proof fn lemma_last_value_some<V>(keys: Seq<Seq<char>>, vals: Seq<V>, i: int)
    requires
        vals.len() == keys.len(),
        0 <= i < keys.len(),
    ensures
        last_value(keys, vals, keys[i]).is_some(),
    decreases keys.len(),
{
    if keys.last() != keys[i] {
        lemma_last_value_some(keys.drop_last(), vals.drop_last(), i);
    }
}

proof fn lemma_run_so_far<V>(
    trees: Seq<PrefixMap<Option<V>>>,
    keys: Seq<Seq<char>>,
    vals: Seq<V>,
    m: int,
)
    requires
        trees.len() == keys.len() + 1,
        vals.len() == keys.len(),
        trees[0].value.is_none(),
        trees[0].children@.len() == 0,
        forall|i: int| 0 <= i < keys.len() ==> insert_step(trees[i], #[trigger] trees[i + 1], keys[i], vals[i]),
        0 <= m <= keys.len(),
    ensures
        forall|p: Seq<Seq<char>>| #[trigger] trees[m].lookup(p) == run_lookup(keys.take(m), vals.take(m), p),
    decreases m,
{
    if m == 0 {
        assert forall|p: Seq<Seq<char>>| #[trigger] trees[0].lookup(p) == run_lookup(keys.take(0), vals.take(0), p) by {
            if p.len() > 0 {
                assert(!trees[0].has_child(p[0]));
            } else {
                assert(p =~= Seq::<Seq<char>>::empty());
            }
        }
    } else {
        let i = m - 1;
        lemma_run_so_far(trees, keys, vals, i);
        assert(insert_step(trees[i], trees[i + 1], keys[i], vals[i]));
        let ka = keys.take(i);
        let va = vals.take(i);
        let kb = keys.take(m);
        let vb = vals.take(m);
        assert(kb.drop_last() =~= ka);
        assert(vb.drop_last() =~= va);
        let lp = key_path(keys[i]);
        assert forall|p: Seq<Seq<char>>| #[trigger] trees[m].lookup(p) == run_lookup(kb, vb, p) by {
            assert(trees[i].lookup(p) == run_lookup(ka, va, p));
            if p == lp {
                assert(key_path(kb[i]) == p);
                let j = choose|j: int| 0 <= j < kb.len() && #[trigger] key_path(kb[j]) == p;
                if kb[j] != kb[i] {
                    lemma_key_path_injective(kb[j], kb[i]);
                }
            } else {
                if exists|j: int| 0 <= j < kb.len() && #[trigger] key_path(kb[j]) == p {
                    let j = choose|j: int| 0 <= j < kb.len() && #[trigger] key_path(kb[j]) == p;
                    assert(j < i);
                    assert(ka[j] == kb[j]);
                    assert(key_path(ka[j]) == p);
                    let j2 = choose|j: int| 0 <= j < ka.len() && #[trigger] key_path(ka[j]) == p;
                    if ka[j2] != kb[j] {
                        lemma_key_path_injective(ka[j2], kb[j]);
                    }
                    assert(kb[j] != keys[i]);
                } else {
                    assert(!exists|j: int| 0 <= j < ka.len() && #[trigger] key_path(ka[j]) == p) by {
                        if exists|j: int| 0 <= j < ka.len() && #[trigger] key_path(ka[j]) == p {
                            let j = choose|j: int| 0 <= j < ka.len() && #[trigger] key_path(ka[j]) == p;
                            assert(key_path(kb[j]) == p);
                        }
                    }
                    if exists|j: int| 0 <= j < ka.len() && is_proper_prefix(p, #[trigger] key_path(ka[j])) {
                        let j = choose|j: int| 0 <= j < ka.len() && is_proper_prefix(p, #[trigger] key_path(ka[j]));
                        assert(key_path(kb[j]) == key_path(ka[j]));
                    }
                    if is_proper_prefix(p, lp) {
                        assert(key_path(kb[i]) == lp);
                    }
                    if exists|j: int| 0 <= j < kb.len() && is_proper_prefix(p, #[trigger] key_path(kb[j])) {
                        let j = choose|j: int| 0 <= j < kb.len() && is_proper_prefix(p, #[trigger] key_path(kb[j]));
                        if j < i {
                            assert(key_path(ka[j]) == key_path(kb[j]));
                        }
                    }
                }
            }
        }
    }
}

/// Inserting the same keys in any order that gives each key the same last
/// value builds the same tree, up to the order in which children are kept:
/// the lookups after two such runs from an empty tree agree everywhere.
pub proof fn lemma_insert_order_irrelevant<V>(
    trees1: Seq<PrefixMap<Option<V>>>,
    keys1: Seq<Seq<char>>,
    vals1: Seq<V>,
    trees2: Seq<PrefixMap<Option<V>>>,
    keys2: Seq<Seq<char>>,
    vals2: Seq<V>,
)
    requires
        trees1.len() == keys1.len() + 1,
        vals1.len() == keys1.len(),
        trees1[0].value.is_none(),
        trees1[0].children@.len() == 0,
        forall|i: int| 0 <= i < keys1.len() ==> insert_step(trees1[i], #[trigger] trees1[i + 1], keys1[i], vals1[i]),
        trees2.len() == keys2.len() + 1,
        vals2.len() == keys2.len(),
        trees2[0].value.is_none(),
        trees2[0].children@.len() == 0,
        forall|i: int| 0 <= i < keys2.len() ==> insert_step(trees2[i], #[trigger] trees2[i + 1], keys2[i], vals2[i]),
        forall|k: Seq<char>| #[trigger] keys1.contains(k) == keys2.contains(k),
        forall|k: Seq<char>| #[trigger] last_value(keys1, vals1, k) == last_value(keys2, vals2, k),
    ensures
        forall|p: Seq<Seq<char>>| trees1.last().lookup(p) == #[trigger] trees2.last().lookup(p),
{
    lemma_run_so_far(trees1, keys1, vals1, keys1.len() as int);
    lemma_run_so_far(trees2, keys2, vals2, keys2.len() as int);
    assert(keys1.take(keys1.len() as int) =~= keys1);
    assert(vals1.take(keys1.len() as int) =~= vals1);
    assert(keys2.take(keys2.len() as int) =~= keys2);
    assert(vals2.take(keys2.len() as int) =~= vals2);
    assert forall|p: Seq<Seq<char>>| trees1.last().lookup(p) == #[trigger] trees2.last().lookup(p) by {
        assert(trees1.last().lookup(p) == run_lookup(keys1, vals1, p));
        assert(trees2.last().lookup(p) == run_lookup(keys2, vals2, p));
        if exists|i: int| 0 <= i < keys1.len() && #[trigger] key_path(keys1[i]) == p {
            let i = choose|i: int| 0 <= i < keys1.len() && #[trigger] key_path(keys1[i]) == p;
            assert(keys1.contains(keys1[i]));
            assert(keys2.contains(keys1[i]));
            let j0 = choose|j: int| 0 <= j < keys2.len() && keys2[j] == keys1[i];
            assert(key_path(keys2[j0]) == p);
            let j = choose|j: int| 0 <= j < keys2.len() && #[trigger] key_path(keys2[j]) == p;
            if keys2[j] != keys1[i] {
                lemma_key_path_injective(keys2[j], keys1[i]);
            }
        } else {
            assert(!exists|j: int| 0 <= j < keys2.len() && #[trigger] key_path(keys2[j]) == p) by {
                if exists|j: int| 0 <= j < keys2.len() && #[trigger] key_path(keys2[j]) == p {
                    let j = choose|j: int| 0 <= j < keys2.len() && #[trigger] key_path(keys2[j]) == p;
                    assert(keys2.contains(keys2[j]));
                    assert(keys1.contains(keys2[j]));
                    let i = choose|i: int| 0 <= i < keys1.len() && keys1[i] == keys2[j];
                    assert(key_path(keys1[i]) == p);
                }
            }
            if exists|i: int| 0 <= i < keys1.len() && is_proper_prefix(p, #[trigger] key_path(keys1[i])) {
                let i = choose|i: int| 0 <= i < keys1.len() && is_proper_prefix(p, #[trigger] key_path(keys1[i]));
                assert(keys1.contains(keys1[i]));
                let j = choose|j: int| 0 <= j < keys2.len() && keys2[j] == keys1[i];
                assert(is_proper_prefix(p, key_path(keys2[j])));
            }
            if exists|j: int| 0 <= j < keys2.len() && is_proper_prefix(p, #[trigger] key_path(keys2[j])) {
                let j = choose|j: int| 0 <= j < keys2.len() && is_proper_prefix(p, #[trigger] key_path(keys2[j]));
                assert(keys2.contains(keys2[j]));
                assert(keys1.contains(keys2[j]));
                let i = choose|i: int| 0 <= i < keys1.len() && keys1[i] == keys2[j];
                assert(is_proper_prefix(p, key_path(keys1[i])));
            }
        }
    }
}

/// Inserting two different keys gives the same tree in either order: the
/// order of insertion of distinct keys does not matter, up to the order in
/// which children are kept.
pub proof fn lemma_insert_commutes<V>(
    t: PrefixMap<Option<V>>,
    a1: PrefixMap<Option<V>>,
    a2: PrefixMap<Option<V>>,
    b1: PrefixMap<Option<V>>,
    b2: PrefixMap<Option<V>>,
    k1: Seq<char>,
    v1: V,
    k2: Seq<char>,
    v2: V,
)
    requires
        k1 != k2,
        inserted(t, a1, key_path(k1), v1),
        inserted(a1, a2, key_path(k2), v2),
        inserted(t, b1, key_path(k2), v2),
        inserted(b1, b2, key_path(k1), v1),
    ensures
        forall|p: Seq<Seq<char>>| a2.lookup(p) == #[trigger] b2.lookup(p),
{
    lemma_key_path_injective(k1, k2);
    assert forall|p: Seq<Seq<char>>| a2.lookup(p) == #[trigger] b2.lookup(p) by {
        assert(a1.lookup(p) == a1.lookup(p));
        assert(b1.lookup(p) == b1.lookup(p));
    }
}

/// Inserting a key twice leaves the tree that inserting it once with the
/// second value gives: the last write wins.
pub proof fn lemma_insert_last_write_wins<V>(
    t: PrefixMap<Option<V>>,
    a1: PrefixMap<Option<V>>,
    a2: PrefixMap<Option<V>>,
    b: PrefixMap<Option<V>>,
    k: Seq<char>,
    v1: V,
    v2: V,
)
    requires
        inserted(t, a1, key_path(k), v1),
        inserted(a1, a2, key_path(k), v2),
        inserted(t, b, key_path(k), v2),
    ensures
        forall|p: Seq<Seq<char>>| a2.lookup(p) == #[trigger] b.lookup(p),
{
    assert forall|p: Seq<Seq<char>>| a2.lookup(p) == #[trigger] b.lookup(p) by {
        assert(a1.lookup(p) == a1.lookup(p));
    }
}

proof fn lemma_skip_plain(s: Seq<char>, start: int, i: int)
    requires
        0 <= start <= i <= s.len(),
        forall|j: int| start <= j < i ==> !is_separator(s[j]),
    ensures
        separator_prefixes_from(s, start) == separator_prefixes_from(s, i),
    decreases i - start,
{
    if start < i {
        lemma_skip_plain(s, start + 1, i);
    }
}

proof fn lemma_path_step(s: Seq<char>, i: int)
    requires
        0 <= i < s.len(),
        is_separator(s[i]),
    ensures
        key_path_from(s, i) == seq![s.take(i + 1)] + key_path_from(s, i + 1),
{
    let t = s.take(i + 1);
    let d1 = separator_prefixes_from(s, i + 1);
    let d = separator_prefixes_from(s, i);
    assert(d == seq![t] + d1);
    if d1.len() > 0 {
        assert(d.last() == d1.last());
        if d1.last() == s {
            assert(key_path_from(s, i) == d);
        } else {
            assert(key_path_from(s, i) =~= seq![t] + d1.push(s));
        }
    } else if i + 1 == s.len() {
        assert(t =~= s);
        assert(key_path_from(s, i) =~= seq![t]);
    } else {
        assert(t.len() != s.len());
        assert(key_path_from(s, i) =~= seq![t] + d1.push(s));
    }
}

/// The position of the first separator of `key` at or after `start`.
fn next_separator(key: &str, start: usize) -> (r: Option<usize>)
    requires
        start <= key@.len(),
    ensures
        match r {
            Some(i) => start <= i < key@.len() && is_separator(key@[i as int]) && forall|j: int|
                start <= j < i ==> !is_separator(key@[j]),
            None => forall|j: int| start <= j < key@.len() ==> !is_separator(key@[j]),
        },
{
    let n = key.unicode_len();
    let mut i: usize = start;
    while i < n
        invariant
            n == key@.len(),
            start <= i <= n,
            forall|j: int| start <= j < i ==> !is_separator(key@[j]),
        decreases n - i,
    {
        let c = key.get_char(i);
        if c == ':' || c == '|' || c == ',' || c == '.' || c == '_' {
            return Some(i);
        }
        i = i + 1;
    }
    None
}

impl<V> PrefixMap<Option<V>> {
    /// Stores `value` under `key`, creating the intermediate nodes for each
    /// prefix of `key` that ends at a separator.
    pub fn insert(&mut self, key: String, value: V)
        requires
            old(self).wf(),
        ensures
            final(self).wf(),
            insert_step(*old(self), *final(self), key@, value),
    {
        proof {
            assert(key@.take(0) =~= Seq::<char>::empty());
        }
        self.insert_from(&key, 0, value);
    }

    fn insert_from(&mut self, key: &String, start: usize, value: V)
        requires
            old(self).wf_under(key@.take(start as int)),
            start <= key@.len(),
        ensures
            final(self).wf_under(key@.take(start as int)),
            inserted(*old(self), *final(self), key_path_from(key@, start as int), value),
            forall|w: spec_fn(V) -> nat|
                #[trigger] tree_total(*final(self), w) + found_weight(
                    old(self).lookup(key_path_from(key@, start as int)),
                    w,
                ) == tree_total(*old(self), w) + w(value),
        decreases key@.len() - start,
    {
        let ghost before = *self;
        let _n = key.as_str().unicode_len();
        match next_separator(key.as_str(), start) {
            Some(i) => {
                let prefix = String::from_str(key.as_str().substring_char(0, i + 1));
                let ghost rest = key_path_from(key@, i + 1);
                proof {
                    lemma_skip_plain(key@, start as int, i as int);
                    lemma_path_step(key@, i as int);
                    assert(key_path_from(key@, start as int) =~= seq![prefix@] + rest);
                }
                let idx = match self.find_child(prefix.as_str()) {
                    Some(idx) => idx,
                    None => {
                        let fresh = PrefixMap { value: None, children: Vec::new() };
                        self.children.push((prefix, fresh));
                        proof {
                            assert(key@.take(i + 1).take(start as int) =~= key@.take(start as int));
                            before.lemma_lookup_pushed(*self, self.children@.last(), seq![prefix@]);
                            assert forall|j: int| 0 <= j < self.children@.len() implies (
                            #[trigger] self.children@[j]).1.wf_under(self.children@[j].0@) && extends(
                            key@.take(start as int),
                            self.children@[j].0@,
                        ) by {
                                if j < before.children@.len() {
                                    assert(self.children@[j] == before.children@[j]);
                                }
                            }
                        }
                        self.children.len() - 1
                    },
                };
                let ghost mid = *self;
                assert(mid.wf_under(key@.take(start as int)));
                assert(mid.children@[idx as int].0@ == key@.take(i + 1));
                let (k, mut child) = self.children.remove(idx);
                let ghost c0 = child;
                child.insert_from(key, i + 1, value);
                self.children.insert(idx, (k, child));
                proof {
                    assert(self.children@ =~= mid.children@.update(idx as int, (k, child)));
                    lemma_inserted_below(before, mid, *self, idx as int, prefix@, rest, c0, value);
                    assert forall|w: spec_fn(V) -> nat|
                        #[trigger] tree_total(*self, w) + found_weight(
                            before.lookup(key_path_from(key@, start as int)),
                            w,
                        ) == tree_total(before, w) + w(value) by {
                        lemma_total_below(before, mid, *self, idx as int, prefix@, rest, c0, value, w);
                    }
                    assert forall|j: int| 0 <= j < self.children@.len() implies (
                    #[trigger] self.children@[j]).1.wf_under(self.children@[j].0@) && extends(
                            key@.take(start as int),
                            self.children@[j].0@,
                        ) by {
                        if j != idx {
                            assert(self.children@[j] == mid.children@[j]);
                        }
                    }
                }
            },
            None => {
                self.insert_here(key, start, value);
            },
        }
    }

    /// Stores `value` for `key` at or below this node when no separator of `key`
    /// lies at or after `start`.
    fn insert_here(&mut self, key: &String, start: usize, value: V)
        requires
            old(self).wf_under(key@.take(start as int)),
            start <= key@.len(),
            forall|j: int| start <= j < key@.len() ==> !is_separator(key@[j]),
        ensures
            final(self).wf_under(key@.take(start as int)),
            inserted(*old(self), *final(self), key_path_from(key@, start as int), value),
            forall|w: spec_fn(V) -> nat|
                #[trigger] tree_total(*final(self), w) + found_weight(
                    old(self).lookup(key_path_from(key@, start as int)),
                    w,
                ) == tree_total(*old(self), w) + w(value),
    {
        let ghost before = *self;
        proof {
            lemma_skip_plain(key@, start as int, key@.len() as int);
        }
        if start == key.as_str().unicode_len() {
            self.value = Some(value);
            proof {
                assert(separator_prefixes_from(key@, key@.len() as int) =~= seq![]);
                assert(key_path_from(key@, start as int) =~= seq![]);
                assert forall|p: Seq<Seq<char>>| #[trigger] self.lookup(p) == if p
                    == key_path_from(key@, start as int) {
                    Some(Some(value))
                } else if is_proper_prefix(p, key_path_from(key@, start as int))
                    && before.lookup(p).is_none() {
                    Some(None)
                } else {
                    before.lookup(p)
                } by {
                    if p.len() == 0 {
                        assert(p =~= seq![]);
                    } else {
                        assert(self.children == before.children);
                        assert(self.has_child(p[0]) == before.has_child(p[0]));
                        assert(self.child_index(p[0]) == before.child_index(p[0]));
                    }
                }
                assert forall|w: spec_fn(V) -> nat|
                    #[trigger] tree_total(*self, w) + found_weight(before.lookup(key_path_from(key@, start as int)), w)
                        == tree_total(before, w) + w(value) by {
                    assert(before.lookup(seq![]) == Some(before.value));
                }
            }
        } else {
            let ghost lp = key_path_from(key@, start as int);
            assert(lp =~= seq![key@]);
            match self.find_child(key.as_str()) {
                Some(idx) => {
                    let (k, mut child) = self.children.remove(idx);
                    let ghost c0 = child;
                    child.value = Some(value);
                    self.children.insert(idx, (k, child));
                    proof {
                        assert(self.children@ =~= before.children@.update(idx as int, (k, child)));
                        assert forall|p: Seq<Seq<char>>| #[trigger] self.lookup(p) == if p
                            == lp {
                            Some(Some(value))
                        } else if is_proper_prefix(p, lp) && before.lookup(p).is_none() {
                            Some(None)
                        } else {
                            before.lookup(p)
                        } by {
                            if p.len() > 0 {
                                before.lemma_lookup_replaced(*self, idx as int, p);
                                if p[0] == key@ {
                                    before.lemma_lookup_child(idx as int, p);
                                    let q = p.drop_first();
                                    if q.len() == 0 {
                                        assert(p =~= lp);
                                    } else {
                                        assert(child.has_child(q[0]) == c0.has_child(q[0]));
                                    }
                                }
                            }
                        }
                        assert forall|j: int| 0 <= j < self.children@.len() implies (
                        #[trigger] self.children@[j]).1.wf_under(self.children@[j].0@) && extends(
                            key@.take(start as int),
                            self.children@[j].0@,
                        ) by {
                            if j != idx {
                                assert(self.children@[j] == before.children@[j]);
                            } else {
                                assert(c0.wf_under(key@));
                                assert(child.children == c0.children);
                                assert(child.unique_keys());
                            }
                        }
                        before.lemma_lookup_replaced(*self, idx as int, lp);
                        before.lemma_lookup_child(idx as int, lp);
                        assert(lp.drop_first() =~= Seq::<Seq<char>>::empty());
                        assert forall|w: spec_fn(V) -> nat|
                            #[trigger] tree_total(*self, w) + found_weight(before.lookup(lp), w) == tree_total(before, w)
                                + w(value) by {
                            lemma_children_total_update(
                                before.children@,
                                idx as int,
                                (k, child),
                                w,
                                before.children@.len() as int,
                            );
                            assert(c0.lookup(seq![]) == Some(c0.value));
                        }
                    }
                },
                None => {
                    let leaf = PrefixMap { value: Some(value), children: Vec::new() };
                    let e = (key.clone(), leaf);
                    self.children.push(e);
                    proof {
                        assert forall|p: Seq<Seq<char>>| #[trigger] self.lookup(p) == if p
                            == lp {
                            Some(Some(value))
                        } else if is_proper_prefix(p, lp) && before.lookup(p).is_none() {
                            Some(None)
                        } else {
                            before.lookup(p)
                        } by {
                            if p.len() > 0 {
                                before.lemma_lookup_pushed(*self, e, p);
                                if p[0] == key@ {
                                    let q = p.drop_first();
                                    if q.len() == 0 {
                                        assert(p =~= lp);
                                    } else {
                                        assert(!leaf.has_child(q[0]));
                                    }
                                }
                            }
                        }
                        before.lemma_lookup_pushed(*self, e, lp);
                        assert(!before.has_child(key@));
                        assert(before.lookup(lp) == None::<Option<V>>);
                        assert forall|w: spec_fn(V) -> nat|
                            #[trigger] tree_total(*self, w) + found_weight(before.lookup(lp), w) == tree_total(before, w)
                                + w(value) by {
                            lemma_children_total_push(before.children@, e, w);
                            assert(children_total(leaf.children@, w, 0) == 0);
                        }
                        assert forall|j: int| 0 <= j < self.children@.len() implies (
                        #[trigger] self.children@[j]).1.wf_under(self.children@[j].0@) && extends(
                            key@.take(start as int),
                            self.children@[j].0@,
                        ) by {
                            if j < before.children@.len() {
                                assert(self.children@[j] == before.children@[j]);
                            }
                        }
                    }
                },
            }
        }
    }
}

} // verus!
