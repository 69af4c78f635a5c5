use vstd::prelude::*;
use crate::prefix_map::PrefixMap;

verus! {

/// `out` is what folding `node`, filed under `key`, with `f` gives: `f` applied
/// to the node's key, its value, and the folds of its children, in order.
pub open spec fn folds_to<T, R, F: Fn(&String, &T, Vec<(String, R)>) -> (String, R)>(
    node: PrefixMap<T>,
    key: String,
    f: F,
    out: (String, R),
) -> bool
    decreases node,
{
    exists|cv: Vec<(String, R)>|
        #![trigger f.ensures((&key, &node.value, cv), out)]
        cv@.len() == node.children@.len() && (forall|i: int|
            0 <= i < node.children@.len() ==> folds_to(
                node.children@[i].1,
                node.children@[i].0,
                f,
                #[trigger] cv@[i],
            )) && f.ensures((&key, &node.value, cv), out)
}

/// `out` is what reducing `node`, filed under `key`, with `f` gives: `f`
/// applied to the node's key, its value, and its children's reductions, each
/// beside the child's own key, in order.
pub open spec fn reduces_to<T, R, F: Fn(&String, &T, Vec<(String, R)>) -> R>(
    node: PrefixMap<T>,
    key: String,
    f: F,
    out: R,
) -> bool
    decreases node,
{
    exists|cv: Vec<(String, R)>|
        #![trigger f.ensures((&key, &node.value, cv), out)]
        cv@.len() == node.children@.len() && (forall|i: int|
            0 <= i < node.children@.len() ==> (#[trigger] cv@[i]).0 == node.children@[i].0
                && reduces_to(node.children@[i].1, node.children@[i].0, f, cv@[i].1)) && f.ensures(
            (&key, &node.value, cv),
            out,
        )
}

/// `out` is the tree that rebuilding `node`, filed under `key`, with `f` gives:
/// its value and children are what `f` returns for the node's key, its value,
/// and its children rebuilt, each beside the child's own key, in order.
pub open spec fn rebuilds_to<
    T,
    N,
    F: Fn(&String, &T, Vec<(String, PrefixMap<N>)>) -> (N, Vec<(String, PrefixMap<N>)>),
>(node: PrefixMap<T>, key: String, f: F, out: PrefixMap<N>) -> bool
    decreases node,
{
    exists|cv: Vec<(String, PrefixMap<N>)>|
        #![trigger f.ensures((&key, &node.value, cv), (out.value, out.children))]
        cv@.len() == node.children@.len() && (forall|i: int|
            0 <= i < node.children@.len() ==> (#[trigger] cv@[i]).0 == node.children@[i].0
                && rebuilds_to(node.children@[i].1, node.children@[i].0, f, cv@[i].1)) && f.ensures(
            (&key, &node.value, cv),
            (out.value, out.children),
        )
}

/// A fold with a combiner that keeps each key and otherwise does what `f`
/// does is a reduction with `f`.
proof fn lemma_fold_keeping_keys<T, R, F, G>(node: PrefixMap<T>, key: String, f: F, g: G, out: (String, R))
    where
        F: Fn(&String, &T, Vec<(String, R)>) -> R,
        G: Fn(&String, &T, Vec<(String, R)>) -> (String, R),
    requires
        forall|k: &String, v: &T, c: Vec<(String, R)>, o: (String, R)|
            #[trigger] g.ensures((k, v, c), o) ==> o.0 == *k && f.ensures((k, v, c), o.1),
        folds_to(node, key, g, out),
    ensures
        out.0 == key,
        reduces_to(node, key, f, out.1),
    decreases node,
{
    let cv = choose|cv: Vec<(String, R)>|
        #![trigger g.ensures((&key, &node.value, cv), out)]
        cv@.len() == node.children@.len() && (forall|i: int|
            0 <= i < node.children@.len() ==> folds_to(
                node.children@[i].1,
                node.children@[i].0,
                g,
                #[trigger] cv@[i],
            )) && g.ensures((&key, &node.value, cv), out);
    assert forall|i: int| 0 <= i < node.children@.len() implies (#[trigger] cv@[i]).0
        == node.children@[i].0 && reduces_to(node.children@[i].1, node.children@[i].0, f, cv@[i].1) by {
        lemma_fold_keeping_keys(node.children@[i].1, node.children@[i].0, f, g, cv@[i]);
    }
    assert(f.ensures((&key, &node.value, cv), out.1));
}

/// A reduction whose combiner builds a node from what `f` returns is a
/// rebuild with `f`.
proof fn lemma_reduce_building_nodes<T, N, F, G>(
    node: PrefixMap<T>,
    key: String,
    f: F,
    g: G,
    out: PrefixMap<N>,
)
    where
        F: Fn(&String, &T, Vec<(String, PrefixMap<N>)>) -> (N, Vec<(String, PrefixMap<N>)>),
        G: Fn(&String, &T, Vec<(String, PrefixMap<N>)>) -> PrefixMap<N>,
    requires
        forall|k: &String, v: &T, c: Vec<(String, PrefixMap<N>)>, o: PrefixMap<N>|
            #[trigger] g.ensures((k, v, c), o) ==> f.ensures((k, v, c), (o.value, o.children)),
        reduces_to(node, key, g, out),
    ensures
        rebuilds_to(node, key, f, out),
    decreases node,
{
    let cv = choose|cv: Vec<(String, PrefixMap<N>)>|
        #![trigger g.ensures((&key, &node.value, cv), out)]
        cv@.len() == node.children@.len() && (forall|i: int|
            0 <= i < node.children@.len() ==> (#[trigger] cv@[i]).0 == node.children@[i].0
                && reduces_to(node.children@[i].1, node.children@[i].0, g, cv@[i].1)) && g.ensures(
            (&key, &node.value, cv),
            out,
        );
    assert forall|i: int| 0 <= i < node.children@.len() implies (#[trigger] cv@[i]).0
        == node.children@[i].0 && rebuilds_to(node.children@[i].1, node.children@[i].0, f, cv@[i].1) by {
        lemma_reduce_building_nodes(node.children@[i].1, node.children@[i].0, f, g, cv@[i].1);
    }
    assert(f.ensures((&key, &node.value, cv), (out.value, out.children)));
}

impl<T> PrefixMap<T> {
    /// Reduces the tree bottom-up to one value with `transformer`.
    pub fn transform<R, F: Fn(&String, &T, Vec<(String, R)>) -> R>(&self, transformer: &F) -> (r: R)
        requires
            forall|k: &String, v: &T, c: Vec<(String, R)>| #[trigger] transformer.requires((k, v, c)),
        ensures
            exists|k: String| k@ == Seq::<char>::empty() && #[trigger] reduces_to(*self, k, *transformer, r),
    {
        let keep_key = |prefix: &String, value: &T, children: Vec<(String, R)>| -> (o: (String, R))
            requires
                transformer.requires((prefix, value, children)),
            ensures
                o.0 == *prefix,
                transformer.ensures((prefix, value, children), o.1),
            { (prefix.clone(), transformer(prefix, value, children)) };
        let r = self.replace_nodes(&keep_key);
        proof {
            let (k, nk) = choose|k: String, nk: String|
                k@ == Seq::<char>::empty() && #[trigger] folds_to(*self, k, keep_key, (nk, r));
            lemma_fold_keeping_keys(*self, k, *transformer, keep_key, (nk, r));
        }
        r
    }

    /// Rebuilds the tree bottom-up into a tree of another value type: at each
    /// node `transformer` gives the new value and children from the rebuilt
    /// children.
    pub fn transform_to_prefix_map<
        N,
        F: Fn(&String, &T, Vec<(String, PrefixMap<N>)>) -> (N, Vec<(String, PrefixMap<N>)>),
    >(&self, transformer: &F) -> (r: PrefixMap<N>)
        requires
            forall|k: &String, v: &T, c: Vec<(String, PrefixMap<N>)>| #[trigger] transformer.requires((k, v, c)),
        ensures
            exists|k: String| k@ == Seq::<char>::empty() && #[trigger] rebuilds_to(*self, k, *transformer, r),
    {
        let build = |prefix: &String, value: &T, children: Vec<(String, PrefixMap<N>)>| -> (o: PrefixMap<N>)
            requires
                transformer.requires((prefix, value, children)),
            ensures
                transformer.ensures((prefix, value, children), (o.value, o.children)),
            {
                let (new_value, new_children) = transformer(prefix, value, children);
                PrefixMap::new(new_value, new_children)
            };
        let r = self.transform(&build);
        proof {
            let k = choose|k: String| k@ == Seq::<char>::empty() && #[trigger] reduces_to(*self, k, build, r);
            lemma_reduce_building_nodes(*self, k, *transformer, build, r);
        }
        r
    }

    /// Folds the tree bottom-up with `transformer`, which also names the key
    /// under which each folded node is filed at its parent.
    pub fn replace_nodes<R, F: Fn(&String, &T, Vec<(String, R)>) -> (String, R)>(
        &self,
        transformer: &F,
    ) -> (r: R)
        requires
            forall|k: &String, v: &T, c: Vec<(String, R)>| #[trigger] transformer.requires((k, v, c)),
        ensures
            exists|k: String, nk: String|
                k@ == Seq::<char>::empty() && #[trigger] folds_to(*self, k, *transformer, (nk, r)),
    {
        let root = String::new();
        let r = self.replace_nodes_inner(&root, transformer);
        r.1
    }

    fn replace_nodes_inner<R, F: Fn(&String, &T, Vec<(String, R)>) -> (String, R)>(
        &self,
        prefix: &String,
        transformer: &F,
    ) -> (r: (String, R))
        requires
            forall|k: &String, v: &T, c: Vec<(String, R)>| #[trigger] transformer.requires((k, v, c)),
        ensures
            folds_to(*self, *prefix, *transformer, r),
        decreases self,
    {
        let mut children: Vec<(String, R)> = Vec::new();
        let mut i: usize = 0;
        while i < self.children.len()
            invariant
                i <= self.children@.len(),
                children@.len() == i,
                forall|k: &String, v: &T, c: Vec<(String, R)>| #[trigger] transformer.requires((k, v, c)),
                forall|j: int|
                    0 <= j < i ==> folds_to(
                        self.children@[j].1,
                        self.children@[j].0,
                        *transformer,
                        #[trigger] children@[j],
                    ),
            decreases self.children@.len() - i,
        {
            let r = self.children[i].1.replace_nodes_inner(&self.children[i].0, transformer);
            children.push(r);
            i = i + 1;
        }
        let ghost cv = children;
        let r = transformer(prefix, &self.value, children);
        assert(transformer.ensures((prefix, &self.value, cv), r));
        r
    }
}

} // verus!
