use vstd::prelude::*;
use crate::fold::reduces_to;
use crate::prefix_map::{children_total, tree_total, unit_weight, value_weight, weight, PrefixMap};

verus! {

/// The children's results are all numbers: `None` is none of them.
pub open spec fn all_known(cs: Seq<(String, Option<u64>)>) -> bool {
    forall|i: int| 0 <= i < cs.len() ==> (#[trigger] cs[i]).1.is_some()
}

/// The sum of the known numbers beside the keys of the first `n` pairs of `cs`.
pub open spec fn sum_known(cs: Seq<(String, Option<u64>)>, n: int) -> nat
    decreases n,
{
    if n <= 0 || n > cs.len() {
        0
    } else {
        sum_known(cs, n - 1) + match cs[n - 1].1 {
            Some(x) => x as nat,
            None => 0,
        }
    }
}

/// Adds the children's results to `own`: `None` where one of them is `None`
/// or the sum does not fit.
fn add_children(own: u64, children: &Vec<(String, Option<u64>)>) -> (r: Option<u64>)
    ensures
        r.is_some() <==> all_known(children@) && own + sum_known(children@, children@.len() as int) <= u64::MAX,
        r.is_some() ==> r.unwrap() == own + sum_known(children@, children@.len() as int),
{
    let mut acc = own;
    let mut i: usize = 0;
    while i < children.len()
        invariant
            i <= children@.len(),
            forall|j: int| 0 <= j < i ==> (#[trigger] children@[j]).1.is_some(),
            acc == own + sum_known(children@, i as int),
        decreases children@.len() - i,
    {
        match children[i].1 {
            Some(x) => match acc.checked_add(x) {
                Some(sum) => {
                    acc = sum;
                },
                None => {
                    proof {
                        lemma_sum_known_grows(children@, i + 1, children@.len() as int);
                    }
                    return None;
                },
            },
            None => {
                return None;
            },
        }
        i = i + 1;
    }
    Some(acc)
}

proof fn lemma_sum_known_grows(cs: Seq<(String, Option<u64>)>, i: int, j: int)
    requires
        0 <= i <= j <= cs.len(),
    ensures
        sum_known(cs, i) <= sum_known(cs, j),
    decreases j - i,
{
    if i < j {
        lemma_sum_known_grows(cs, i, j - 1);
    }
}

proof fn lemma_known_sums<V>(
    cv: Seq<(String, Option<u64>)>,
    cs: Seq<(String, PrefixMap<Option<V>>)>,
    w: spec_fn(V) -> nat,
    n: int,
)
    requires
        0 <= n <= cv.len(),
        cv.len() == cs.len(),
        forall|i: int| 0 <= i < cs.len() ==> ((#[trigger] cv[i]).1.is_some() <==> tree_total(cs[i].1, w) <= u64::MAX),
        forall|i: int| 0 <= i < cs.len() ==> (#[trigger] cv[i]).1.is_some() ==> cv[i].1.unwrap() == tree_total(cs[i].1, w),
    ensures
        (forall|i: int| 0 <= i < n ==> (#[trigger] cv[i]).1.is_some()) ==> sum_known(cv, n) == children_total(cs, w, n),
        (exists|i: int| 0 <= i < n && (#[trigger] cv[i]).1.is_none()) ==> children_total(cs, w, n) > u64::MAX,
    decreases n,
{
    if n > 0 {
        lemma_known_sums(cv, cs, w, n - 1);
        assert(cv[n - 1].1.is_some() <==> tree_total(cs[n - 1].1, w) <= u64::MAX);
        if exists|i: int| 0 <= i < n && (#[trigger] cv[i]).1.is_none() {
            let i = choose|i: int| 0 <= i < n && (#[trigger] cv[i]).1.is_none();
            if i < n - 1 {
                assert(exists|k: int| 0 <= k < n - 1 && (#[trigger] cv[k]).1.is_none());
            }
        }
    }
}

/// A reduction whose combiner adds a node's weight to its children's
/// results, `None` on overflow, gives the tree's total where it fits.
proof fn lemma_reduce_totals<V, F>(node: PrefixMap<Option<V>>, key: String, f: F, w: spec_fn(V) -> nat, out: Option<u64>)
    where
        F: Fn(&String, &Option<V>, Vec<(String, Option<u64>)>) -> Option<u64>,
    requires
        forall|k: &String, v: &Option<V>, c: Vec<(String, Option<u64>)>, o: Option<u64>|
            #[trigger] f.ensures((k, v, c), o) ==> (o.is_some() <==> all_known(c@) && weight(*v, w) + sum_known(
                c@,
                c@.len() as int,
            ) <= u64::MAX) && (o.is_some() ==> o.unwrap() == weight(*v, w) + sum_known(c@, c@.len() as int)),
        reduces_to(node, key, f, out),
    ensures
        out.is_some() <==> tree_total(node, w) <= u64::MAX,
        out.is_some() ==> out.unwrap() == tree_total(node, w),
    decreases node,
{
    let cv = choose|cv: Vec<(String, Option<u64>)>|
        #![trigger f.ensures((&key, &node.value, cv), out)]
        cv@.len() == node.children@.len() && (forall|i: int|
            0 <= i < node.children@.len() ==> (#[trigger] cv@[i]).0 == node.children@[i].0
                && reduces_to(node.children@[i].1, node.children@[i].0, f, cv@[i].1)) && f.ensures(
            (&key, &node.value, cv),
            out,
        );
    assert forall|i: int| 0 <= i < node.children@.len() implies ((#[trigger] cv@[i]).1.is_some()
        <==> tree_total(node.children@[i].1, w) <= u64::MAX) && (cv@[i].1.is_some() ==> cv@[i].1.unwrap()
        == tree_total(node.children@[i].1, w)) by {
        assert(reduces_to(node.children@[i].1, node.children@[i].0, f, cv@[i].1));
        lemma_reduce_totals(node.children@[i].1, node.children@[i].0, f, w, cv@[i].1);
    }
    let n = node.children@.len() as int;
    lemma_known_sums(cv@, node.children@, w, n);
    if !all_known(cv@) {
        let i = choose|i: int| 0 <= i < cv@.len() && !(#[trigger] cv@[i]).1.is_some();
        assert(exists|k: int| 0 <= k < n && (#[trigger] cv@[k]).1.is_none());
    }
}

impl<V> PrefixMap<Option<V>> {
    /// The number of values stored in the tree, counted by a fold, or `None`
    /// where it does not fit in a `u64`.
    pub fn count_values(&self) -> (r: Option<u64>)
        ensures
            r.is_some() <==> tree_total(*self, unit_weight()) <= u64::MAX,
            r.is_some() ==> r.unwrap() == tree_total(*self, unit_weight()),
    {
        let count = |_key: &String, value: &Option<V>, children: Vec<(String, Option<u64>)>| -> (r: Option<u64>)
            ensures
                r.is_some() <==> all_known(children@) && weight(*value, unit_weight()) + sum_known(
                    children@,
                    children@.len() as int,
                ) <= u64::MAX,
                r.is_some() ==> r.unwrap() == weight(*value, unit_weight()) + sum_known(children@, children@.len() as int),
            {
                let own: u64 = match value {
                    Some(_) => 1,
                    None => 0,
                };
                add_children(own, &children)
            };
        let r = self.transform(&count);
        proof {
            let k = choose|k: String| k@ == Seq::<char>::empty() && #[trigger] reduces_to(*self, k, count, r);
            lemma_reduce_totals(*self, k, count, unit_weight(), r);
        }
        r
    }
}

impl PrefixMap<Option<u64>> {
    /// The sum of the numbers stored in the tree, added up by a fold, or
    /// `None` where it does not fit in a `u64`.
    pub fn sum_values(&self) -> (r: Option<u64>)
        ensures
            r.is_some() <==> tree_total(*self, value_weight()) <= u64::MAX,
            r.is_some() ==> r.unwrap() == tree_total(*self, value_weight()),
    {
        let sum = |_key: &String, value: &Option<u64>, children: Vec<(String, Option<u64>)>| -> (r: Option<u64>)
            ensures
                r.is_some() <==> all_known(children@) && weight(*value, value_weight()) + sum_known(
                    children@,
                    children@.len() as int,
                ) <= u64::MAX,
                r.is_some() ==> r.unwrap() == weight(*value, value_weight()) + sum_known(children@, children@.len() as int),
            {
                let own: u64 = match value {
                    Some(v) => *v,
                    None => 0,
                };
                add_children(own, &children)
            };
        let r = self.transform(&sum);
        proof {
            let k = choose|k: String| k@ == Seq::<char>::empty() && #[trigger] reduces_to(*self, k, sum, r);
            lemma_reduce_totals(*self, k, sum, value_weight(), r);
        }
        r
    }
}

} // verus!
