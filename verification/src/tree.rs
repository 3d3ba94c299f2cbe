use vstd::prelude::*;
use crate::events::{EventView, TPMEvent};

verus! {

/// One node of the branch tree: a chosen measurement event together with
/// its divergent continuations. A root-to-leaf path is one fully
/// hypothesized, ordered event sequence.
pub struct EventNode {
    pub value: TPMEvent,
    pub children: Vec<EventNode>,
}

/// Every branch of `bs` with `v` prepended.
pub open spec fn prefix_all(v: EventView, bs: Seq<Seq<EventView>>) -> Seq<Seq<EventView>> {
    bs.map_values(|b: Seq<EventView>| seq![v] + b)
}

/// All root-to-leaf paths below `n`, each as the ordered sequence of the
/// node values met; a leaf is a node with no children.
pub open spec fn branches_of(n: EventNode) -> Seq<Seq<EventView>>
    decreases n,
{
    if n.children@.len() == 0 {
        seq![seq![n.value@]]
    } else {
        prefix_all(n.value@, branches_of_all(n.children@))
    }
}

/// Concatenation of the branches of each node of `ns`, in order.
pub open spec fn branches_of_all(ns: Seq<EventNode>) -> Seq<Seq<EventView>>
    decreases ns,
{
    if ns.len() == 0 {
        Seq::empty()
    } else {
        branches_of(ns[0]) + branches_of_all(ns.drop_first())
    }
}

/// The branches of a node list grow on the right as nodes are appended.
pub proof fn lemma_branches_of_all_push(ns: Seq<EventNode>, n: EventNode)
    ensures
        branches_of_all(ns.push(n)) == branches_of_all(ns) + branches_of(n),
    decreases ns.len(),
{
    if ns.len() == 0 {
        assert(ns.push(n).drop_first() =~= Seq::<EventNode>::empty());
        assert(ns.push(n)[0] == n);
        assert(branches_of_all(Seq::<EventNode>::empty()) == Seq::<Seq<EventView>>::empty());
        assert(branches_of_all(ns.push(n)) == branches_of(n) + Seq::<Seq<EventView>>::empty());
        assert(branches_of(n) + Seq::<Seq<EventView>>::empty() =~= branches_of(n));
        assert(branches_of_all(ns) + branches_of(n) =~= branches_of(n));
    } else {
        assert(ns.push(n).drop_first() =~= ns.drop_first().push(n));
        lemma_branches_of_all_push(ns.drop_first(), n);
        assert(ns.push(n)[0] == ns[0]);
        assert(branches_of_all(ns.push(n)) == branches_of(ns[0]) + (branches_of_all(ns.drop_first())
            + branches_of(n)));
        assert(branches_of(ns[0]) + (branches_of_all(ns.drop_first()) + branches_of(n)) =~= (
        branches_of(ns[0]) + branches_of_all(ns.drop_first())) + branches_of(n));
    }
}

/// Branch lists concatenate over node-list concatenation.
pub proof fn lemma_branches_of_all_add(a: Seq<EventNode>, b: Seq<EventNode>)
    ensures
        branches_of_all(a + b) == branches_of_all(a) + branches_of_all(b),
    decreases a.len(),
{
    if a.len() == 0 {
        assert(a + b =~= b);
        assert(branches_of_all(a) == Seq::<Seq<EventView>>::empty());
        assert(branches_of_all(a) + branches_of_all(b) =~= branches_of_all(b));
    } else {
        assert((a + b).len() > 0);
        assert((a + b)[0] == a[0]);
        assert((a + b).drop_first() =~= a.drop_first() + b);
        lemma_branches_of_all_add(a.drop_first(), b);
        assert(branches_of(a[0]) + (branches_of_all(a.drop_first()) + branches_of_all(b)) =~= (
        branches_of(a[0]) + branches_of_all(a.drop_first())) + branches_of_all(b));
    }
}

/// Every node yields at least one branch.
pub proof fn lemma_branches_of_count(n: EventNode)
    ensures
        branches_of(n).len() >= 1,
    decreases n,
{
    if n.children@.len() == 0 {
    } else {
        lemma_branches_of_count(n.children@[0]);
        assert(branches_of_all(n.children@) == branches_of(n.children@[0]) + branches_of_all(
            n.children@.drop_first(),
        ));
    }
}

/// Every branch below a node is non-empty.
pub proof fn lemma_branches_nonempty(n: EventNode)
    ensures
        forall|k: int| 0 <= k < branches_of(n).len() ==> #[trigger] branches_of(n)[k].len() >= 1,
{
    if n.children@.len() == 0 {
    } else {
        assert forall|k: int| 0 <= k < branches_of(n).len() implies #[trigger] branches_of(
            n,
        )[k].len() >= 1 by {
            assert(branches_of(n)[k] == seq![n.value@] + branches_of_all(n.children@)[k]);
        }
    }
}

/// Every branch below every node of a list is non-empty.
pub proof fn lemma_branches_all_nonempty(ns: Seq<EventNode>)
    ensures
        forall|k: int| 0 <= k < branches_of_all(ns).len() ==> #[trigger] branches_of_all(
            ns,
        )[k].len() >= 1,
    decreases ns,
{
    if ns.len() == 0 {
    } else {
        lemma_branches_nonempty(ns[0]);
        lemma_branches_all_nonempty(ns.drop_first());
        let b0 = branches_of(ns[0]);
        let rest = branches_of_all(ns.drop_first());
        assert forall|k: int| 0 <= k < branches_of_all(ns).len() implies #[trigger] branches_of_all(
            ns,
        )[k].len() >= 1 by {
            if k < b0.len() {
                assert(branches_of_all(ns)[k] == b0[k]);
            } else {
                assert(branches_of_all(ns)[k] == rest[k - b0.len()]);
            }
        }
    }
}

impl EventNode {
    /// A leaf node holding `value`.
    pub fn new(value: TPMEvent) -> (n: EventNode)
        ensures
            n.value == value,
            n.children@.len() == 0,
            branches_of(n) == seq![seq![value@]],
    {
        EventNode { value, children: Vec::new() }
    }

    /// Append one more divergent continuation under this node.
    pub fn add_child(&mut self, child: EventNode)
        ensures
            final(self).value == old(self).value,
            final(self).children@ == old(self).children@.push(child),
    {
        self.children.push(child);
    }

    /// All root-to-leaf paths below this node, in depth order.
    pub fn branches(&self) -> (r: Vec<Vec<TPMEvent>>)
        ensures
            r.deep_view() == branches_of(*self),
        decreases *self,
    {
        let mut r: Vec<Vec<TPMEvent>> = Vec::new();
        if self.children.len() == 0 {
            let mut b: Vec<TPMEvent> = Vec::new();
            b.push(self.value.duplicate());
            r.push(b);
            proof {
                assert(b.deep_view() =~= seq![self.value@]);
                assert(r.deep_view() =~= branches_of(*self));
            }
            return r;
        }
        let mut i: usize = 0;
        while i < self.children.len()
            invariant
                i <= self.children@.len(),
                self.children@.len() > 0,
                r.deep_view() == prefix_all(
                    self.value@,
                    branches_of_all(self.children@.take(i as int)),
                ),
            decreases self.children@.len() - i,
        {
            let child_branches = self.children[i].branches();
            let ghost r_before = r.deep_view();
            let mut k: usize = 0;
            while k < child_branches.len()
                invariant
                    k <= child_branches@.len(),
                    child_branches.deep_view() == branches_of(self.children@[i as int]),
                    i < self.children@.len(),
                    r.deep_view() == r_before + prefix_all(
                        self.value@,
                        branches_of(self.children@[i as int]).take(k as int),
                    ),
                decreases child_branches@.len() - k,
            {
                let mut b: Vec<TPMEvent> = Vec::new();
                b.push(self.value.duplicate());
                let src = &child_branches[k];
                proof {
                    assert(b.deep_view() =~= seq![self.value@] + src.deep_view().take(0));
                }
                let mut m: usize = 0;
                while m < src.len()
                    invariant
                        m <= src@.len(),
                        b.deep_view() == seq![self.value@] + src.deep_view().take(m as int),
                    decreases src@.len() - m,
                {
                    let ghost b_pre = b.deep_view();
                    b.push(src[m].duplicate());
                    proof {
                        let target = seq![self.value@] + src.deep_view().take(m + 1);
                        assert(m + 1 <= src@.len());
                        assert(src.deep_view().len() == src@.len());
                        assert(src.deep_view().take(m + 1).len() == m + 1);
                        assert(b_pre.len() == m + 1);
                        assert(b@.len() == m + 2);
                        assert(b.deep_view().len() == b@.len());
                        assert(b.deep_view().len() == target.len());
                        assert forall|j: int| 0 <= j < b.deep_view().len() implies b.deep_view()[j]
                            == target[j] by {
                            if j < b_pre.len() {
                                assert(b.deep_view()[j] == b_pre[j]);
                            } else {
                                assert(b.deep_view()[j] == src@[m as int]@);
                                assert(target[j] == src.deep_view().take(m + 1)[m as int]);
                            }
                        }
                        assert(b.deep_view() =~= target);
                    }
                    m += 1;
                }
                proof {
                    assert(src.deep_view().take(src@.len() as int) =~= src.deep_view());
                    assert(src.deep_view() == branches_of(self.children@[i as int])[k as int]);
                    assert(b.deep_view() == seq![self.value@] + branches_of(
                        self.children@[i as int],
                    )[k as int]);
                }
                let ghost r_pre = r.deep_view();
                r.push(b);
                proof {
                    let cb = branches_of(self.children@[i as int]);
                    let target = r_before + prefix_all(self.value@, cb.take(k + 1));
                    assert(child_branches.deep_view().len() == child_branches@.len());
                    assert(cb.len() == child_branches@.len());
                    assert(k + 1 <= cb.len());
                    assert(cb.take(k + 1).len() == k + 1);
                    assert(prefix_all(self.value@, cb.take(k + 1)).len() == k + 1);
                    assert(prefix_all(self.value@, cb.take(k as int)).len() == k as int);
                    assert(r_pre.len() == r_before.len() + k);
                    assert(r.deep_view().len() == r_pre.len() + 1);
                    assert(r.deep_view().len() == target.len());
                    assert forall|j: int| 0 <= j < r.deep_view().len() implies r.deep_view()[j]
                        == target[j] by {
                        if j < r_pre.len() {
                            assert(r.deep_view()[j] == r_pre[j]);
                            if j < r_before.len() {
                                assert(r_pre[j] == r_before[j]);
                                assert(target[j] == r_before[j]);
                            } else {
                                assert(r_pre[j] == prefix_all(self.value@, cb.take(k as int))[j
                                    - r_before.len()]);
                                assert(prefix_all(self.value@, cb.take(k as int))[j
                                    - r_before.len()] == seq![self.value@] + cb.take(k as int)[j
                                    - r_before.len()]);
                                assert(cb.take(k as int)[j - r_before.len()] == cb.take(k + 1)[j
                                    - r_before.len()]);
                                assert(target[j] == prefix_all(self.value@, cb.take(k + 1))[j
                                    - r_before.len()]);
                            }
                        } else {
                            assert(r.deep_view()[j] == b.deep_view());
                            assert(target[j] == prefix_all(self.value@, cb.take(k + 1))[k as int]);
                            assert(prefix_all(self.value@, cb.take(k + 1))[k as int] == seq![
                                self.value@,
                            ] + cb.take(k + 1)[k as int]);
                            assert(cb.take(k + 1)[k as int] == cb[k as int]);
                        }
                    }
                    assert(r.deep_view() =~= target);
                }
                k += 1;
            }
            proof {
                let cb = branches_of(self.children@[i as int]);
                assert(cb.take(cb.len() as int) =~= cb);
                assert(self.children@.take(i + 1) =~= self.children@.take(i as int).push(
                    self.children@[i as int],
                ));
                lemma_branches_of_all_push(self.children@.take(i as int), self.children@[i as int]);
                assert(prefix_all(self.value@, branches_of_all(self.children@.take(i as int)) + cb)
                    =~= prefix_all(
                    self.value@,
                    branches_of_all(self.children@.take(i as int)),
                ) + prefix_all(self.value@, cb));
                assert(r.deep_view() =~= prefix_all(
                    self.value@,
                    branches_of_all(self.children@.take(i + 1)),
                ));
            }
            i += 1;
        }
        proof {
            assert(self.children@.take(self.children@.len() as int) =~= self.children@);
            assert(r.deep_view() == branches_of(*self));
        }
        r
    }
}

} // verus!
