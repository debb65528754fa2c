//! The search frontier: the discovered states that still wait to be
//! expanded, kept as a binary min-heap on their estimated total cost.

use crate::puzzle::State;
use vstd::multiset::{group_multiset_axioms, Multiset};
use vstd::prelude::*;
use vstd::seq_lib::{group_to_multiset_ensures, to_multiset_update};

verus! {

/// Swaps two elements of a slice (`slice::swap` of the standard library,
/// which panics when an index is out of bounds).
pub assume_specification<E>[ <[E]>::swap ](slice: &mut [E], a: usize, b: usize)
    requires
        a < old(slice)@.len(),
        b < old(slice)@.len(),
    ensures
        final(slice)@ == old(slice)@.update(a as int, old(slice)@[b as int]).update(
            b as int,
            old(slice)@[a as int],
        ),
;

/// A discovered state that waits to be expanded.
pub struct Node {
    pub state: State,
    /// Number of commands that lead from the start to `state`.
    pub distance: usize,
    /// `distance` plus the distance estimate of `state`.
    pub estimate: u128,
    /// Entry of the parent trail that recorded the discovery.
    pub index: usize,
}

/// A priority queue of nodes that hands out a node of least estimate first.
pub struct Frontier {
    nodes: Vec<Node>,
}

/// The position above `i` in the heap.
pub open spec fn above(i: int) -> int {
    (i - 1) / 2
}

/// Every node but the one at `hole` is at least as large as the one above
/// it, and the nodes below `hole` are at least as large as the one above
/// `hole`.
pub open spec fn heap_except(nodes: Seq<Node>, hole: int) -> bool {
    &&& forall|k: int|
        1 <= k < nodes.len() && k != hole ==> nodes[above(k)].estimate <= (
        #[trigger] nodes[k]).estimate
    &&& forall|k: int|
        1 <= k < nodes.len() && above(k) == hole && hole >= 1 ==> nodes[above(hole)].estimate <= (
        #[trigger] nodes[k]).estimate
}

/// Every node is at least as large as the one above it.
pub open spec fn heap_ordered(nodes: Seq<Node>) -> bool {
    forall|k: int|
        1 <= k < nodes.len() ==> nodes[above(k)].estimate <= (#[trigger] nodes[k]).estimate
}

/// In a heap no node is smaller than the one at the top.
pub proof fn lemma_top_is_least(nodes: Seq<Node>, k: int)
    requires
        heap_ordered(nodes),
        0 <= k < nodes.len(),
    ensures
        nodes[0].estimate <= nodes[k].estimate,
    decreases k,
{
    if k > 0 {
        lemma_top_is_least(nodes, above(k));
        assert(nodes[above(k)].estimate <= nodes[k].estimate);
    }
}

/// Exchanging two nodes keeps the nodes that a sequence holds.
pub proof fn lemma_exchange_keeps_nodes(s: Seq<Node>, a: int, b: int)
    requires
        0 <= a < s.len(),
        0 <= b < s.len(),
    ensures
        s.update(a, s[b]).update(b, s[a]).to_multiset() == s.to_multiset(),
{
    broadcast use group_multiset_axioms;
    broadcast use group_to_multiset_ensures;

    if a == b {
        assert(s.update(a, s[b]).update(b, s[a]) == s);
    } else {
        let t = s.update(a, s[b]);
        to_multiset_update(s, a, s[b]);
        to_multiset_update(t, b, s[a]);
        assert(s.to_multiset().count(s[a]) > 0);
        assert(s.to_multiset().count(s[b]) > 0);
        assert(s.to_multiset().insert(s[b]).remove(s[a]).insert(s[a]).remove(s[b])
            =~= s.to_multiset());
    }
}

/// An empty sequence holds no nodes.
proof fn lemma_no_nodes(s: Seq<Node>)
    requires
        s.len() == 0,
    ensures
        s.to_multiset() == Multiset::<Node>::empty(),
{
    broadcast use group_to_multiset_ensures;

    s.to_multiset_ensures();
    assert(s.to_multiset().len() == 0);
    assert(s.to_multiset() =~= Multiset::<Node>::empty());
}

impl Frontier {
    /// The nodes that wait, each as often as it was pushed and not yet
    /// popped.
    pub closed spec fn contents(&self) -> Multiset<Node> {
        self.nodes@.to_multiset()
    }

    /// The number of nodes that wait.
    pub closed spec fn count(&self) -> nat {
        self.nodes@.len()
    }

    /// The heap order holds.
    pub closed spec fn wf(&self) -> bool {
        heap_ordered(self.nodes@)
    }

    /// The number of waiting nodes is the size of the contents.
    pub proof fn lemma_count(&self)
        ensures
            self.count() == self.contents().len(),
    {
        broadcast use group_to_multiset_ensures;

    }

    /// An empty frontier.
    pub fn new() -> (frontier: Frontier)
        ensures
            frontier.wf(),
            frontier.contents() == Multiset::<Node>::empty(),
            frontier.count() == 0,
    {
        let frontier = Frontier { nodes: Vec::new() };
        proof {
            lemma_no_nodes(frontier.nodes@);
        }
        frontier
    }

    /// An empty frontier with room for `capacity` nodes.
    pub fn with_capacity(capacity: usize) -> (frontier: Frontier)
        ensures
            frontier.wf(),
            frontier.contents() == Multiset::<Node>::empty(),
            frontier.count() == 0,
    {
        let frontier = Frontier { nodes: Vec::with_capacity(capacity) };
        proof {
            lemma_no_nodes(frontier.nodes@);
        }
        frontier
    }

    /// The number of nodes that wait.
    pub fn len(&self) -> (n: usize)
        ensures
            n == self.count(),
    {
        self.nodes.len()
    }

    /// Adds a node.
    pub fn push(&mut self, node: Node)
        requires
            old(self).wf(),
        ensures
            final(self).wf(),
            final(self).contents() == old(self).contents().insert(node),
            final(self).count() == old(self).count() + 1,
    {
        proof {
            broadcast use group_to_multiset_ensures;

        }
        self.nodes.push(node);
        let ghost pushed = self.nodes@;
        let mut i: usize = self.nodes.len() - 1;
        let mut moving = true;
        while moving
            invariant
                i < self.nodes@.len(),
                self.nodes@.len() == pushed.len(),
                self.nodes@.to_multiset() == pushed.to_multiset(),
                heap_except(self.nodes@, i as int),
                !moving ==> heap_ordered(self.nodes@),
            decreases i + (if moving { 1nat } else { 0nat }),
        {
            if i == 0 {
                moving = false;
            } else {
                let up: usize = (i - 1) / 2;
                if self.nodes[up].estimate <= self.nodes[i].estimate {
                    moving = false;
                } else {
                    proof {
                        lemma_exchange_keeps_nodes(self.nodes@, up as int, i as int);
                    }
                    let ghost before = self.nodes@;
                    self.nodes.swap(up, i);
                    proof {
                        let after = self.nodes@;
                        assert forall|k: int| 1 <= k < after.len() && k != up implies after[above(
                            k,
                        )].estimate <= (#[trigger] after[k]).estimate by {
                            if k == i {
                            } else if above(k) == i {
                                assert(before[above(k)].estimate <= before[k].estimate);
                            } else if above(k) == up {
                                assert(before[above(k)].estimate <= before[k].estimate);
                            } else {
                                assert(before[above(k)].estimate <= before[k].estimate);
                            }
                        }
                        assert forall|k: int|
                            1 <= k < after.len() && above(k) == up && up >= 1 implies after[above(
                            up as int,
                        )].estimate <= (#[trigger] after[k]).estimate by {
                            assert(before[above(up as int)].estimate <= before[up as int].estimate);
                            if k != i {
                                assert(before[above(k)].estimate <= before[k].estimate);
                            }
                        }
                    }
                    i = up;
                }
            }
        }
    }

    /// Takes out a node of least estimate, if any node waits.
    pub fn pop(&mut self) -> (least: Option<Node>)
        requires
            old(self).wf(),
        ensures
            final(self).wf(),
            least is None <==> old(self).count() == 0,
            least is None ==> final(self).contents() == Multiset::<Node>::empty(),
            least matches Some(node) ==> {
                &&& old(self).contents().contains(node)
                &&& final(self).contents() == old(self).contents().remove(node)
                &&& final(self).count() + 1 == old(self).count()
                &&& forall|other: Node|
                    old(self).contents().contains(other) ==> node.estimate <= other.estimate
            },
    {
        proof {
            broadcast use group_to_multiset_ensures;
            broadcast use group_multiset_axioms;

        }
        let n = self.nodes.len();
        if n == 0 {
            proof {
                lemma_no_nodes(self.nodes@);
            }
            return None;
        }
        let ghost whole = self.nodes@;
        proof {
            assert forall|other: Node| whole.to_multiset().contains(other) implies whole[0].estimate
                <= other.estimate by {
                assert(whole.contains(other));
                let k = choose|k: int| 0 <= k < whole.len() && whole[k] == other;
                lemma_top_is_least(whole, k);
            }
            lemma_exchange_keeps_nodes(whole, 0, n - 1);
        }
        self.nodes.swap(0, n - 1);
        let ghost swapped = self.nodes@;
        let least = self.nodes.pop().unwrap();
        proof {
            assert(swapped == self.nodes@.push(least));
            assert(swapped.to_multiset() == self.nodes@.to_multiset().insert(least));
            assert(self.nodes@.to_multiset() =~= whole.to_multiset().remove(least));
            assert(whole.to_multiset().count(least) > 0);
        }
        let ghost shrunk = self.nodes@;
        let m = n - 1;
        let mut i: usize = 0;
        let mut moving = m > 0;
        proof {
            assert forall|k: int| 1 <= k < m && above(k) != 0 implies shrunk[above(k)].estimate <= (
            #[trigger] shrunk[k]).estimate by {
                assert(whole[above(k)].estimate <= whole[k].estimate);
            }
        }
        while moving
            invariant
                m == self.nodes@.len(),
                m == shrunk.len(),
                moving ==> i < m,
                self.nodes@.to_multiset() == shrunk.to_multiset(),
                moving ==> forall|k: int|
                    1 <= k < m && above(k) != i ==> self.nodes@[above(k)].estimate <= (
                    #[trigger] self.nodes@[k]).estimate,
                moving ==> forall|k: int|
                    1 <= k < m && above(k) == i && i >= 1 ==> self.nodes@[above(i as int)].estimate
                        <= (#[trigger] self.nodes@[k]).estimate,
                !moving ==> heap_ordered(self.nodes@),
            decreases m - i + (if moving { 1nat } else { 0nat }),
        {
            let half = m / 2;
            if i >= half {
                moving = false;
                proof {
                    assert forall|k: int| 1 <= k < m implies self.nodes@[above(k)].estimate <= (
                    #[trigger] self.nodes@[k]).estimate by {
                        assert(above(k) != i);
                    }
                }
            } else {
                let left: usize = 2 * i + 1;
                let right: usize = left + 1;
                let child: usize = if right < m && self.nodes[right].estimate
                    < self.nodes[left].estimate {
                    right
                } else {
                    left
                };
                if self.nodes[i].estimate <= self.nodes[child].estimate {
                    moving = false;
                    proof {
                        assert forall|k: int| 1 <= k < m implies self.nodes@[above(k)].estimate <= (
                        #[trigger] self.nodes@[k]).estimate by {
                            if above(k) == i {
                                assert(k == left || k == right);
                            }
                        }
                    }
                } else {
                    proof {
                        lemma_exchange_keeps_nodes(self.nodes@, i as int, child as int);
                    }
                    let ghost before = self.nodes@;
                    self.nodes.swap(i, child);
                    proof {
                        let after = self.nodes@;
                        assert forall|k: int| 1 <= k < m && above(k) != child implies after[above(
                            k,
                        )].estimate <= (#[trigger] after[k]).estimate by {
                            if above(k) == i {
                                assert(k == left || k == right);
                            } else if k == i {
                                assert(before[above(child as int)].estimate >= 0);
                            } else {
                                assert(before[above(k)].estimate <= before[k].estimate);
                            }
                        }
                        assert forall|k: int|
                            1 <= k < m && above(k) == child && child >= 1 implies after[above(
                            child as int,
                        )].estimate <= (#[trigger] after[k]).estimate by {
                            assert(before[above(k)].estimate <= before[k].estimate);
                        }
                    }
                    i = child;
                }
            }
        }
        Some(least)
    }
}

} // verus!
