//! The wavefront frontier: a binary min-heap of tiles waiting to be expanded,
//! ordered by the cost each had when it was pushed.

use vstd::multiset::*;
use vstd::prelude::*;
use vstd::seq_lib::*;

verus! {

/// A tile on the frontier together with the cost it was reached at.
#[derive(Clone, Copy, Debug, PartialEq, Eq, Structural)]
pub struct Node {
    pub index: usize,
    pub cost: u32,
}

impl Node {
    pub fn new(index: usize, cost: u32) -> (node: Node)
        ensures
            node.index == index,
            node.cost == cost,
    {
        Node { index, cost }
    }
}

/// Every entry but the root costs at least as much as its parent.
pub open spec fn heap_ordered(nodes: Seq<Node>) -> bool {
    forall|i: int| 1 <= i < nodes.len() ==> nodes[(i - 1) / 2].cost <= (#[trigger] nodes[i]).cost
}

/// Heap order everywhere except between `hole` and its parent.
spec fn ordered_above(nodes: Seq<Node>, hole: int) -> bool {
    &&& forall|i: int|
        1 <= i < nodes.len() && i != hole ==> nodes[(i - 1) / 2].cost <= (#[trigger] nodes[i]).cost
    &&& forall|i: int|
        1 <= i < nodes.len() && (i - 1) / 2 == hole && hole >= 1 ==> nodes[(hole - 1) / 2].cost
            <= (#[trigger] nodes[i]).cost
}

/// Heap order everywhere except between `hole` and its children.
spec fn ordered_below(nodes: Seq<Node>, hole: int) -> bool {
    &&& forall|i: int|
        1 <= i < nodes.len() && (i - 1) / 2 != hole ==> nodes[(i - 1) / 2].cost <= (
        #[trigger] nodes[i]).cost
    &&& forall|i: int|
        1 <= i < nodes.len() && (i - 1) / 2 == hole && hole >= 1 ==> nodes[(hole - 1) / 2].cost
            <= (#[trigger] nodes[i]).cost
}

/// In an ordered heap no entry is cheaper than the root.
proof fn lemma_root_is_cheapest(nodes: Seq<Node>, i: int)
    requires
        heap_ordered(nodes),
        0 <= i < nodes.len(),
    ensures
        nodes[0].cost <= nodes[i].cost,
    decreases i,
{
    if i > 0 {
        lemma_root_is_cheapest(nodes, (i - 1) / 2);
        assert(nodes[(i - 1) / 2].cost <= nodes[i].cost);
    }
}

/// Exchanging two entries of a sequence keeps its multiset.
proof fn lemma_swap_keeps_multiset(nodes: Seq<Node>, i: int, j: int)
    requires
        0 <= i < nodes.len(),
        0 <= j < nodes.len(),
    ensures
        nodes.update(i, nodes[j]).update(j, nodes[i]).to_multiset() == nodes.to_multiset(),
{
    broadcast use group_multiset_axioms;

    let first = nodes.update(i, nodes[j]);
    to_multiset_update(nodes, i, nodes[j]);
    to_multiset_update(first, j, nodes[i]);
    to_multiset_contains(nodes, nodes[i]);
    to_multiset_contains(nodes, nodes[j]);
    assert(nodes.contains(nodes[i]));
    assert(nodes.contains(nodes[j]));
    assert(first.update(j, nodes[i]).to_multiset() =~= nodes.to_multiset());
}

/// A priority queue of nodes that hands out a cheapest node first.
pub struct Frontier {
    nodes: Vec<Node>,
}

impl Frontier {
    /// The nodes that wait on the frontier, with multiplicity.
    pub closed spec fn view(&self) -> Multiset<Node> {
        self.nodes@.to_multiset()
    }

    /// The entries are in heap order.
    pub closed spec fn wf(&self) -> bool {
        heap_ordered(self.nodes@)
    }

    pub fn new() -> (frontier: Frontier)
        ensures
            frontier.wf(),
            frontier@ == Multiset::<Node>::empty(),
    {
        let frontier = Frontier { nodes: Vec::new() };
        proof {
            frontier.nodes@.to_multiset_ensures();
            assert(frontier.nodes@.to_multiset().len() == 0);
            assert(frontier.nodes@.to_multiset() =~= Multiset::<Node>::empty()) by {
                broadcast use group_multiset_axioms;

                assert forall|n: Node| frontier.nodes@.to_multiset().count(n) == 0 by {
                    to_multiset_contains(frontier.nodes@, n);
                }
            }
        }
        frontier
    }

    pub fn len(&self) -> (n: usize)
        ensures
            n == self@.len(),
    {
        proof {
            to_multiset_len(self.nodes@);
        }
        self.nodes.len()
    }

    pub fn is_empty(&self) -> (empty: bool)
        ensures
            empty == (self@.len() == 0),
            empty == (self@ == Multiset::<Node>::empty()),
    {
        proof {
            to_multiset_len(self.nodes@);
            broadcast use group_multiset_axioms;

            if self.nodes@.len() == 0 {
                assert(self@ =~= Multiset::<Node>::empty());
            }
        }
        self.nodes.len() == 0
    }

    /// Adds `node` to the frontier.
    pub fn push(&mut self, node: Node)
        requires
            old(self).wf(),
        ensures
            final(self).wf(),
            final(self)@ == old(self)@.insert(node),
    {
        self.nodes.push(node);
        proof {
            to_multiset_build(old(self).nodes@, node);
        }
        sift_up(&mut self.nodes);
    }

    /// Takes a cheapest node off the frontier, or returns `None` when the
    /// frontier is empty.
    pub fn pop(&mut self) -> (popped: Option<Node>)
        requires
            old(self).wf(),
        ensures
            final(self).wf(),
            popped is None <==> old(self)@.len() == 0,
            popped is None ==> final(self)@ == old(self)@,
            popped matches Some(node) ==> {
                &&& old(self)@.contains(node)
                &&& final(self)@ == old(self)@.remove(node)
                &&& forall|other: Node| #[trigger]
                    old(self)@.contains(other) ==> node.cost <= other.cost
            },
    {
        proof {
            to_multiset_len(self.nodes@);
        }
        let len: usize = self.nodes.len();
        if len == 0 {
            return None;
        }
        let top: Node = self.nodes[0];
        let ghost start: Seq<Node> = self.nodes@;
        proof {
            to_multiset_contains(start, top);
            assert(start.contains(top));
            assert forall|other: Node| #[trigger]
                start.to_multiset().contains(other) implies top.cost <= other.cost by {
                to_multiset_contains(start, other);
                let k = choose|k: int| 0 <= k < start.len() && start[k] == other;
                lemma_root_is_cheapest(start, k);
            }
        }
        let last: Node = self.nodes[len - 1];
        self.nodes.set(0, last);
        self.nodes.set(len - 1, top);
        proof {
            lemma_swap_keeps_multiset(start, 0, len - 1);
            assert(self.nodes@ =~= start.update(0, start[len - 1]).update(len - 1, start[0]));
        }
        let ghost swapped: Seq<Node> = self.nodes@;
        let removed = self.nodes.pop();
        proof {
            assert(removed == Some(top));
            assert(self.nodes@ =~= swapped.remove(len - 1));
            to_multiset_remove(swapped, len - 1);
            let rest: Seq<Node> = self.nodes@;
            assert forall|k: int|
                1 <= k < rest.len() && (k - 1) / 2 != 0 implies rest[(k - 1) / 2].cost <= (
            #[trigger] rest[k]).cost by {
                assert(start[(k - 1) / 2].cost <= start[k].cost);
            }
        }
        sift_down(&mut self.nodes);
        Some(top)
    }
}

/// Moves the last entry up until its parent is no dearer than it.
fn sift_up(nodes: &mut Vec<Node>)
    requires
        old(nodes).len() > 0,
        ordered_above(old(nodes)@, old(nodes).len() - 1),
    ensures
        heap_ordered(final(nodes)@),
        final(nodes)@.to_multiset() == old(nodes)@.to_multiset(),
{
    let mut i: usize = nodes.len() - 1;
    while i > 0
        invariant
            0 <= i < nodes.len(),
            nodes@.to_multiset() == old(nodes)@.to_multiset(),
            ordered_above(nodes@, i as int),
        decreases i,
    {
        let parent: usize = (i - 1) / 2;
        let child_node: Node = nodes[i];
        let parent_node: Node = nodes[parent];
        if parent_node.cost <= child_node.cost {
            proof {
                assert forall|k: int| 1 <= k < nodes@.len() implies nodes@[(k - 1) / 2].cost <= (
                #[trigger] nodes@[k]).cost by {
                    if k == i {
                    }
                }
            }
            return ;
        }
        let ghost before: Seq<Node> = nodes@;
        nodes.set(i, parent_node);
        nodes.set(parent, child_node);
        proof {
            lemma_swap_keeps_multiset(before, i as int, parent as int);
            assert(nodes@ =~= before.update(i as int, before[parent as int]).update(
                parent as int,
                before[i as int],
            ));
            assert forall|k: int| 1 <= k < nodes@.len() && k != parent implies nodes@[(k - 1)
                / 2].cost <= (#[trigger] nodes@[k]).cost by {
                if k == i {
                } else if (k - 1) / 2 == i {
                    assert(before[parent as int].cost <= before[k].cost);
                } else if (k - 1) / 2 == parent {
                    assert(before[parent as int].cost <= before[k].cost);
                } else {
                    assert(before[(k - 1) / 2].cost <= before[k].cost);
                }
            }
            assert forall|k: int|
                1 <= k < nodes@.len() && (k - 1) / 2 == parent && parent >= 1 implies nodes@[(
                parent - 1) / 2].cost <= (#[trigger] nodes@[k]).cost by {
                assert(before[(parent - 1) / 2].cost <= before[parent as int].cost);
                if k != i {
                    assert(before[parent as int].cost <= before[k].cost);
                }
            }
        }
        i = parent;
    }
    proof {
        assert forall|k: int| 1 <= k < nodes@.len() implies nodes@[(k - 1) / 2].cost <= (
        #[trigger] nodes@[k]).cost by {
            if k == i {
            }
        }
    }
}

/// Moves the root down until neither child is cheaper than it.
fn sift_down(nodes: &mut Vec<Node>)
    requires
        ordered_below(old(nodes)@, 0),
    ensures
        heap_ordered(final(nodes)@),
        final(nodes)@.to_multiset() == old(nodes)@.to_multiset(),
{
    let n: usize = nodes.len();
    let mut i: usize = 0;
    while i < n / 2
        invariant
            n == nodes.len(),
            0 <= i,
            nodes@.to_multiset() == old(nodes)@.to_multiset(),
            ordered_below(nodes@, i as int),
        decreases n - i,
    {
        let left: usize = 2 * i + 1;
        let right: usize = left + 1;
        let mut smallest: usize = left;
        if right < n && nodes[right].cost < nodes[left].cost {
            smallest = right;
        }
        let here: Node = nodes[i];
        let below: Node = nodes[smallest];
        if here.cost <= below.cost {
            proof {
                assert forall|k: int| 1 <= k < nodes@.len() implies nodes@[(k - 1) / 2].cost <= (
                #[trigger] nodes@[k]).cost by {
                    if (k - 1) / 2 == i {
                        assert(k == left || k == right);
                    }
                }
            }
            return ;
        }
        let ghost before: Seq<Node> = nodes@;
        nodes.set(i, below);
        nodes.set(smallest, here);
        proof {
            lemma_swap_keeps_multiset(before, i as int, smallest as int);
            assert(nodes@ =~= before.update(i as int, before[smallest as int]).update(
                smallest as int,
                before[i as int],
            ));
            assert forall|k: int|
                1 <= k < nodes@.len() && (k - 1) / 2 != smallest implies nodes@[(k - 1)
                    / 2].cost <= (#[trigger] nodes@[k]).cost by {
                if (k - 1) / 2 == i {
                    assert(k == left || k == right);
                    assert(before[left as int].cost >= before[smallest as int].cost);
                } else if k == i {
                    assert(before[(i - 1) / 2].cost <= before[smallest as int].cost);
                } else {
                    assert(before[(k - 1) / 2].cost <= before[k].cost);
                }
            }
            assert forall|k: int|
                1 <= k < nodes@.len() && (k - 1) / 2 == smallest && smallest >= 1 implies nodes@[(
                smallest - 1) / 2].cost <= (#[trigger] nodes@[k]).cost by {
                assert(before[smallest as int].cost <= before[k].cost);
            }
        }
        i = smallest;
    }
    proof {
        assert forall|k: int| 1 <= k < nodes@.len() implies nodes@[(k - 1) / 2].cost <= (
        #[trigger] nodes@[k]).cost by {
            if (k - 1) / 2 == i {
            }
        }
    }
}

} // verus!
