//! The frontier of the search: a binary min-heap of states with the cost at
//! which each was discovered.

use vstd::prelude::*;
use vstd::multiset::Multiset;
use crate::day17::model::Node;
use crate::order::lemma_swap_keeps_items;

verus! {

/// Discovered states awaiting expansion, handed out cheapest first.
pub struct Frontier {
    items: Vec<Node>,
}

/// The entry at `i` costs at least as much as its parent.
pub open spec fn le_parent(s: Seq<Node>, i: int) -> bool {
    s[(i - 1) / 2].dist <= s[i].dist
}

/// The entry at `c` costs at least as much as the parent of its parent `i`.
pub open spec fn le_grandparent(s: Seq<Node>, i: int, c: int) -> bool {
    s[(i - 1) / 2].dist <= s[c].dist
}

/// Every entry but the root costs at least as much as its parent, except
/// possibly the entry at `hole` compared with its parent.
pub open spec fn heap_except_up(s: Seq<Node>, hole: int) -> bool {
    forall|i: int| 1 <= i < s.len() && i != hole ==> #[trigger] le_parent(s, i)
}

/// Every entry but the root costs at least as much as its parent, except
/// possibly the children of `hole` compared with `hole`.
pub open spec fn heap_except_down(s: Seq<Node>, hole: int) -> bool {
    forall|i: int| 1 <= i < s.len() && (i - 1) / 2 != hole ==> #[trigger] le_parent(s, i)
}

/// Every entry but the root costs at least as much as its parent.
pub open spec fn is_heap(s: Seq<Node>) -> bool {
    forall|i: int| 1 <= i < s.len() ==> #[trigger] le_parent(s, i)
}

/// In a heap no entry is cheaper than the root.
pub proof fn lemma_root_is_least(s: Seq<Node>, i: int)
    requires
        is_heap(s),
        0 <= i < s.len(),
    ensures
        s[0].dist <= s[i].dist,
    decreases i,
{
    if i > 0 {
        lemma_root_is_least(s, (i - 1) / 2);
        assert(le_parent(s, i));
    }
}

impl Frontier {
    /// The entries held, without order.
    pub closed spec fn view(&self) -> Multiset<Node> {
        self.items@.to_multiset()
    }

    /// The entries are arranged as a heap.
    pub closed spec fn wf(&self) -> bool {
        is_heap(self.items@)
    }

    /// Number of entries held.
    pub closed spec fn spec_len(&self) -> nat {
        self.items@.len()
    }

    /// The view has as many entries as `spec_len` says.
    pub proof fn lemma_len(&self)
        ensures
            self@.len() == self.spec_len(),
    {
        broadcast use vstd::seq_lib::to_multiset_len;
    }

    /// An empty frontier.
    pub fn new() -> (f: Frontier)
        ensures
            f.wf(),
            f@ == Multiset::<Node>::empty(),
            f.spec_len() == 0,
    {
        let f = Frontier { items: Vec::new() };
        proof {
            broadcast use vstd::seq_lib::to_multiset_len;
            broadcast use vstd::multiset::group_multiset_axioms;
            assert(f@.len() == 0);
            assert(f@ =~= Multiset::<Node>::empty());
        }
        f
    }

    /// Number of entries held.
    pub fn len(&self) -> (n: usize)
        ensures
            n == self.spec_len(),
    {
        self.items.len()
    }

    fn swap(&mut self, i: usize, j: usize)
        requires
            i < old(self).items@.len(),
            j < old(self).items@.len(),
        ensures
            final(self).items@ == old(self).items@.update(i as int, old(self).items@[j as int]).update(
                j as int,
                old(self).items@[i as int],
            ),
            final(self)@ == old(self)@,
    {
        let a: Node = self.items[i];
        let b: Node = self.items[j];
        self.items.set(i, b);
        self.items.set(j, a);
        proof {
            lemma_swap_keeps_items(old(self).items@, i as int, j as int);
        }
    }

    /// Adds an entry.
    pub fn push(&mut self, node: Node)
        requires
            old(self).wf(),
        ensures
            final(self).wf(),
            final(self)@ == old(self)@.insert(node),
            final(self).spec_len() == old(self).spec_len() + 1,
    {
        self.items.push(node);
        proof {
            vstd::seq_lib::to_multiset_build(old(self).items@, node);
            assert forall|k: int| 1 <= k < self.items@.len() && k != self.items@.len() - 1 implies #[trigger] le_parent(
                self.items@,
                k,
            ) by {
                assert(le_parent(old(self).items@, k));
            }
        }
        let mut i: usize = self.items.len() - 1;
        while i > 0
            invariant
                i < self.items@.len(),
                self.items@.len() == old(self).items@.len() + 1,
                self@ == old(self)@.insert(node),
                heap_except_up(self.items@, i as int),
                forall|c: int|
                    1 <= c < self.items@.len() && (c - 1) / 2 == i && i > 0 ==> #[trigger] le_grandparent(
                        self.items@,
                        i as int,
                        c,
                    ),
            ensures
                is_heap(self.items@),
                self.items@.len() == old(self).items@.len() + 1,
                self@ == old(self)@.insert(node),
            decreases i,
        {
            let parent: usize = (i - 1) / 2;
            if self.items[parent].dist <= self.items[i].dist {
                proof {
                    assert(le_parent(self.items@, i as int));
                }
                break;
            }
            let ghost before = self.items@;
            self.swap(parent, i);
            proof {
                lemma_sift_up_step(before, self.items@, i as int);
            }
            i = parent;
        }
    }

    /// Removes and returns an entry of least cost, or `None` when the
    /// frontier is empty.
    pub fn pop(&mut self) -> (r: Option<Node>)
        requires
            old(self).wf(),
        ensures
            final(self).wf(),
            r is None <==> old(self).spec_len() == 0,
            r is None ==> final(self)@ == old(self)@ && final(self).spec_len() == 0,
            r matches Some(node) ==> {
                &&& old(self)@.contains(node)
                &&& final(self)@ == old(self)@.remove(node)
                &&& final(self).spec_len() + 1 == old(self).spec_len()
                &&& forall|m: Node| old(self)@.contains(m) ==> node.dist <= m.dist
            },
    {
        let n: usize = self.items.len();
        if n == 0 {
            return None;
        }
        proof {
            lemma_root_is_least_entry(old(self).items@);
        }
        self.swap(0, n - 1);
        let ghost swapped = self.items@;
        let least = self.items.pop().unwrap();
        proof {
            vstd::seq_lib::to_multiset_remove(swapped, n as int - 1);
            assert(self.items@ =~= swapped.remove(n as int - 1));
            assert(least == old(self).items@[0]);
            assert forall|k: int| 1 <= k < self.items@.len() && (k - 1) / 2 != 0 implies #[trigger] le_parent(
                self.items@,
                k,
            ) by {
                assert(le_parent(old(self).items@, k));
            }
        }
        let len: usize = self.items.len();
        let mut i: usize = 0;
        loop
            invariant
                len == self.items@.len(),
                i < len || len == 0,
                self@ == old(self)@.remove(least),
                heap_except_down(self.items@, i as int),
                forall|c: int|
                    1 <= c < len && (c - 1) / 2 == i && i > 0 ==> #[trigger] le_grandparent(self.items@, i as int, c),
            ensures
                is_heap(self.items@),
                len == self.items@.len(),
                self@ == old(self)@.remove(least),
            decreases len - i,
        {
            if len == 0 || i >= len / 2 {
                proof {
                    assert forall|k: int| 1 <= k < self.items@.len() implies #[trigger] le_parent(self.items@, k) by {
                        if (k - 1) / 2 == i {
                            assert(k >= 2 * i + 1);
                        }
                    }
                }
                break;
            }
            let left: usize = 2 * i + 1;
            let right: usize = left + 1;
            let mut child: usize = left;
            if right < len && self.items[right].dist < self.items[left].dist {
                child = right;
            }
            if self.items[i].dist <= self.items[child].dist {
                proof {
                    assert forall|k: int| 1 <= k < self.items@.len() implies #[trigger] le_parent(self.items@, k) by {
                        if (k - 1) / 2 == i {
                            assert(k == left || k == right);
                        }
                    }
                }
                break;
            }
            let ghost before = self.items@;
            self.swap(i, child);
            proof {
                lemma_sift_down_step(before, self.items@, i as int, child as int);
            }
            i = child;
        }
        Some(least)
    }
}

/// The root of a non-empty heap is an entry, and no entry is cheaper.
pub proof fn lemma_root_is_least_entry(s: Seq<Node>)
    requires
        is_heap(s),
        s.len() > 0,
    ensures
        s.to_multiset().contains(s[0]),
        forall|m: Node| s.to_multiset().contains(m) ==> s[0].dist <= m.dist,
{
    assert(s.contains(s[0]));
    vstd::seq_lib::to_multiset_contains(s, s[0]);
    assert forall|m: Node| s.to_multiset().contains(m) implies s[0].dist <= m.dist by {
        vstd::seq_lib::to_multiset_contains(s, m);
        let k = choose|k: int| 0 <= k < s.len() && s[k] == m;
        lemma_root_is_least(s, k);
    }
}

/// Exchanging a too-cheap entry with its parent moves the one possible
/// violation of the heap order one level up.
pub proof fn lemma_sift_up_step(before: Seq<Node>, after: Seq<Node>, i: int)
    requires
        0 < i < before.len(),
        heap_except_up(before, i),
        forall|c: int| 1 <= c < before.len() && (c - 1) / 2 == i ==> #[trigger] le_grandparent(before, i, c),
        before[i].dist < before[(i - 1) / 2].dist,
        after == before.update((i - 1) / 2, before[i]).update(i, before[(i - 1) / 2]),
    ensures
        heap_except_up(after, (i - 1) / 2),
        forall|c: int|
            1 <= c < after.len() && (c - 1) / 2 == (i - 1) / 2 && (i - 1) / 2 > 0 ==> #[trigger] le_grandparent(
                after,
                (i - 1) / 2,
                c,
            ),
{
    let parent = (i - 1) / 2;
    assert forall|k: int| 1 <= k < after.len() && k != parent implies #[trigger] le_parent(after, k) by {
        if k == i {
        } else if (k - 1) / 2 == i {
            assert(le_grandparent(before, i, k));
        } else {
            assert(le_parent(before, k));
        }
    }
    assert forall|c: int| 1 <= c < after.len() && (c - 1) / 2 == parent && parent > 0 implies #[trigger] le_grandparent(
        after,
        parent,
        c,
    ) by {
        assert(le_parent(before, parent));
        if c != i {
            assert(le_parent(before, c));
        }
    }
}

/// Exchanging a too-costly entry with its cheaper child moves the possible
/// violations of the heap order one level down.
pub proof fn lemma_sift_down_step(before: Seq<Node>, after: Seq<Node>, i: int, child: int)
    requires
        0 <= i < before.len(),
        0 < child < before.len(),
        (child - 1) / 2 == i,
        heap_except_down(before, i),
        forall|c: int| 1 <= c < before.len() && (c - 1) / 2 == i && i > 0 ==> #[trigger] le_grandparent(before, i, c),
        forall|c: int| 1 <= c < before.len() && (c - 1) / 2 == i ==> before[child].dist <= (#[trigger] before[c]).dist,
        before[child].dist < before[i].dist,
        after == before.update(i, before[child]).update(child, before[i]),
    ensures
        heap_except_down(after, child),
        forall|c: int| 1 <= c < after.len() && (c - 1) / 2 == child ==> #[trigger] le_grandparent(after, child, c),
{
    assert forall|k: int| 1 <= k < after.len() && (k - 1) / 2 != child implies #[trigger] le_parent(after, k) by {
        if (k - 1) / 2 == i {
            assert(before[child].dist <= before[k].dist);
        } else if k == i {
            assert(le_grandparent(before, i, child));
        } else {
            assert(le_parent(before, k));
        }
    }
    assert forall|c: int| 1 <= c < after.len() && (c - 1) / 2 == child implies #[trigger] le_grandparent(
        after,
        child,
        c,
    ) by {
        assert(le_parent(before, c));
    }
}

} // verus!
