//! A binary min-heap of cells keyed by elevation.

use vstd::multiset::Multiset;
use vstd::prelude::*;

verus! {

/// A cell waiting in the queue, with the elevation it was queued at.
#[derive(Clone, Copy, Debug)]
pub struct PriorityItem {
    pub elevation: i32,
    pub index: usize,
}

/// A priority queue that hands out its entries lowest elevation first.
/// Entries of equal elevation leave in no particular order.
pub struct PriorityQueue {
    items: Vec<PriorityItem>,
}

/// Entry `i` is not below its parent in the implicit binary tree.
spec fn ordered_at(s: Seq<PriorityItem>, i: int) -> bool {
    s[(i - 1) / 2].elevation <= s[i].elevation
}

/// Every entry but the root is ordered against its parent.
spec fn heap_ordered(s: Seq<PriorityItem>) -> bool {
    forall|i: int| 0 < i < s.len() ==> ordered_at(s, i)
}

/// In a heap-ordered sequence the root is a minimum.
proof fn lemma_root_is_least(s: Seq<PriorityItem>, i: int)
    requires
        heap_ordered(s),
        0 <= i < s.len(),
    ensures
        s[0].elevation <= s[i].elevation,
    decreases i,
{
    if i > 0 {
        assert(ordered_at(s, i));
        lemma_root_is_least(s, (i - 1) / 2);
    }
}

/// Exchanging two entries keeps the contents.
proof fn lemma_swap_keeps_contents(s: Seq<PriorityItem>, i: int, j: int)
    requires
        0 <= i < s.len(),
        0 <= j < s.len(),
    ensures
        s.update(i, s[j]).update(j, s[i]).to_multiset() == s.to_multiset(),
{
    broadcast use vstd::multiset::group_multiset_axioms;

    let t = s.update(i, s[j]);
    vstd::seq_lib::to_multiset_update(s, i, s[j]);
    vstd::seq_lib::to_multiset_update(t, j, s[i]);
    s.to_multiset_ensures();
    assert(s.contains(s[i]));
    assert(s.contains(s[j]));
    assert(t.update(j, s[i]).to_multiset() =~= s.to_multiset());
}

impl PriorityQueue {
    /// The entries in the queue, as a multiset.
    pub closed spec fn view(&self) -> Multiset<PriorityItem> {
        self.items@.to_multiset()
    }

    /// The internal ordering that makes the lowest entry cheap to find.
    pub closed spec fn wf(&self) -> bool {
        heap_ordered(self.items@)
    }

    /// An empty queue.
    pub fn new() -> (q: Self)
        ensures
            q.wf(),
            q@ == Multiset::<PriorityItem>::empty(),
    {
        let q = PriorityQueue { items: Vec::new() };
        proof {
            q.items@.to_multiset_ensures();
            assert(q.items@.to_multiset().len() == 0);
            assert(q.items@.to_multiset() =~= Multiset::<PriorityItem>::empty());
        }
        q
    }

    /// Number of entries.
    pub fn len(&self) -> (n: usize)
        ensures
            n == self@.len(),
    {
        proof {
            self.items@.to_multiset_ensures();
        }
        self.items.len()
    }

    fn swap(&mut self, i: usize, j: usize)
        requires
            i < old(self).items@.len(),
            j < old(self).items@.len(),
        ensures
            final(self).items@ == old(self).items@.update(i as int, old(self).items@[j as int]).update(
                j as int,
                old(self).items@[i as int],
            ),
            final(self)@ == old(self)@,
    {
        let a: PriorityItem = self.items[i];
        let b: PriorityItem = self.items[j];
        proof {
            lemma_swap_keeps_contents(self.items@, i as int, j as int);
        }
        self.items.set(i, b);
        self.items.set(j, a);
    }

    /// Adds an entry.
    pub fn push(&mut self, item: PriorityItem)
        requires
            old(self).wf(),
        ensures
            final(self).wf(),
            final(self)@ == old(self)@.insert(item),
    {
        proof {
            self.items@.to_multiset_ensures();
        }
        let ghost start = self.items@;
        self.items.push(item);
        let mut pos: usize = self.items.len() - 1;
        proof {
            assert forall|i: int| 0 < i < self.items@.len() && i != pos implies ordered_at(
                self.items@,
                i,
            ) by {
                assert(ordered_at(start, i));
            }
        }
        while pos > 0 && self.items[(pos - 1) / 2].elevation > self.items[pos].elevation
            invariant
                pos < self.items@.len(),
                self@ == old(self)@.insert(item),
                forall|i: int| 0 < i < self.items@.len() && i != pos ==> ordered_at(self.items@, i),
                forall|i: int|
                    0 < i < self.items@.len() && (i - 1) / 2 == pos && pos > 0 ==> self.items@[(pos
                        - 1) / 2].elevation <= (#[trigger] self.items@[i]).elevation,
            decreases pos,
        {
            let parent: usize = (pos - 1) / 2;
            let ghost before = self.items@;
            self.swap(parent, pos);
            proof {
                assert forall|i: int|
                    0 < i < self.items@.len() && i != parent implies ordered_at(self.items@, i) by {
                    if i == pos {
                    } else if (i - 1) / 2 == pos {
                        assert(before[parent as int].elevation <= before[i].elevation);
                    } else if (i - 1) / 2 == parent {
                        assert(ordered_at(before, i));
                    } else {
                        assert(ordered_at(before, i));
                    }
                }
                assert forall|i: int|
                    0 < i < self.items@.len() && (i - 1) / 2 == parent && parent
                        > 0 implies self.items@[(parent - 1) / 2].elevation <= (
                #[trigger] self.items@[i]).elevation by {
                    assert(ordered_at(before, parent as int));
                    if i != pos {
                        assert(ordered_at(before, i));
                    }
                }
            }
            pos = parent;
        }
        proof {
            assert forall|i: int| 0 < i < self.items@.len() implies ordered_at(self.items@, i) by {
                if i == pos {
                }
            }
        }
    }

    /// Takes out an entry of lowest elevation; `None` when the queue is
    /// empty.
    pub fn pop(&mut self) -> (r: Option<PriorityItem>)
        requires
            old(self).wf(),
        ensures
            final(self).wf(),
            match r {
                None => old(self)@.len() == 0 && final(self)@ == old(self)@,
                Some(least) => {
                    &&& old(self)@.count(least) > 0
                    &&& final(self)@ == old(self)@.remove(least)
                    &&& forall|other: PriorityItem|
                        old(self)@.count(other) > 0 ==> least.elevation <= other.elevation
                },
            },
    {
        proof {
            self.items@.to_multiset_ensures();
        }
        if self.items.len() == 0 {
            return None;
        }
        let ghost before = self.items@;
        let least: PriorityItem = self.items[0];
        proof {
            assert forall|other: PriorityItem|
                before.to_multiset().count(other) > 0 implies least.elevation
                <= other.elevation by {
                assert(before.contains(other));
                let k = choose|k: int| 0 <= k < before.len() && before[k] == other;
                lemma_root_is_least(before, k);
            }
            assert(before.contains(least));
        }
        let last: PriorityItem = self.items.pop().unwrap();
        let ghost shorter = self.items@;
        proof {
            shorter.to_multiset_ensures();
            assert(before =~= shorter.push(last));
            assert(shorter.to_multiset() =~= before.to_multiset().remove(last));
        }
        let n: usize = self.items.len();
        if n == 0 {
            proof {
                assert(self.items@.to_multiset() =~= before.to_multiset().remove(least));
            }
            return Some(least);
        }
        proof {
            vstd::seq_lib::to_multiset_update(shorter, 0, last);
            assert(shorter.update(0, last).to_multiset() =~= before.to_multiset().remove(least));
            assert forall|i: int| 0 < i < shorter.len() implies ordered_at(shorter, i) by {
                assert(ordered_at(before, i));
            }
        }
        self.items.set(0, last);
        let mut pos: usize = 0;
        proof {
            assert forall|i: int| 0 < i < n && (i - 1) / 2 != 0 implies ordered_at(
                self.items@,
                i,
            ) by {
                assert(ordered_at(shorter, i));
            }
        }
        let mut settled: bool = false;
        while !settled
            invariant
                n == self.items@.len(),
                pos < n,
                self@ == before.to_multiset().remove(least),
                forall|i: int|
                    0 < i < n && (i - 1) / 2 != pos ==> ordered_at(self.items@, i),
                forall|i: int|
                    0 < i < n && (i - 1) / 2 == pos && pos > 0 ==> self.items@[(pos - 1)
                        / 2].elevation <= (#[trigger] self.items@[i]).elevation,
                settled ==> heap_ordered(self.items@),
            decreases n - pos, if settled { 0int } else { 1int },
        {
            if n - pos <= pos || n - pos - pos <= 1 {
                // no child at 2 * pos + 1
                settled = true;
                proof {
                    assert forall|i: int| 0 < i < n implies ordered_at(self.items@, i) by {
                        if (i - 1) / 2 == pos {
                        }
                    }
                }
            } else {
                let left: usize = 2 * pos + 1;
                let mut child: usize = left;
                if left + 1 < n && self.items[left + 1].elevation < self.items[left].elevation {
                    child = left + 1;
                }
                if self.items[pos].elevation <= self.items[child].elevation {
                    settled = true;
                    proof {
                        assert forall|i: int| 0 < i < n implies ordered_at(self.items@, i) by {
                            if (i - 1) / 2 == pos {
                                assert(i == left || i == left + 1);
                            }
                        }
                    }
                } else {
                    let ghost prior = self.items@;
                    self.swap(pos, child);
                    proof {
                        assert forall|i: int|
                            0 < i < n && (i - 1) / 2 != child implies ordered_at(
                            self.items@,
                            i,
                        ) by {
                            if (i - 1) / 2 == pos {
                                assert(i == left || i == left + 1);
                            } else if i == pos {
                                assert(prior[(pos - 1) / 2].elevation <= prior[child as int].elevation);
                            } else {
                                assert(ordered_at(prior, i));
                            }
                        }
                        assert forall|i: int|
                            0 < i < n && (i - 1) / 2 == child && child
                                > 0 implies self.items@[(child - 1) / 2].elevation <= (
                        #[trigger] self.items@[i]).elevation by {
                            assert(ordered_at(prior, i));
                        }
                    }
                    pos = child;
                }
            }
        }
        Some(least)
    }
}

} // verus!
