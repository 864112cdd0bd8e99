//! A priority queue of tagged items, smallest sequence number first.

use vstd::prelude::*;
use vstd::multiset::Multiset;
use crate::wrap::Wrap;

verus! {

/// Index of the parent of node `i` in the implicit binary tree.
spec fn parent(i: int) -> int {
    (i - 1) / 2
}

/// Node `i` is no smaller than its parent.
spec fn above_parent<Y>(s: Seq<Wrap<Y>>, i: int) -> bool {
    s[parent(i)].0 <= s[i].0
}

/// Every node but the root is no smaller than its parent.
spec fn heap_ordered<Y>(s: Seq<Wrap<Y>>) -> bool {
    forall|i: int| 0 < i < s.len() ==> #[trigger] above_parent(s, i)
}

/// Nothing in `held` has a sequence number below `seq`.
pub open spec fn none_below<Y>(held: Multiset<Wrap<Y>>, seq: usize) -> bool {
    forall|w: Wrap<Y>| held.contains(w) ==> seq <= w.0
}

/// In a heap-ordered sequence the root is a lower bound of every node.
proof fn lemma_root_least<Y>(s: Seq<Wrap<Y>>, i: int)
    requires
        heap_ordered(s),
        0 <= i < s.len(),
    ensures
        s[0].0 <= s[i].0,
    decreases i,
{
    if i > 0 {
        assert(above_parent(s, i));
        lemma_root_least(s, parent(i));
    }
}

/// The empty sequence holds nothing.
proof fn lemma_nothing_held<Y>(s: Seq<Wrap<Y>>)
    requires
        s.len() == 0,
    ensures
        s.to_multiset() == Multiset::<Wrap<Y>>::empty(),
        s.to_multiset().len() == 0,
{
    vstd::seq_lib::to_multiset_len(s);
    vstd::multiset::lemma_multiset_empty_len(s.to_multiset());
    assert(s.to_multiset() =~= Multiset::<Wrap<Y>>::empty());
}

/// Exchanging two entries keeps the multiset of entries.
proof fn lemma_swap_keeps_multiset<Y>(s: Seq<Wrap<Y>>, i: int, j: int)
    requires
        0 <= i < s.len(),
        0 <= j < s.len(),
    ensures
        s.update(i, s[j]).update(j, s[i]).to_multiset() == s.to_multiset(),
{
    broadcast use vstd::seq_lib::group_to_multiset_ensures;
    broadcast use vstd::multiset::group_multiset_axioms;
    let t = s.update(i, s[j]);
    assert(t.to_multiset() == s.to_multiset().insert(s[j]).remove(s[i]));
    assert(t.update(j, s[i]).to_multiset() == t.to_multiset().insert(s[i]).remove(t[j]));
    assert(t.update(j, s[i]).to_multiset() =~= s.to_multiset());
}

/// Exchanges the entries at `i` and `j`.
fn swap_items<Y>(v: &mut Vec<Wrap<Y>>, i: usize, j: usize)
    requires
        i < j < old(v).len(),
    ensures
        final(v)@ == old(v)@.update(i as int, old(v)@[j as int]).update(j as int, old(v)@[i as int]),
        final(v)@.to_multiset() == old(v)@.to_multiset(),
{
    let ghost before = v@;
    let (left, right) = v.as_mut_slice().split_at_mut(j);
    core::mem::swap(&mut left[i], &mut right[0]);
    proof {
        assert(v@ =~= before.update(i as int, before[j as int]).update(j as int, before[i as int]));
        lemma_swap_keeps_multiset(before, i as int, j as int);
    }
}

/// Heap order holds everywhere except perhaps between `pos` and its parent,
/// and the children of `pos` are already no smaller than that parent.
spec fn ordered_but_up<Y>(s: Seq<Wrap<Y>>, pos: int) -> bool {
    &&& forall|i: int| 0 < i < s.len() && i != pos ==> #[trigger] above_parent(s, i)
    &&& forall|c: int|
        0 < pos && 0 < c < s.len() && parent(c) == pos ==> s[parent(pos)].0 <= (#[trigger] s[c]).0
}

/// Heap order holds everywhere except perhaps between `pos` and its
/// children, and those children are already no smaller than the parent of
/// `pos`.
spec fn ordered_but_down<Y>(s: Seq<Wrap<Y>>, pos: int) -> bool {
    &&& forall|i: int| 0 < i < s.len() && parent(i) != pos ==> #[trigger] above_parent(s, i)
    &&& forall|c: int|
        0 < pos && 0 < c < s.len() && parent(c) == pos ==> s[parent(pos)].0 <= (#[trigger] s[c]).0
}

/// Moves the entry at `start` towards the root until its parent is no larger.
fn sift_up<Y>(v: &mut Vec<Wrap<Y>>, start: usize)
    requires
        start < old(v).len(),
        ordered_but_up(old(v)@, start as int),
    ensures
        heap_ordered(final(v)@),
        final(v)@.to_multiset() == old(v)@.to_multiset(),
{
    let mut pos: usize = start;
    while pos > 0
        invariant
            pos < v.len(),
            ordered_but_up(v@, pos as int),
            v@.to_multiset() == old(v)@.to_multiset(),
        ensures
            heap_ordered(v@),
            v@.to_multiset() == old(v)@.to_multiset(),
        decreases pos,
    {
        let up: usize = (pos - 1) / 2;
        if v[up].0 <= v[pos].0 {
            proof {
                assert(above_parent(v@, pos as int));
            }
            break;
        }
        let ghost before = v@;
        swap_items(v, up, pos);
        proof {
            assert forall|i: int| 0 < i < v@.len() && i != up implies #[trigger] above_parent(
                v@,
                i,
            ) by {
                if i != pos {
                    assert(above_parent(before, i));
                    if parent(i) == pos {
                        assert(before[parent(pos as int)].0 <= before[i].0);
                    }
                }
            }
            assert forall|c: int|
                0 < up && 0 < c < v@.len() && parent(c) == up implies v@[parent(up as int)].0 <= (
            #[trigger] v@[c]).0 by {
                assert(above_parent(before, up as int));
                if c != pos {
                    assert(above_parent(before, c));
                }
            }
        }
        pos = up;
    }
}

/// Moves the entry at the root towards the leaves until no child is smaller.
fn sift_down<Y>(v: &mut Vec<Wrap<Y>>)
    requires
        ordered_but_down(old(v)@, 0),
    ensures
        heap_ordered(final(v)@),
        final(v)@.to_multiset() == old(v)@.to_multiset(),
{
    let n: usize = v.len();
    let mut pos: usize = 0;
    while pos < n / 2
        invariant
            n == v.len(),
            pos <= n,
            ordered_but_down(v@, pos as int),
            v@.to_multiset() == old(v)@.to_multiset(),
        ensures
            heap_ordered(v@),
            v@.to_multiset() == old(v)@.to_multiset(),
        decreases n - pos,
    {
        let left: usize = 2 * pos + 1;
        let right: usize = left + 1;
        let child: usize = if right < n && v[right].0 < v[left].0 {
            right
        } else {
            left
        };
        if v[pos].0 <= v[child].0 {
            proof {
                assert forall|i: int| 0 < i < v@.len() implies #[trigger] above_parent(v@, i) by {
                    if parent(i) == pos {
                        assert(i == left || i == right);
                    }
                }
            }
            break;
        }
        let ghost before = v@;
        swap_items(v, pos, child);
        proof {
            assert forall|i: int| 0 < i < v@.len() && parent(i) != child implies #[trigger] above_parent(
                v@,
                i,
            ) by {
                if parent(i) == pos {
                    assert(i == left || i == right);
                } else if i == pos {
                    assert(before[parent(pos as int)].0 <= before[child as int].0);
                } else {
                    assert(above_parent(before, i));
                }
            }
            assert forall|c: int|
                0 < c < v@.len() && parent(c) == child implies v@[parent(child as int)].0 <= (
            #[trigger] v@[c]).0 by {
                assert(above_parent(before, c));
            }
        }
        pos = child;
    }
}

/// Appends `item` and restores heap order.
fn insert_item<Y>(v: &mut Vec<Wrap<Y>>, item: Wrap<Y>)
    requires
        heap_ordered(old(v)@),
    ensures
        heap_ordered(final(v)@),
        final(v)@.to_multiset() == old(v)@.to_multiset().insert(item),
{
    let n: usize = v.len();
    let ghost before = v@;
    v.push(item);
    proof {
        vstd::seq_lib::to_multiset_build(before, item);
        assert forall|i: int| 0 < i < v@.len() && i != n implies #[trigger] above_parent(v@, i) by {
            assert(above_parent(before, i));
        }
    }
    sift_up(v, n);
}

/// Removes the root, if there is one, and restores heap order.
fn take_root<Y>(v: &mut Vec<Wrap<Y>>) -> (out: Option<Wrap<Y>>)
    requires
        heap_ordered(old(v)@),
    ensures
        heap_ordered(final(v)@),
        match out {
            None => old(v)@.len() == 0 && final(v)@ == old(v)@,
            Some(w) => {
                &&& old(v)@.to_multiset().contains(w)
                &&& none_below(old(v)@.to_multiset(), w.0)
                &&& final(v)@.to_multiset() == old(v)@.to_multiset().remove(w)
            },
        },
{
    if v.len() == 0 {
        proof {
            lemma_nothing_held(v@);
        }
        return None;
    }
    let ghost before = v@;
    let root = v.swap_remove(0);
    proof {
        before.to_multiset_ensures();
        let moved = before.update(0, before.last());
        assert(v@ == moved.drop_last());
        assert(before.contains(before[0]));
        assert forall|w: Wrap<Y>| before.to_multiset().contains(w) implies root.0 <= w.0 by {
            let i = choose|i: int| 0 <= i < before.len() && before[i] == w;
            lemma_root_least(before, i);
        }
        vstd::seq_lib::to_multiset_update(before, 0, before.last());
        assert(moved.drop_last() =~= moved.remove(moved.len() - 1));
        vstd::seq_lib::to_multiset_remove(moved, moved.len() - 1);
        assert(v@.to_multiset() =~= before.to_multiset().remove(root));
        assert forall|i: int| 0 < i < v@.len() && parent(i) != 0 implies #[trigger] above_parent(
            v@,
            i,
        ) by {
            assert(above_parent(before, i));
        }
    }
    sift_down(v);
    Some(root)
}

/// A priority queue of tagged items that hands out the smallest sequence
/// number first.
///
/// The items sit in a vector laid out as an implicit binary tree in which no
/// node is smaller than its parent, so the smallest sequence number is at
/// index zero. Seen from outside, the queue is the multiset of what it holds.
///
/// An operation that reorders the vector first takes it out of the queue and
/// puts it back when it is in order again, so that the queue is well formed
/// at every step.
pub struct MinHeap<Y> {
    items: Vec<Wrap<Y>>,
}

impl<Y> View for MinHeap<Y> {
    type V = Multiset<Wrap<Y>>;

    closed spec fn view(&self) -> Multiset<Wrap<Y>> {
        self.items@.to_multiset()
    }
}

impl<Y> MinHeap<Y> {
    #[verifier::type_invariant]
    spec fn inv(self) -> bool {
        heap_ordered(self.items@)
    }

    /// An empty queue.
    pub fn new() -> (heap: Self)
        ensures
            heap@ == Multiset::<Wrap<Y>>::empty(),
    {
        let items: Vec<Wrap<Y>> = Vec::new();
        proof {
            lemma_nothing_held(items@);
        }
        MinHeap { items }
    }

    /// An empty queue with room for `capacity` items.
    pub fn with_capacity(capacity: usize) -> (heap: Self)
        ensures
            heap@ == Multiset::<Wrap<Y>>::empty(),
    {
        let items: Vec<Wrap<Y>> = Vec::with_capacity(capacity);
        proof {
            lemma_nothing_held(items@);
        }
        MinHeap { items }
    }

    /// Number of items held.
    pub fn len(&self) -> (n: usize)
        ensures
            n == self@.len(),
    {
        proof {
            self.items@.to_multiset_ensures();
        }
        self.items.len()
    }

    /// The smallest sequence number held, if any item is held.
    pub fn peek(&self) -> (out: Option<usize>)
        ensures
            match out {
                None => self@.len() == 0,
                Some(seq) => none_below(self@, seq) && exists|w: Wrap<Y>|
                    #[trigger] self@.contains(w) && w.0 == seq,
            },
    {
        proof {
            use_type_invariant(self);
            self.items@.to_multiset_ensures();
        }
        if self.items.len() == 0 {
            proof {
                lemma_nothing_held(self.items@);
            }
            None
        } else {
            proof {
                let s = self.items@;
                assert(s.contains(s[0]));
                assert(self@.contains(s[0]));
                assert forall|w: Wrap<Y>| self@.contains(w) implies s[0].0 <= w.0 by {
                    let i = choose|i: int| 0 <= i < s.len() && s[i] == w;
                    lemma_root_least(s, i);
                }
                assert(none_below(self@, s[0].0));
            }
            Some(self.items[0].0)
        }
    }

    /// Adds `item` to the queue.
    pub fn push(&mut self, item: Wrap<Y>)
        ensures
            final(self)@ == old(self)@.insert(item),
    {
        proof {
            use_type_invariant(&*self);
        }
        let mut items: Vec<Wrap<Y>> = Vec::new();
        core::mem::swap(&mut self.items, &mut items);
        insert_item(&mut items, item);
        core::mem::swap(&mut self.items, &mut items);
    }

    /// Takes out an item with the smallest sequence number, if any item is
    /// held. Among several items with that number, which one leaves is not
    /// fixed.
    pub fn pop(&mut self) -> (out: Option<Wrap<Y>>)
        ensures
            match out {
                None => old(self)@.len() == 0 && final(self)@ == old(self)@,
                Some(w) => {
                    &&& old(self)@.contains(w)
                    &&& none_below(old(self)@, w.0)
                    &&& final(self)@ == old(self)@.remove(w)
                },
            },
    {
        proof {
            use_type_invariant(&*self);
        }
        let mut items: Vec<Wrap<Y>> = Vec::new();
        core::mem::swap(&mut self.items, &mut items);
        let out = take_root(&mut items);
        proof {
            if out is None {
                lemma_nothing_held(items@);
            }
        }
        core::mem::swap(&mut self.items, &mut items);
        out
    }
}

} // verus!
