//! The stream that puts results back in the order of their sequence numbers.
//!
//! What a stream holds is described by [`Held`]: the number due next, what
//! is pending, and what its source will still yield. [`Held::emits`] says
//! what one pull does, [`Held::drains`] what pulling to the end does, and
//! [`Held::carries`] says that what is held is a run of results under
//! consecutive numbers. [`lemma_emits_in_order`] and
//! [`lemma_drains_in_order`] show that such a run comes out in order.

use vstd::prelude::*;
use vstd::multiset::Multiset;
use vstd::std_specs::iter::IteratorSpec;
use crate::min_heap::{none_below, MinHeap};
use crate::wrap::{is_tagged, lemma_tag_count, tag, Wrap};

verus! {

/// What a stream holds, as its contracts see it.
pub ghost struct Held<Y> {
    /// The sequence number that is due next.
    pub next_expected: nat,
    /// The results that arrived before their turn.
    pub pending: Multiset<Wrap<Y>>,
    /// The results that have yet to arrive, in the order of their arrival.
    pub upstream: Seq<Wrap<Y>>,
}

/// The smallest sequence number among `pending` is `next_expected`.
pub open spec fn head_is_due<Y>(pending: Multiset<Wrap<Y>>, next_expected: nat) -> bool {
    exists|w: Wrap<Y>|
        #[trigger] pending.contains(w) && w.0 == next_expected && none_below(pending, w.0)
}

/// Position of the first arrival in `upstream` that carries
/// `next_expected`, or the length of `upstream` if none does.
pub open spec fn first_due<Y>(upstream: Seq<Wrap<Y>>, next_expected: nat) -> int
    decreases upstream.len(),
{
    if upstream.len() == 0 || upstream[0].0 == next_expected {
        0
    } else {
        1 + first_due(upstream.drop_first(), next_expected)
    }
}

impl<Y> Held<Y> {
    /// Pulled until it hands out nothing, a stream that holds `self` hands
    /// out `out`, item by item.
    pub open spec fn drains(self, out: Seq<Y>) -> bool
        decreases out.len(),
    {
        if out.len() == 0 {
            exists|after: Held<Y>| #[trigger] self.emits(None, after)
        } else {
            exists|after: Held<Y>| #[trigger]
                self.emits(Some(out[0]), after) && after.drains(out.drop_first())
        }
    }

    /// Everything held, pending or yet to arrive.
    pub open spec fn all(self) -> Multiset<Wrap<Y>> {
        self.pending.add(self.upstream.to_multiset())
    }

    /// What is held is `rest` under consecutive sequence numbers, the first
    /// of them the one due next: each of them once, in any order, and nothing
    /// else.
    pub open spec fn carries(self, rest: Seq<Y>) -> bool {
        &&& self.next_expected + rest.len() <= usize::MAX + 1
        &&& self.all() == tag(rest, self.next_expected).to_multiset()
    }

    /// One pull on a stream that holds `self` hands out `out` and leaves
    /// `after`.
    ///
    /// If the smallest pending sequence number is the one due, a pending
    /// result with that number is handed out. Otherwise arrivals are taken
    /// from upstream and set aside until one carries the number due, which is
    /// handed out; if none does, upstream is used up and nothing is handed
    /// out.
    pub open spec fn emits(self, out: Option<Y>, after: Held<Y>) -> bool {
        if head_is_due(self.pending, self.next_expected) {
            &&& out matches Some(y)
            &&& self.pending.contains(Wrap(self.next_expected as usize, y))
            &&& after.next_expected == self.next_expected + 1
            &&& after.pending == self.pending.remove(Wrap(self.next_expected as usize, y))
            &&& after.upstream == self.upstream
        } else {
            let k = first_due(self.upstream, self.next_expected);
            &&& after.pending == self.pending.add(self.upstream.take(k).to_multiset())
            &&& if k < self.upstream.len() {
                &&& out == Some(self.upstream[k].1)
                &&& after.next_expected == self.next_expected + 1
                &&& after.upstream == self.upstream.skip(k + 1)
            } else {
                &&& out is None
                &&& after.next_expected == self.next_expected
                &&& after.upstream == Seq::<Wrap<Y>>::empty()
            }
        }
    }
}

/// No arrivals make an empty multiset.
proof fn lemma_nothing_arrived<Y>(arrivals: Seq<Wrap<Y>>)
    requires
        arrivals.len() == 0,
    ensures
        arrivals.to_multiset() == Multiset::<Wrap<Y>>::empty(),
{
    vstd::seq_lib::to_multiset_len(arrivals);
    vstd::multiset::lemma_multiset_empty_len(arrivals.to_multiset());
    assert(arrivals.to_multiset() =~= Multiset::<Wrap<Y>>::empty());
}

/// `first_due` is the one position at which a scan from the front stops.
pub proof fn lemma_first_due<Y>(upstream: Seq<Wrap<Y>>, next_expected: nat, k: int)
    requires
        0 <= k <= upstream.len(),
        forall|i: int| 0 <= i < k ==> (#[trigger] upstream[i]).0 != next_expected,
        k < upstream.len() ==> upstream[k].0 == next_expected,
    ensures
        first_due(upstream, next_expected) == k,
    decreases k,
{
    if k > 0 {
        assert(upstream[0].0 != next_expected);
        let rest = upstream.drop_first();
        assert forall|i: int| 0 <= i < k - 1 implies (#[trigger] rest[i]).0 != next_expected by {
            assert(rest[i] == upstream[i + 1]);
        }
        lemma_first_due(rest, next_expected, k - 1);
    }
}

/// What `first_due` finds: nothing before it carries the number, and the
/// arrival at it does, unless it is the length.
pub proof fn lemma_first_due_found<Y>(upstream: Seq<Wrap<Y>>, next_expected: nat)
    ensures
        0 <= first_due(upstream, next_expected) <= upstream.len(),
        forall|i: int|
            0 <= i < first_due(upstream, next_expected) ==> (#[trigger] upstream[i]).0
                != next_expected,
        first_due(upstream, next_expected) < upstream.len() ==> upstream[first_due(
            upstream,
            next_expected,
        )].0 == next_expected,
    decreases upstream.len(),
{
    if !(upstream.len() == 0 || upstream[0].0 == next_expected) {
        let rest = upstream.drop_first();
        lemma_first_due_found(rest, next_expected);
        let k = first_due(rest, next_expected);
        assert forall|i: int| 0 <= i < k + 1 implies (#[trigger] upstream[i]).0
            != next_expected by {
            if i > 0 {
                assert(rest[i - 1] == upstream[i]);
            }
        }
        if k < rest.len() {
            assert(rest[k] == upstream[k + 1]);
        }
    }
}

/// Taking the arrival at `k` out of `upstream` leaves the arrivals before
/// it and those after it.
proof fn lemma_split_at<Y>(upstream: Seq<Wrap<Y>>, k: int)
    requires
        0 <= k < upstream.len(),
    ensures
        upstream.to_multiset() == upstream.take(k).to_multiset().add(
            upstream.skip(k + 1).to_multiset(),
        ).insert(upstream[k]),
{
    let front = upstream.take(k);
    let back = upstream.skip(k + 1);
    assert(upstream =~= front.push(upstream[k]) + back);
    vstd::seq_lib::lemma_multiset_commutative(front.push(upstream[k]), back);
    vstd::seq_lib::to_multiset_build(front, upstream[k]);
    assert(upstream.to_multiset() =~= front.to_multiset().add(back.to_multiset()).insert(
        upstream[k],
    ));
}

/// Order is restored: a stream that holds `rest` under consecutive sequence
/// numbers, the first of them due, hands out the first of `rest` at the next
/// pull, whatever the order of arrival, and then holds the others in the
/// same way. When `rest` is empty it hands out nothing.
pub proof fn lemma_emits_in_order<Y>(held: Held<Y>, rest: Seq<Y>, out: Option<Y>, after: Held<Y>)
    requires
        held.carries(rest),
        held.emits(out, after),
    ensures
        rest.len() == 0 ==> out is None && after.carries(rest),
        rest.len() > 0 ==> out == Some(rest[0]) && after.carries(rest.drop_first()),
{
    broadcast use vstd::multiset::group_multiset_axioms;

    let due = held.next_expected;
    assert forall|w: Wrap<Y>| #[trigger] held.all().count(w) == if is_tagged(rest, due, w) {
        1nat
    } else {
        0nat
    } by {
        lemma_tag_count(rest, due, w);
    }
    lemma_first_due_found(held.upstream, due);
    let k = first_due(held.upstream, due);
    if rest.len() == 0 {
        assert forall|w: Wrap<Y>| !held.pending.contains(w) by {
            assert(held.all().count(w) == 0);
        }
        assert(k == held.upstream.len()) by {
            if k < held.upstream.len() {
                vstd::seq_lib::to_multiset_contains(held.upstream, held.upstream[k]);
                assert(held.upstream.contains(held.upstream[k]));
                assert(held.all().count(held.upstream[k]) == 0);
            }
        }
        assert(held.upstream.take(k) =~= held.upstream);
        lemma_nothing_arrived(after.upstream);
        assert(after.all() =~= held.all());
    } else {
        let first = Wrap(due as usize, rest[0]);
        assert(is_tagged(rest, due, first));
        assert(held.all().count(first) == 1);
        let later = rest.drop_first();
        assert forall|w: Wrap<Y>| w != first implies is_tagged(rest, due, w) == is_tagged(
            later,
            due + 1,
            w,
        ) by {
            if w.0 > due && w.0 < due + rest.len() {
                assert(later[w.0 - (due + 1)] == rest[w.0 - due]);
            }
        }
        assert forall|w: Wrap<Y>| held.pending.contains(w) implies due <= w.0 by {
            assert(held.all().count(w) > 0);
        }
        if head_is_due(held.pending, due) {
            let y = out->0;
            assert(held.all().count(Wrap(due as usize, y)) > 0);
            assert(y == rest[0]);
            assert(after.all() =~= held.all().remove(first));
        } else {
            assert(!held.pending.contains(first)) by {
                if held.pending.contains(first) {
                    assert(none_below(held.pending, first.0));
                }
            }
            vstd::seq_lib::to_multiset_contains(held.upstream, first);
            assert(held.upstream.contains(first));
            let j = choose|j: int| 0 <= j < held.upstream.len() && held.upstream[j] == first;
            assert(k <= j);
            let found = held.upstream[k];
            vstd::seq_lib::to_multiset_contains(held.upstream, found);
            assert(held.upstream.contains(found));
            assert(held.all().count(found) > 0);
            assert(found == first);
            lemma_split_at(held.upstream, k);
            assert(after.all() =~= held.all().remove(first));
        }
        assert forall|w: Wrap<Y>| #[trigger] after.all().count(w) == tag(
            later,
            due + 1,
        ).to_multiset().count(w) by {
            lemma_tag_count(later, due + 1, w);
            assert(held.all().count(w) == if is_tagged(rest, due, w) {
                1nat
            } else {
                0nat
            });
        }
        assert(after.all() =~= tag(later, due + 1).to_multiset());
    }
}

/// Puts tagged results, which arrive in any order, back into the order of
/// their sequence numbers, one result per pull.
///
/// The stream keeps the sequence number that is due next, starting at zero,
/// a queue of results that arrived early, and the source of arrivals.
#[verifier::reject_recursive_types(Y)]
pub struct OutputStream<Y, I: Iterator<Item = Wrap<Y>>> {
    iter: I,
    buffer: MinHeap<Y>,
    counter: usize,
    spent: bool,
}

impl<Y, I: Iterator<Item = Wrap<Y>>> OutputStream<Y, I> {
    /// The source of arrivals.
    pub closed spec fn source(self) -> I {
        self.iter
    }

    /// The results that arrived before their turn.
    pub closed spec fn pending(self) -> Multiset<Wrap<Y>> {
        self.buffer@
    }

    /// The sequence number that is due next. Once the largest sequence
    /// number has been handed out, this is one more, and nothing is due.
    pub closed spec fn next_expected(self) -> nat {
        if self.spent {
            (usize::MAX + 1) as nat
        } else {
            self.counter as nat
        }
    }

    /// What the stream holds when `upstream` is what its source will yield.
    pub open spec fn holding(self, upstream: Seq<Wrap<Y>>) -> Held<Y> {
        Held { next_expected: self.next_expected(), pending: self.pending(), upstream }
    }

    /// A stream over `iter` with nothing pending and sequence number zero
    /// due. Room for `expected` early results is set aside.
    pub fn new(iter: I, expected: usize) -> (stream: Self)
        ensures
            stream.source() == iter,
            stream.pending() == Multiset::<Wrap<Y>>::empty(),
            stream.next_expected() == 0,
    {
        OutputStream { iter, buffer: MinHeap::with_capacity(expected), counter: 0, spent: false }
    }

    fn advance(&mut self)
        requires
            old(self).next_expected() <= usize::MAX,
        ensures
            final(self).next_expected() == old(self).next_expected() + 1,
            final(self).iter == old(self).iter,
            final(self).buffer == old(self).buffer,
    {
        if self.counter == usize::MAX {
            self.spent = true;
        } else {
            self.counter = self.counter + 1;
        }
    }

    /// Hands out the result that is due, or `None` once the source has run
    /// out without yielding it.
    ///
    /// The source must be one that ends and then stays ended. A pull that
    /// hands out a result either takes from the source or takes one from
    /// what is pending, so a loop of pulls comes to an end.
    pub fn next(&mut self) -> (out: Option<Y>)
        requires
            old(self).source().obeys_prophetic_iter_laws(),
            old(self).source().decrease() is Some,
        ensures
            final(self).source().obeys_prophetic_iter_laws(),
            final(self).source().decrease() is Some,
            old(self).holding(old(self).source().remaining()).emits(
                out,
                final(self).holding(final(self).source().remaining()),
            ),
            out is Some ==> {
                ||| final(self).source().decrease()->0 < old(self).source().decrease()->0
                ||| {
                    &&& final(self).source().decrease() == old(self).source().decrease()
                    &&& final(self).pending().len() < old(self).pending().len()
                }
            },
    {
        let ghost before = *self;
        if !self.spent {
            if let Some(seq) = self.buffer.peek() {
                if seq == self.counter {
                    let Wrap(_, item) = self.buffer.pop().unwrap();
                    self.advance();
                    return Some(item);
                }
            }
        }
        assert(!head_is_due(before.pending(), before.next_expected()));
        let ghost mut pulled: int = 0;
        proof {
            lemma_nothing_arrived(before.iter.remaining().take(0));
            assert(self.buffer@ =~= before.buffer@.add(
                before.iter.remaining().take(0).to_multiset(),
            ));
        }
        loop
            invariant
                before == *old(self),
                self.iter.obeys_prophetic_iter_laws(),
                self.iter.decrease() is Some,
                self.counter == before.counter,
                self.spent == before.spent,
                pulled == 0 ==> self.iter.decrease() == before.iter.decrease(),
                pulled > 0 ==> self.iter.decrease()->0 < before.iter.decrease()->0,
                !head_is_due(before.pending(), before.next_expected()),
                0 <= pulled <= before.iter.remaining().len(),
                self.iter.remaining() == before.iter.remaining().skip(pulled),
                self.buffer@ == before.buffer@.add(
                    before.iter.remaining().take(pulled).to_multiset(),
                ),
                forall|i: int|
                    0 <= i < pulled ==> (#[trigger] before.iter.remaining()[i]).0
                        != before.next_expected(),
            decreases self.iter.decrease()->0,
        {
            let ghost upstream = before.iter.remaining();
            match self.iter.next() {
                Some(arrival) => {
                    assert(arrival == upstream[pulled]);
                    if !self.spent && arrival.0 == self.counter {
                        proof {
                            lemma_first_due(upstream, before.next_expected(), pulled);
                            assert(self.iter.remaining() =~= upstream.skip(pulled + 1));
                        }
                        self.advance();
                        return Some(arrival.1);
                    }
                    self.buffer.push(arrival);
                    proof {
                        assert(upstream.take(pulled + 1) =~= upstream.take(pulled).push(
                            upstream[pulled],
                        ));
                        vstd::seq_lib::to_multiset_build(upstream.take(pulled), upstream[pulled]);
                        assert(self.buffer@ =~= before.buffer@.add(
                            upstream.take(pulled + 1).to_multiset(),
                        ));
                        assert(self.iter.remaining() =~= upstream.skip(pulled + 1));
                        pulled = pulled + 1;
                    }
                },
                None => {
                    proof {
                        lemma_first_due(upstream, before.next_expected(), pulled);
                        assert(upstream.take(pulled) =~= upstream);
                        assert(self.iter.remaining() =~= Seq::<Wrap<Y>>::empty());
                    }
                    return None;
                },
            }
        }
    }

    /// Pulls until nothing is handed out, and returns what was handed out,
    /// in that order. A stream that carries results under consecutive
    /// sequence numbers, the first of them due, returns exactly those
    /// results, in the order of their numbers.
    pub fn collect(self) -> (out: Vec<Y>)
        requires
            self.source().obeys_prophetic_iter_laws(),
            self.source().decrease() is Some,
        ensures
            self.holding(self.source().remaining()).drains(out@),
            forall|rest: Seq<Y>|
                #[trigger] self.holding(self.source().remaining()).carries(rest) ==> out@ == rest,
    {
        let ghost start = self.holding(self.source().remaining());
        let mut stream = self;
        let mut out: Vec<Y> = Vec::new();
        proof {
            assert forall|rest: Seq<Y>| start.drains(rest) implies #[trigger] start.drains(
                out@ + rest,
            ) by {
                assert(out@ + rest =~= rest);
            }
        }
        loop
            invariant_except_break
                stream.iter.obeys_prophetic_iter_laws(),
                stream.iter.decrease() is Some,
                forall|rest: Seq<Y>|
                    stream.holding(stream.iter.remaining()).drains(rest) ==> #[trigger] start.drains(
                        out@ + rest,
                    ),
            ensures
                start.drains(out@),
            decreases stream.iter.decrease()->0, stream.buffer@.len(),
        {
            let ghost here = stream.holding(stream.iter.remaining());
            let ghost so_far = out@;
            match stream.next() {
                Some(item) => {
                    out.push(item);
                    proof {
                        let there = stream.holding(stream.iter.remaining());
                        assert forall|rest: Seq<Y>| there.drains(rest) implies #[trigger] start.drains(
                            out@ + rest,
                        ) by {
                            let more = seq![item] + rest;
                            assert(more.drop_first() =~= rest);
                            assert(here.emits(Some(more[0]), there));
                            assert(here.drains(more));
                            assert(so_far + more =~= out@ + rest);
                        }
                    }
                },
                None => {
                    proof {
                        let nothing = Seq::<Y>::empty();
                        assert(here.drains(nothing));
                        assert(so_far + nothing =~= out@);
                    }
                    break ;
                },
            }
        }
        proof {
            assert forall|rest: Seq<Y>| #[trigger] start.carries(rest) implies out@ == rest by {
                lemma_drains_in_order(start, rest, out@);
            }
        }
        out
    }
}

/// Order is restored over a whole run: a stream that holds `rest` under
/// consecutive sequence numbers, the first of them due, hands out exactly
/// `rest` when it is pulled until it hands out nothing, whatever the order
/// of arrival.
pub proof fn lemma_drains_in_order<Y>(held: Held<Y>, rest: Seq<Y>, out: Seq<Y>)
    requires
        held.carries(rest),
        held.drains(out),
    ensures
        out == rest,
    decreases out.len(),
{
    if out.len() == 0 {
        let after = choose|after: Held<Y>| #[trigger] held.emits(None, after);
        lemma_emits_in_order(held, rest, None, after);
        assert(out =~= rest);
    } else {
        let after = choose|after: Held<Y>| #[trigger]
            held.emits(Some(out[0]), after) && after.drains(out.drop_first());
        lemma_emits_in_order(held, rest, Some(out[0]), after);
        lemma_drains_in_order(after, rest.drop_first(), out.drop_first());
        assert(out =~= seq![out[0]] + out.drop_first());
        assert(rest =~= seq![rest[0]] + rest.drop_first());
    }
}

} // verus!
