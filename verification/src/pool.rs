//! The stages in front of the stream: tagging, dealing out in turn, and the
//! work of the workers.
//!
//! [`share`] says what dealing in turn hands to one worker, and [`arrivals`]
//! in what order the results of a pool arrive when its workers run one after
//! the other. [`lemma_arrivals_whole`] shows that nothing is lost or doubled
//! on the way.

use vstd::prelude::*;
use vstd::std_specs::iter::IteratorSpec;
use crate::wrap::{tag, Wrap};

verus! {

/// The test that picks what worker `w` of `workers` is handed: the sequence
/// number, modulo the size of the pool, is `w`.
pub open spec fn served_by<X>(workers: nat, w: nat) -> spec_fn(Wrap<X>) -> bool {
    |item: Wrap<X>| item.0 as nat % workers == w
}

/// What worker `w` of `workers` is handed of `tagged`, in the order in which
/// it is handed over.
pub open spec fn share<X>(tagged: Seq<Wrap<X>>, workers: nat, w: nat) -> Seq<Wrap<X>> {
    tagged.filter(served_by(workers, w))
}

/// What each worker of a pool of `workers` is handed of `tagged`, worker by
/// worker.
pub open spec fn shares<X>(tagged: Seq<Wrap<X>>, workers: nat) -> Seq<Seq<Wrap<X>>> {
    Seq::new(workers, |w: int| share(tagged, workers, w as nat))
}

/// The queues of a pool laid end to end: all of the first worker's, then all
/// of the second's, and so on.
pub open spec fn in_turn<X>(queues: Seq<Seq<Wrap<X>>>) -> Seq<Wrap<X>>
    decreases queues.len(),
{
    if queues.len() == 0 {
        Seq::empty()
    } else {
        in_turn(queues.drop_last()) + queues.last()
    }
}

/// The order in which `results`, given in input order, arrive from a pool of
/// `workers` whose workers run one after the other.
pub open spec fn arrivals<Y>(results: Seq<Y>, workers: nat) -> Seq<Wrap<Y>> {
    in_turn(shares(tag(results, 0), workers))
}

/// The queues of a pool, each as the sequence of what it holds.
pub open spec fn queued<X>(queues: Seq<Vec<Wrap<X>>>) -> Seq<Seq<Wrap<X>>> {
    queues.map_values(|queue: Vec<Wrap<X>>| queue@)
}

/// A share grows by an item exactly when the item is served by that worker.
proof fn lemma_share_push<X>(tagged: Seq<Wrap<X>>, item: Wrap<X>, workers: nat, w: nat)
    ensures
        share(tagged.push(item), workers, w) == if item.0 as nat % workers == w {
            share(tagged, workers, w).push(item)
        } else {
            share(tagged, workers, w)
        },
{
    reveal(Seq::filter);
    assert(tagged.push(item).drop_last() =~= tagged);
}

/// A share holds what the whole holds of the items served by that worker,
/// and nothing else.
proof fn lemma_share_count<X>(tagged: Seq<Wrap<X>>, workers: nat, w: nat, item: Wrap<X>)
    ensures
        share(tagged, workers, w).to_multiset().count(item) == if item.0 as nat % workers == w {
            tagged.to_multiset().count(item)
        } else {
            0
        },
    decreases tagged.len(),
{
    broadcast use vstd::multiset::group_multiset_axioms;

    if tagged.len() == 0 {
        reveal(Seq::filter);
        vstd::seq_lib::to_multiset_len(tagged);
        vstd::seq_lib::to_multiset_len(share(tagged, workers, w));
    } else {
        let front = tagged.drop_last();
        let last = tagged.last();
        assert(tagged =~= front.push(last));
        lemma_share_push(front, last, workers, w);
        lemma_share_count(front, workers, w, item);
        vstd::seq_lib::to_multiset_build(front, last);
        vstd::seq_lib::to_multiset_build(share(front, workers, w), last);
    }
}

/// The queues of the first `upto` workers hold what the whole holds of the
/// items served by those workers.
proof fn lemma_in_turn_count<X>(tagged: Seq<Wrap<X>>, workers: nat, upto: nat, item: Wrap<X>)
    requires
        1 <= workers,
        upto <= workers,
    ensures
        in_turn(shares(tagged, workers).take(upto as int)).to_multiset().count(item)
            == if item.0 as nat % workers < upto {
            tagged.to_multiset().count(item)
        } else {
            0
        },
    decreases upto,
{
    broadcast use vstd::multiset::group_multiset_axioms;

    let so_far = shares(tagged, workers).take(upto as int);
    if upto == 0 {
        assert(in_turn(so_far).len() == 0);
        vstd::seq_lib::to_multiset_len(in_turn(so_far));
        assert(item.0 as nat % workers >= 0) by (nonlinear_arith)
            requires
                workers >= 1,
        ;
    } else {
        let before = (upto - 1) as nat;
        assert(so_far.drop_last() =~= shares(tagged, workers).take(before as int));
        assert(so_far.last() == share(tagged, workers, before));
        lemma_in_turn_count(tagged, workers, before, item);
        lemma_share_count(tagged, workers, before, item);
        vstd::seq_lib::lemma_multiset_commutative(in_turn(so_far.drop_last()), so_far.last());
    }
}

/// Dispatch in turn loses nothing and doubles nothing: what arrives from a
/// pool, of whatever size, is the results under their sequence numbers, each
/// of them once.
pub proof fn lemma_arrivals_whole<Y>(results: Seq<Y>, workers: nat)
    requires
        workers >= 1,
    ensures
        arrivals(results, workers).to_multiset() == tag(results, 0).to_multiset(),
{
    let tagged = tag(results, 0);
    let all = shares(tagged, workers);
    assert(all.take(workers as int) =~= all);
    assert forall|item: Wrap<Y>|
        in_turn(all).to_multiset().count(item) == tagged.to_multiset().count(item) by {
        lemma_in_turn_count(tagged, workers, workers, item);
        assert(item.0 as nat % workers < workers) by (nonlinear_arith)
            requires
                workers >= 1,
        ;
    }
    assert(in_turn(all).to_multiset() =~= tagged.to_multiset());
}

/// What becomes of a tagged item when its payload is replaced by the entry
/// of `ys` at its sequence number.
spec fn renumbered<X, Y>(ys: Seq<Y>) -> spec_fn(Wrap<X>) -> Wrap<Y> {
    |item: Wrap<X>| Wrap(item.0, ys[item.0 as int])
}

/// Replacing payloads leaves every share in place.
proof fn lemma_share_renumbered<X, Y>(tagged: Seq<Wrap<X>>, ys: Seq<Y>, workers: nat, w: nat)
    ensures
        share(tagged.map_values(renumbered(ys)), workers, w) == share(
            tagged,
            workers,
            w,
        ).map_values(renumbered(ys)),
    decreases tagged.len(),
{
    let swap = renumbered::<X, Y>(ys);
    if tagged.len() == 0 {
        reveal(Seq::filter);
        assert(share(tagged.map_values(swap), workers, w) =~= share(
            tagged,
            workers,
            w,
        ).map_values(swap));
    } else {
        let front = tagged.drop_last();
        let last = tagged.last();
        assert(tagged =~= front.push(last));
        assert(tagged.map_values(swap) =~= front.map_values(swap).push(swap(last)));
        lemma_share_renumbered(front, ys, workers, w);
        lemma_share_push(front, last, workers, w);
        lemma_share_push(front.map_values(swap), swap(last), workers, w);
        let mine = share(front, workers, w);
        assert(mine.push(last).map_values(swap) =~= mine.map_values(swap).push(swap(last)));
    }
}

/// Replacing payloads queue by queue is replacing them in the queues laid
/// end to end.
proof fn lemma_in_turn_renumbered<X, Y>(
    queues: Seq<Seq<Wrap<X>>>,
    swapped: Seq<Seq<Wrap<Y>>>,
    ys: Seq<Y>,
)
    requires
        swapped.len() == queues.len(),
        forall|w: int|
            0 <= w < queues.len() ==> #[trigger] swapped[w] == queues[w].map_values(
                renumbered(ys),
            ),
    ensures
        in_turn(swapped) == in_turn(queues).map_values(renumbered(ys)),
    decreases queues.len(),
{
    let swap = renumbered::<X, Y>(ys);
    if queues.len() == 0 {
        assert(in_turn(swapped) =~= in_turn(queues).map_values(swap));
    } else {
        lemma_in_turn_renumbered(queues.drop_last(), swapped.drop_last(), ys);
        assert(swapped.last() == queues.last().map_values(swap));
        assert((in_turn(queues.drop_last()) + queues.last()).map_values(swap) =~= in_turn(
            queues.drop_last(),
        ).map_values(swap) + queues.last().map_values(swap));
    }
}

/// Results arrive in the order in which their inputs were sent: if `got`
/// has at each place the sequence number that the inputs, dealt out to
/// `workers` workers and laid end to end, have there, and `ys` at that number
/// as payload, then `got` is the arrival order of `ys` from such a pool.
pub proof fn lemma_arrivals_follow<X, Y>(
    input: Seq<X>,
    ys: Seq<Y>,
    workers: nat,
    got: Seq<Wrap<Y>>,
)
    requires
        ys.len() == input.len() <= usize::MAX,
        got.len() == arrivals(input, workers).len(),
        forall|j: int|
            0 <= j < got.len() ==> {
                &&& (#[trigger] got[j]).0 == arrivals(input, workers)[j].0
                &&& got[j].1 == ys[got[j].0 as int]
            },
    ensures
        got == arrivals(ys, workers),
{
    let swap = renumbered::<X, Y>(ys);
    let tagged = tag(input, 0);
    assert(tagged.map_values(swap) =~= tag(ys, 0));
    assert forall|w: int| 0 <= w < workers implies #[trigger] shares(tag(ys, 0), workers)[w]
        == shares(tagged, workers)[w].map_values(swap) by {
        lemma_share_renumbered(tagged, ys, workers, w as nat);
    }
    lemma_in_turn_renumbered(shares(tagged, workers), shares(tag(ys, 0), workers), ys);
    assert(got =~= arrivals(input, workers).map_values(swap));
}

/// Number of workers of a pool whose size the caller leaves open: one per
/// logical core.
///
/// Calls `num_cpus::get`. What it returns depends on the machine and on the
/// limits set for the process, so nothing is claimed of it but what the
/// crate documents of every call: the count is at least one.
#[verifier::external_body]
pub(crate) fn logical_cores() -> (n: usize)
    ensures
        n >= 1,
{
    num_cpus::get()
}

/// Hands out sequence numbers in input order and assigns each tagged item to
/// a worker in turn.
pub struct Dispatcher {
    workers: usize,
    counter: usize,
}

impl Dispatcher {
    #[verifier::type_invariant]
    spec fn inv(self) -> bool {
        self.workers >= 1
    }

    /// Size of the pool that is served.
    pub closed spec fn workers(self) -> nat {
        self.workers as nat
    }

    /// Number of items tagged so far, which is also the sequence number
    /// that the next item gets.
    pub closed spec fn issued(self) -> nat {
        self.counter as nat
    }

    /// A dispatcher for a pool of `workers` that has tagged nothing yet.
    pub fn new(workers: usize) -> (dispatcher: Self)
        requires
            workers >= 1,
        ensures
            dispatcher.workers() == workers,
            dispatcher.issued() == 0,
    {
        Dispatcher { workers, counter: 0 }
    }

    /// Number of items tagged so far.
    pub fn count(&self) -> (n: usize)
        ensures
            n == self.issued(),
    {
        self.counter
    }

    /// Tags `item` with the next sequence number and names the worker it
    /// goes to: the sequence number modulo the size of the pool.
    pub fn assign<X>(&mut self, item: X) -> (slot: (usize, Wrap<X>))
        requires
            old(self).issued() < usize::MAX,
        ensures
            final(self).workers() == old(self).workers(),
            final(self).issued() == old(self).issued() + 1,
            slot.0 == old(self).issued() % old(self).workers(),
            slot.0 < old(self).workers(),
            slot.1 == Wrap(old(self).issued() as usize, item),
    {
        proof {
            use_type_invariant(&*self);
        }
        let seq: usize = self.counter;
        let worker: usize = seq % self.workers;
        self.counter = seq + 1;
        (worker, Wrap(seq, item))
    }
}

/// One unit of a worker's work: applies `f` to the payload of `item` and
/// keeps its sequence number.
pub fn transform<X, Y, F: Fn(X) -> Y>(f: &F, item: Wrap<X>) -> (out: Wrap<Y>)
    requires
        f.requires((item.1,)),
    ensures
        out.0 == item.0,
        f.ensures((item.1,), out.1),
{
    let Wrap(seq, payload) = item;
    Wrap(seq, f(payload))
}

/// What a worker finds when it looks at its queue.
pub enum Inbox<X> {
    /// An item to work on.
    Item(Wrap<X>),
    /// Nothing yet, but more may come.
    Empty,
    /// Nothing, and nothing more will come.
    Closed,
}

/// What a worker does next.
pub enum Step<Y> {
    /// Send this result on and look again.
    Send(Wrap<Y>),
    /// Give way to others and look again.
    Wait,
    /// End.
    Stop,
}

/// One turn of a worker's loop: an item is transformed and its result sent
/// on, an empty queue is waited on, and a closed queue ends the worker.
pub fn worker_step<X, Y, F: Fn(X) -> Y>(f: &F, inbox: Inbox<X>) -> (step: Step<Y>)
    requires
        inbox matches Inbox::Item(item) ==> f.requires((item.1,)),
    ensures
        match inbox {
            Inbox::Item(item) => {
                &&& step matches Step::Send(result)
                &&& result.0 == item.0
                &&& f.ensures((item.1,), result.1)
            },
            Inbox::Empty => step is Wait,
            Inbox::Closed => step is Stop,
        },
{
    match inbox {
        Inbox::Item(item) => Step::Send(transform(f, item)),
        Inbox::Empty => Step::Wait,
        Inbox::Closed => Step::Stop,
    }
}

/// Tags the items of `xs` in the order in which they come and deals them
/// out to the queues of `workers` workers in turn. Returns the queues and
/// the number of items dealt.
pub fn deal<X, XI: Iterator<Item = X>>(xs: XI, workers: usize) -> (dealt: (
    Vec<Vec<Wrap<X>>>,
    usize,
))
    requires
        workers >= 1,
        xs.obeys_prophetic_iter_laws(),
        xs.decrease() is Some,
        xs.remaining().len() <= usize::MAX,
    ensures
        queued(dealt.0@) == shares(tag(xs.remaining(), 0), workers as nat),
        dealt.1 == xs.remaining().len(),
{
    let mut queues: Vec<Vec<Wrap<X>>> = Vec::with_capacity(workers);
    for made in 0..workers
        invariant
            queues@.len() == made,
            forall|w: int| 0 <= w < made ==> (#[trigger] queues@[w])@.len() == 0,
    {
        queues.push(Vec::new());
    }
    let mut dispatcher = Dispatcher::new(workers);
    let ghost all = xs.remaining();
    let ghost mut done: int = 0;
    proof {
        assert forall|w: int| 0 <= w < workers implies (#[trigger] queues@[w])@ == share(
            tag(all.take(0), 0),
            workers as nat,
            w as nat,
        ) by {
            reveal(Seq::filter);
            assert(tag(all.take(0), 0).len() == 0);
            assert(queues@[w]@ =~= share(tag(all.take(0), 0), workers as nat, w as nat));
        }
    }
    let mut xs = xs;
    loop
        invariant
            xs.obeys_prophetic_iter_laws(),
            xs.decrease() is Some,
            0 <= done <= all.len() <= usize::MAX,
            xs.remaining() == all.skip(done),
            dispatcher.workers() == workers,
            dispatcher.issued() == done,
            queues@.len() == workers,
            forall|w: int|
                0 <= w < workers ==> (#[trigger] queues@[w])@ == share(
                    tag(all.take(done), 0),
                    workers as nat,
                    w as nat,
                ),
        ensures
            done == all.len(),
            dispatcher.issued() == done,
            queues@.len() == workers,
            forall|w: int|
                0 <= w < workers ==> (#[trigger] queues@[w])@ == share(
                    tag(all.take(done), 0),
                    workers as nat,
                    w as nat,
                ),
        decreases xs.decrease()->0,
    {
        match xs.next() {
            Some(x) => {
                let ghost before = queues@;
                let ghost tagged = tag(all.take(done), 0);
                let (worker, item) = dispatcher.assign(x);
                queues[worker].push(item);
                proof {
                    assert(x == all[done]);
                    assert(tag(all.take(done + 1), 0) =~= tagged.push(item));
                    assert forall|w: int| 0 <= w < workers implies (#[trigger] queues@[w])@
                        == share(tag(all.take(done + 1), 0), workers as nat, w as nat) by {
                        lemma_share_push(tagged, item, workers as nat, w as nat);
                        assert(before[w]@ == share(tagged, workers as nat, w as nat));
                    }
                    assert(xs.remaining() =~= all.skip(done + 1));
                    done = done + 1;
                }
            },
            None => {
                break ;
            },
        }
    }
    proof {
        assert(all.take(all.len() as int) =~= all);
        assert(queued(queues@) =~= shares(tag(all, 0), workers as nat));
    }
    (queues, dispatcher.count())
}

/// Runs the workers of a pool one after the other, each on its queue from
/// front to back, and gathers the results in the order in which they are
/// made. `room` is the number of results to set room aside for.
pub fn work<X, Y, F: Fn(X) -> Y>(queues: Vec<Vec<Wrap<X>>>, f: &F, room: usize) -> (results: Vec<
    Wrap<Y>,
>)
    requires
        forall|j: int|
            0 <= j < in_turn(queued(queues@)).len() ==> f.requires(
                ((#[trigger] in_turn(queued(queues@))[j]).1,),
            ),
    ensures
        results@.len() == in_turn(queued(queues@)).len(),
        forall|j: int|
            0 <= j < results@.len() ==> {
                &&& (#[trigger] results@[j]).0 == in_turn(queued(queues@))[j].0
                &&& f.ensures((in_turn(queued(queues@))[j].1,), results@[j].1)
            },
{
    let mut results: Vec<Wrap<Y>> = Vec::with_capacity(room);
    let ghost all = queues@;
    let ghost qs = queued(all);
    for queue in outer: queues.into_iter()
        invariant
            outer.seq() == all,
            qs == queued(all),
            forall|j: int| 0 <= j < in_turn(qs).len() ==> f.requires(((#[trigger] in_turn(qs)[j]).1,)),
            in_turn(qs.take(outer.index())).len() <= in_turn(qs).len(),
            in_turn(qs.take(outer.index())) == in_turn(qs).take(
                in_turn(qs.take(outer.index())).len() as int,
            ),
            results@.len() == in_turn(qs.take(outer.index())).len(),
            forall|j: int|
                0 <= j < results@.len() ==> {
                    &&& (#[trigger] results@[j]).0 == in_turn(qs)[j].0
                    &&& f.ensures((in_turn(qs)[j].1,), results@[j].1)
                },
    {
        let ghost start = results@;
        let ghost q = queue@;
        let ghost at = outer.index();
        proof {
            assert(queue == all[at]);
            assert(qs.take(at + 1).drop_last() =~= qs.take(at));
            assert(qs.take(at + 1).last() == q);
            assert(in_turn(qs.take(at + 1)) == in_turn(qs.take(at)) + q);
            lemma_in_turn_prefix(qs, at + 1);
            assert forall|k: int| 0 <= k < q.len() implies q[k] == #[trigger] in_turn(qs)[start.len()
                + k] by {
                assert(in_turn(qs.take(at + 1))[start.len() + k] == q[k]);
            }
        }
        for item in inner: queue.into_iter()
            invariant
                inner.seq() == q,
                start.len() + q.len() <= in_turn(qs).len(),
                forall|k: int| 0 <= k < q.len() ==> q[k] == #[trigger] in_turn(qs)[start.len() + k],
                forall|j: int|
                    0 <= j < in_turn(qs).len() ==> f.requires(((#[trigger] in_turn(qs)[j]).1,)),
                results@.len() == start.len() + inner.index(),
                forall|j: int| 0 <= j < start.len() ==> #[trigger] results@[j] == start[j],
                forall|k: int|
                    0 <= k < inner.index() ==> {
                        &&& (#[trigger] results@[start.len() + k]).0 == q[k].0
                        &&& f.ensures((q[k].1,), results@[start.len() + k].1)
                    },
        {
            let ghost made = results@;
            proof {
                assert(item == in_turn(qs)[start.len() + inner.index()]);
            }
            let result = transform(f, item);
            results.push(result);
            proof {
                assert forall|k: int| 0 <= k < inner.index() + 1 implies {
                    &&& (#[trigger] results@[start.len() + k]).0 == q[k].0
                    &&& f.ensures((q[k].1,), results@[start.len() + k].1)
                } by {
                    if k < inner.index() {
                        assert(results@[start.len() + k] == made[start.len() + k]);
                    }
                }
            }
        }
        proof {
            assert forall|j: int| 0 <= j < results@.len() implies {
                &&& (#[trigger] results@[j]).0 == in_turn(qs)[j].0
                &&& f.ensures((in_turn(qs)[j].1,), results@[j].1)
            } by {
                if j < start.len() {
                    assert(results@[j] == start[j]);
                } else {
                    let k = j - start.len();
                    assert(results@[start.len() + k].0 == q[k].0);
                }
            }
        }
    }
    proof {
        assert(qs.take(qs.len() as int) =~= qs);
    }
    results
}

/// The first queues laid end to end are the front of all queues laid end to
/// end.
proof fn lemma_in_turn_prefix<X>(queues: Seq<Seq<Wrap<X>>>, upto: int)
    requires
        0 <= upto <= queues.len(),
    ensures
        in_turn(queues.take(upto)).len() <= in_turn(queues).len(),
        in_turn(queues.take(upto)) == in_turn(queues).take(in_turn(queues.take(upto)).len() as int),
    decreases queues.len() - upto,
{
    if upto == queues.len() {
        assert(queues.take(upto) =~= queues);
        assert(in_turn(queues).take(in_turn(queues).len() as int) =~= in_turn(queues));
    } else {
        lemma_in_turn_prefix(queues, upto + 1);
        let more = queues.take(upto + 1);
        assert(more.drop_last() =~= queues.take(upto));
        assert(in_turn(more) == in_turn(queues.take(upto)) + more.last());
        assert(in_turn(queues.take(upto)) =~= in_turn(queues).take(
            in_turn(queues.take(upto)).len() as int,
        ));
    }
}

} // verus!
