//! The pooled map, and what holds of it: order and length are kept, two runs
//! agree, and the size of the pool does not show.

use vstd::prelude::*;
use vstd::multiset::Multiset;
use vstd::std_specs::iter::IteratorSpec;
use crate::output_stream::{lemma_drains_in_order, Held, OutputStream};
use crate::pool::{arrivals, deal, lemma_arrivals_follow, lemma_arrivals_whole, logical_cores, work};
use crate::wrap::{is_tagged, lemma_tag_count, tag, Wrap};

verus! {

/// `ys` holds, position by position, a result of `f` on the item of `xs` at
/// that position.
pub open spec fn maps<X, Y, F: Fn(X) -> Y>(f: F, xs: Seq<X>, ys: Seq<Y>) -> bool {
    &&& ys.len() == xs.len()
    &&& forall|i: int| 0 <= i < xs.len() ==> f.ensures((xs[i],), #[trigger] ys[i])
}

/// What a stream holds that nothing has been pulled from yet and whose
/// source will yield `upstream`.
pub open spec fn fresh<Y>(upstream: Seq<Wrap<Y>>) -> Held<Y> {
    Held { next_expected: 0, pending: Multiset::empty(), upstream }
}

/// Where the item with sequence number `seq` stands among `sent`.
spec fn place_of<X>(sent: Seq<Wrap<X>>, seq: int) -> int {
    choose|j: int| 0 <= j < sent.len() && sent[j].0 == seq
}

/// The payloads of `got` by the sequence number that stands at the same
/// place in `sent`.
spec fn by_number<X, Y>(sent: Seq<Wrap<X>>, got: Seq<Wrap<Y>>) -> Seq<Y> {
    Seq::new(sent.len(), |seq: int| got[place_of(sent, seq)].1)
}

/// Results keep the numbering of what was sent: if `sent` is `input` under
/// its sequence numbers in some order, and `got` has at each place a result
/// under the number that `sent` has there, then the results by number are as
/// many as `input`, and each result in `got` is the one filed under its
/// number.
proof fn lemma_results_numbered<X, Y>(input: Seq<X>, sent: Seq<Wrap<X>>, got: Seq<Wrap<Y>>)
    requires
        input.len() <= usize::MAX,
        sent.to_multiset() == tag(input, 0).to_multiset(),
        got.len() == sent.len(),
        forall|j: int| 0 <= j < got.len() ==> (#[trigger] got[j]).0 == sent[j].0,
    ensures
        by_number(sent, got).len() == input.len(),
        forall|j: int|
            0 <= j < got.len() ==> {
                &&& (#[trigger] got[j]).0 < input.len()
                &&& sent[j].1 == input[got[j].0 as int]
                &&& by_number(sent, got)[got[j].0 as int] == got[j].1
            },
        forall|i: int|
            0 <= i < input.len() ==> 0 <= #[trigger] place_of(sent, i) < sent.len() && sent[place_of(
                sent,
                i,
            )].0 == i,
{
    broadcast use vstd::multiset::group_multiset_axioms;

    let ys = by_number(sent, got);
    vstd::seq_lib::to_multiset_len(sent);
    vstd::seq_lib::to_multiset_len(tag(input, 0));
    assert forall|item: Wrap<X>| #[trigger]
        sent.to_multiset().contains(item) implies sent.to_multiset().count(item) == 1
        && is_tagged(input, 0, item) by {
        lemma_tag_count(input, 0, item);
    }
    sent.lemma_multiset_has_no_duplicates_conv();
    assert forall|j: int| 0 <= j < sent.len() implies is_tagged(input, 0, #[trigger] sent[j]) by {
        vstd::seq_lib::to_multiset_contains(sent, sent[j]);
        assert(sent.contains(sent[j]));
        assert(sent.to_multiset().contains(sent[j]));
    }
    assert forall|j: int| 0 <= j < sent.len() implies place_of(sent, #[trigger] sent[j].0 as int)
        == j by {
        let other = place_of(sent, sent[j].0 as int);
        assert(is_tagged(input, 0, sent[other]));
        assert(sent[other] == sent[j]);
    }
    assert forall|j: int| 0 <= j < got.len() implies {
        &&& (#[trigger] got[j]).0 < input.len()
        &&& sent[j].1 == input[got[j].0 as int]
        &&& ys[got[j].0 as int] == got[j].1
    } by {
        assert(is_tagged(input, 0, sent[j]));
        assert(place_of(sent, sent[j].0 as int) == j);
    }
    assert forall|i: int| 0 <= i < input.len() implies 0 <= #[trigger] place_of(sent, i)
        < sent.len() && sent[place_of(sent, i)].0 == i by {
        let whole = Wrap(i as usize, input[i]);
        lemma_tag_count(input, 0, whole);
        vstd::seq_lib::to_multiset_contains(sent, whole);
        assert(sent.contains(whole));
        let j = choose|j: int| 0 <= j < sent.len() && sent[j] == whole;
        assert(sent[j].0 == i);
    }
}

/// Maps `f` over `xs` through a pool of `pool_size` workers and hands the
/// results out in the order of `xs`.
///
/// The items are tagged in input order and dealt out to the workers in turn.
/// Each worker applies `f` to what it was handed, from front to back, and the
/// results are gathered as they are made, which is out of input order as
/// soon as the pool has two workers. The stream that is returned puts them
/// back in order as it is pulled. The workers run one after the other on the
/// calling thread.
///
/// The stream is fresh, and what it will take from its source is the
/// results in the order in which such a pool makes them; so it carries the
/// results in input order, whatever the size of the pool.
pub fn par_map_with<X, XI, Y, F>(xs: XI, f: F, pool_size: usize) -> (stream: OutputStream<
    Y,
    std::vec::IntoIter<Wrap<Y>>,
>) where XI: Iterator<Item = X>, F: Fn(X) -> Y
    requires
        pool_size >= 1,
        xs.obeys_prophetic_iter_laws(),
        xs.decrease() is Some,
        xs.remaining().len() <= usize::MAX,
        forall|i: int| 0 <= i < xs.remaining().len() ==> f.requires((#[trigger] xs.remaining()[i],)),
    ensures
        stream.source().obeys_prophetic_iter_laws(),
        stream.source().decrease() is Some,
        exists|ys: Seq<Y>|
            {
                &&& maps(f, xs.remaining(), ys)
                &&& stream.holding(stream.source().remaining()) == fresh(
                    #[trigger] arrivals(ys, pool_size as nat),
                )
                &&& fresh(arrivals(ys, pool_size as nat)).carries(ys)
            },
{
    let ghost input = xs.remaining();
    let ghost workers = pool_size as nat;
    let (queues, count) = deal(xs, pool_size);
    let ghost sent = arrivals(input, workers);
    proof {
        lemma_arrivals_whole(input, workers);
        assert forall|j: int| 0 <= j < sent.len() implies f.requires(((#[trigger] sent[j]).1,)) by {
            vstd::seq_lib::to_multiset_contains(sent, sent[j]);
            assert(sent.contains(sent[j]));
            lemma_tag_count(input, 0, sent[j]);
        }
    }
    let results = work(queues, &f, count);
    let ghost got = results@;
    let ghost ys = by_number(sent, got);
    proof {
        lemma_results_numbered(input, sent, got);
        assert forall|i: int| 0 <= i < input.len() implies f.ensures((input[i],), #[trigger] ys[i]) by {
            let j = place_of(sent, i);
            assert(got[j].0 == sent[j].0);
        }
        lemma_arrivals_follow(input, ys, workers, got);
        lemma_arrivals_whole(ys, workers);
    }
    let stream = OutputStream::new(results.into_iter(), count);
    proof {
        broadcast use vstd::multiset::group_multiset_axioms;

        assert(stream.source().remaining() == got);
        assert(fresh(got).all() =~= tag(ys, 0).to_multiset());
    }
    stream
}

/// Maps `f` over `xs` through a pool of one worker per logical core and
/// hands the results out in the order of `xs`.
///
/// This is [`par_map_with`] at the size that the machine suggests, a size of
/// at least one.
pub fn par_map<X, XI, Y, F>(xs: XI, f: F) -> (stream: OutputStream<Y, std::vec::IntoIter<Wrap<Y>>>) where
    XI: Iterator<Item = X>,
    F: Fn(X) -> Y,

    requires
        xs.obeys_prophetic_iter_laws(),
        xs.decrease() is Some,
        xs.remaining().len() <= usize::MAX,
        forall|i: int| 0 <= i < xs.remaining().len() ==> f.requires((#[trigger] xs.remaining()[i],)),
    ensures
        stream.source().obeys_prophetic_iter_laws(),
        stream.source().decrease() is Some,
        exists|ys: Seq<Y>, workers: nat|
            {
                &&& workers >= 1
                &&& maps(f, xs.remaining(), ys)
                &&& stream.holding(stream.source().remaining()) == fresh(
                    #[trigger] arrivals(ys, workers),
                )
                &&& fresh(arrivals(ys, workers)).carries(ys)
            },
{
    par_map_with(xs, f, logical_cores())
}

/// The pooled map as a method of whatever yields a sequence of items.
pub trait ParMap {
    /// Maps `f` over the items of `self` as [`par_map`] does.
    fn par_map<X, Y, F>(self, f: F) -> (stream: OutputStream<Y, std::vec::IntoIter<Wrap<Y>>>) where
        F: Fn(X) -> Y,
        Self: Sized + Iterator<Item = X>,

        requires
            self.obeys_prophetic_iter_laws(),
            self.decrease() is Some,
            self.remaining().len() <= usize::MAX,
            forall|i: int|
                0 <= i < self.remaining().len() ==> f.requires((#[trigger] self.remaining()[i],)),
        ensures
            stream.source().obeys_prophetic_iter_laws(),
            stream.source().decrease() is Some,
            exists|ys: Seq<Y>, workers: nat|
                {
                    &&& workers >= 1
                    &&& maps(f, self.remaining(), ys)
                    &&& stream.holding(stream.source().remaining()) == fresh(
                        #[trigger] arrivals(ys, workers),
                    )
                    &&& fresh(arrivals(ys, workers)).carries(ys)
                },
    {
        self::par_map(self, f)
    }
}

impl<X, T: Iterator<Item = X>> ParMap for T {

}

/// `f` has one result for each input that it has a result for.
pub open spec fn deterministic<X, Y, F: Fn(X) -> Y>(f: F) -> bool {
    forall|x: X, a: Y, b: Y|
        #![trigger f.ensures((x,), a), f.ensures((x,), b)]
        f.ensures((x,), a) && f.ensures((x,), b) ==> a == b
}

/// A pool of any size delivers: the stream over what arrives from it
/// carries the results in input order.
pub proof fn lemma_pool_carries<Y>(ys: Seq<Y>, workers: nat)
    requires
        workers >= 1,
        ys.len() <= usize::MAX + 1,
    ensures
        fresh(arrivals(ys, workers)).carries(ys),
{
    broadcast use vstd::multiset::group_multiset_axioms;

    lemma_arrivals_whole(ys, workers);
    assert(fresh(arrivals(ys, workers)).all() =~= tag(ys, 0).to_multiset());
}

/// Timing does not matter: when the workers of a pool run side by side, the
/// order in which their results arrive is for timing to decide. Whatever
/// that order, a fresh stream over them carries the results in input order.
pub proof fn lemma_any_order_carries<Y>(ys: Seq<Y>, workers: nat, arrived: Seq<Wrap<Y>>)
    requires
        workers >= 1,
        ys.len() <= usize::MAX + 1,
        arrived.to_multiset() == arrivals(ys, workers).to_multiset(),
    ensures
        fresh(arrived).carries(ys),
{
    broadcast use vstd::multiset::group_multiset_axioms;

    lemma_arrivals_whole(ys, workers);
    assert(fresh(arrived).all() =~= tag(ys, 0).to_multiset());
}

/// Order is kept: pulled until it hands out nothing, the stream over what
/// arrives from a pool hands out, position by position, a result of `f` on
/// the input at that position.
pub proof fn lemma_order_preserved<X, Y, F: Fn(X) -> Y>(
    f: F,
    xs: Seq<X>,
    ys: Seq<Y>,
    workers: nat,
    out: Seq<Y>,
)
    requires
        workers >= 1,
        xs.len() <= usize::MAX + 1,
        maps(f, xs, ys),
        fresh(arrivals(ys, workers)).drains(out),
    ensures
        out == ys,
        forall|i: int| 0 <= i < xs.len() ==> f.ensures((xs[i],), #[trigger] out[i]),
{
    lemma_pool_carries(ys, workers);
    lemma_drains_in_order(fresh(arrivals(ys, workers)), ys, out);
}

/// Length is kept: as many results are handed out as there are inputs, be
/// they none, one or many.
pub proof fn lemma_length_preserved<X, Y, F: Fn(X) -> Y>(
    f: F,
    xs: Seq<X>,
    ys: Seq<Y>,
    workers: nat,
    out: Seq<Y>,
)
    requires
        workers >= 1,
        xs.len() <= usize::MAX + 1,
        maps(f, xs, ys),
        fresh(arrivals(ys, workers)).drains(out),
    ensures
        out.len() == xs.len(),
{
    lemma_order_preserved(f, xs, ys, workers, out);
}

/// Two runs agree: with a transform that has one result for each input, two
/// streams that carry results for the same input hand out the same, in
/// whatever order the results arrive in either run.
pub proof fn lemma_runs_agree<X, Y, F: Fn(X) -> Y>(
    f: F,
    xs: Seq<X>,
    first: Held<Y>,
    first_ys: Seq<Y>,
    first_out: Seq<Y>,
    second: Held<Y>,
    second_ys: Seq<Y>,
    second_out: Seq<Y>,
)
    requires
        deterministic(f),
        maps(f, xs, first_ys),
        maps(f, xs, second_ys),
        first.carries(first_ys),
        second.carries(second_ys),
        first.drains(first_out),
        second.drains(second_out),
    ensures
        first_out == second_out,
{
    lemma_drains_in_order(first, first_ys, first_out);
    lemma_drains_in_order(second, second_ys, second_out);
    assert(first_ys =~= second_ys);
}

/// The size of the pool does not show: the streams over what arrives from
/// two pools of different sizes hand out the same.
pub proof fn lemma_pool_size_invariance<Y>(
    ys: Seq<Y>,
    workers: nat,
    out: Seq<Y>,
    other_workers: nat,
    other_out: Seq<Y>,
)
    requires
        workers >= 1,
        other_workers >= 1,
        ys.len() <= usize::MAX + 1,
        fresh(arrivals(ys, workers)).drains(out),
        fresh(arrivals(ys, other_workers)).drains(other_out),
    ensures
        out == other_out,
{
    lemma_pool_carries(ys, workers);
    lemma_pool_carries(ys, other_workers);
    lemma_drains_in_order(fresh(arrivals(ys, workers)), ys, out);
    lemma_drains_in_order(fresh(arrivals(ys, other_workers)), ys, other_out);
}

} // verus!
