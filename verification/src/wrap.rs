//! Tagged items: a payload with its sequence number.

use vstd::prelude::*;

verus! {

/// A payload together with the sequence number it was given on entry.
///
/// Field `0` is the sequence number, field `1` the payload. Sequence numbers
/// are handed out in input order, starting at zero and without gaps.
pub struct Wrap<A>(pub usize, pub A);

/// The items of `items`, each with its sequence number, numbered from `from`
/// in the order in which they stand.
pub open spec fn tag<A>(items: Seq<A>, from: nat) -> Seq<Wrap<A>> {
    Seq::new(items.len(), |i: int| Wrap((from + i) as usize, items[i]))
}

/// `w` is one of `items` under the sequence number it has when `items` are
/// numbered from `from`.
pub open spec fn is_tagged<A>(items: Seq<A>, from: nat, w: Wrap<A>) -> bool {
    from <= w.0 < from + items.len() && items[w.0 - from] == w.1
}

/// Numbering is one to one: among the tagged items each occurs once, and
/// nothing else occurs.
pub proof fn lemma_tag_count<A>(items: Seq<A>, from: nat, w: Wrap<A>)
    requires
        from + items.len() <= usize::MAX + 1,
    ensures
        tag(items, from).to_multiset().count(w) == if is_tagged(items, from, w) {
            1nat
        } else {
            0nat
        },
{
    let tagged = tag(items, from);
    assert(tagged.no_duplicates());
    tagged.lemma_multiset_has_no_duplicates();
    vstd::seq_lib::to_multiset_contains(tagged, w);
    if is_tagged(items, from, w) {
        assert(tagged[w.0 - from] == w);
    }
}

} // verus!
