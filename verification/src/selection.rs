//! Which elements of a sequence a `filter_map` picks, and in what order.

use vstd::prelude::*;

verus! {

/// Whether `picked` lists, in increasing order, the indices of the
/// elements of `s` that `f` maps to something, each of them once.
pub open spec fn picks<A, B>(picked: Seq<int>, s: Seq<A>, f: spec_fn(A) -> Option<B>) -> bool {
    &&& forall|k: int|
        0 <= k < picked.len() ==> 0 <= #[trigger] picked[k] < s.len() && f(s[picked[k]]) is Some
    &&& forall|j: int, k: int| 0 <= j < k < picked.len() ==> picked[j] < picked[k]
    &&& forall|i: int| 0 <= i < s.len() && f(s[i]) is Some ==> picked.contains(i)
}

/// What `f` makes of the elements of `s` at the indices `picked`, in the
/// order of `picked`.
pub open spec fn mapped_at<A, B>(picked: Seq<int>, s: Seq<A>, f: spec_fn(A) -> Option<B>) -> Seq<B> {
    Seq::new(picked.len(), |k: int| f(s[picked[k]]).unwrap())
}

/// `filter_map` keeps the order of the sequence, and neither drops nor
/// repeats an element that `f` maps to something: there are indices
/// `picked` of exactly those elements, in increasing order, such that the
/// result holds what `f` makes of them, one after the other.
pub proof fn lemma_filter_map_picks<A, B>(s: Seq<A>, f: spec_fn(A) -> Option<B>) -> (picked: Seq<
    int,
>)
    ensures
        picks(picked, s, f),
        s.filter_map(f) == mapped_at(picked, s, f),
    decreases s.len(),
{
    if s.len() == 0 {
        Seq::empty()
    } else {
        let rest = s.drop_last();
        let earlier = lemma_filter_map_picks(rest, f);
        let last = s.len() - 1;
        if f(s.last()) is Some {
            let picked = earlier.push(last);
            assert forall|i: int| 0 <= i < s.len() && f(s[i]) is Some implies picked.contains(
                i,
            ) by {
                if i < last {
                    assert(rest[i] == s[i]);
                    assert(earlier.contains(i));
                    let k = choose|k: int| 0 <= k < earlier.len() && earlier[k] == i;
                    assert(picked[k] == i);
                } else {
                    assert(picked[earlier.len() as int] == i);
                }
            }
            assert(s.filter_map(f) =~= mapped_at(picked, s, f));
            picked
        } else {
            assert forall|i: int| 0 <= i < s.len() && f(s[i]) is Some implies earlier.contains(
                i,
            ) by {
                assert(rest[i] == s[i]);
            }
            assert(s.filter_map(f) =~= mapped_at(earlier, s, f));
            earlier
        }
    }
}

/// A `filter_map` over a sequence with one more element at its end is the
/// `filter_map` over the sequence, followed by what `f` makes of the new
/// element, if anything.
pub proof fn lemma_filter_map_push<A, B>(s: Seq<A>, last: A, f: spec_fn(A) -> Option<B>)
    ensures
        s.push(last).filter_map(f) == (match f(last) {
            Some(b) => s.filter_map(f).push(b),
            None => s.filter_map(f),
        }),
{
    assert(s.push(last).drop_last() == s);
}

} // verus!
