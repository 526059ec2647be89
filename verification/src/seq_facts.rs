//! Facts about sequences that the proofs of this crate share.

use vstd::prelude::*;

verus! {

/// A filter keeps the members that pass its test, and nothing else.
pub proof fn lemma_filter_members<A>(s: Seq<A>, pred: spec_fn(A) -> bool)
    ensures
        forall|x: A| #[trigger] s.filter(pred).contains(x) <==> (s.contains(x) && pred(x)),
    decreases s.len(),
{
    reveal(Seq::filter);
    if s.len() > 0 {
        let front = s.drop_last();
        let last = s.last();
        let sub = front.filter(pred);
        lemma_filter_members(front, pred);
        assert forall|x: A| #[trigger] s.filter(pred).contains(x) <==> (s.contains(x) && pred(
            x,
        )) by {
            assert(s[s.len() - 1] == last);
            if s.contains(x) {
                let i = choose|i: int| 0 <= i < s.len() && s[i] == x;
                if i < s.len() - 1 {
                    assert(front[i] == x);
                }
            }
            if front.contains(x) {
                let i = choose|i: int| 0 <= i < front.len() && front[i] == x;
                assert(s[i] == x);
            }
            if pred(last) {
                let kept = sub.push(last);
                assert(kept[sub.len() as int] == last);
                if kept.contains(x) {
                    let j = choose|j: int| 0 <= j < kept.len() && kept[j] == x;
                    if j < sub.len() {
                        assert(sub[j] == x);
                    }
                }
                if sub.contains(x) {
                    let j = choose|j: int| 0 <= j < sub.len() && sub[j] == x;
                    assert(kept[j] == x);
                }
            }
        }
    }
}

/// The members of a flat map are the members of the images.
pub proof fn lemma_flat_map_members<A, B>(s: Seq<A>, f: spec_fn(A) -> Seq<B>)
    ensures
        forall|x: B| #[trigger]
            s.flat_map(f).contains(x) <==> exists|i: int|
                0 <= i < s.len() && f(#[trigger] s[i]).contains(x),
    decreases s.len(),
{
    if s.len() == 0 {
        assert(s.flat_map(f) =~= Seq::<B>::empty());
    } else {
        let front = s.drop_last();
        let last = s.last();
        lemma_flat_map_members(front, f);
        front.lemma_flat_map_push(f, last);
        assert(front.push(last) =~= s);
        let whole = s.flat_map(f);
        let before = front.flat_map(f);
        assert(whole =~= before + f(last));
        assert forall|x: B| #[trigger]
            whole.contains(x) <==> exists|i: int|
                0 <= i < s.len() && f(#[trigger] s[i]).contains(x) by {
            if whole.contains(x) {
                let j = choose|j: int| 0 <= j < whole.len() && whole[j] == x;
                if j < before.len() {
                    assert(before[j] == x);
                    assert(before.contains(x));
                    let i = choose|i: int| 0 <= i < front.len() && f(#[trigger] front[i]).contains(
                        x,
                    );
                    assert(f(s[i]).contains(x));
                } else {
                    assert(f(last)[j - before.len()] == x);
                    assert(f(s[s.len() - 1]).contains(x));
                }
            }
            if exists|i: int| 0 <= i < s.len() && f(#[trigger] s[i]).contains(x) {
                let i = choose|i: int| 0 <= i < s.len() && f(#[trigger] s[i]).contains(x);
                if i < front.len() {
                    assert(f(front[i]).contains(x));
                    assert(before.contains(x));
                    let j = choose|j: int| 0 <= j < before.len() && before[j] == x;
                    assert(whole[j] == x);
                } else {
                    let image = f(last);
                    let j = choose|j: int| 0 <= j < image.len() && image[j] == x;
                    assert(whole[before.len() + j] == x);
                }
            }
        }
    }
}

} // verus!
