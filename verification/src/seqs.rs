//! Facts about sequences.
use vstd::prelude::*;

verus! {

/// What a filter keeps satisfies the predicate, comes from the sequence in its order, and leaves
/// out nothing that satisfies it.
pub proof fn lemma_filter<A>(s: Seq<A>, pred: spec_fn(A) -> bool)
    ensures
        forall|j: int| 0 <= j < s.filter(pred).len() ==> pred(#[trigger] s.filter(pred)[j]),
        forall|j: int|
            0 <= j < s.filter(pred).len() ==> s.contains(#[trigger] s.filter(pred)[j]),
        forall|i: int|
            0 <= i < s.len() && pred(#[trigger] s[i]) ==> s.filter(pred).contains(s[i]),
        forall|j: int, k: int|
            #![trigger s.filter(pred)[j], s.filter(pred)[k]]
            0 <= j < k < s.filter(pred).len() ==> exists|a: int, b: int|
                #![trigger s[a], s[b]]
                0 <= a < b < s.len() && s[a] == s.filter(pred)[j] && s[b] == s.filter(pred)[k],
    decreases s.len(),
{
    reveal(Seq::filter);
    if s.len() > 0 {
        let init = s.drop_last();
        let f = init.filter(pred);
        let g = s.filter(pred);
        lemma_filter(init, pred);
        assert forall|j: int| 0 <= j < g.len() implies s.contains(#[trigger] g[j]) by {
            if j < f.len() {
                assert(init.contains(f[j]));
                let i = choose|i: int| 0 <= i < init.len() && init[i] == f[j];
                assert(s[i] == g[j]);
            } else {
                assert(s[s.len() - 1] == g[j]);
            }
        }
        assert forall|i: int| 0 <= i < s.len() && pred(#[trigger] s[i]) implies g.contains(
            s[i],
        ) by {
            if i < init.len() {
                assert(pred(init[i]));
                assert(f.contains(init[i]));
                let j = choose|j: int| 0 <= j < f.len() && f[j] == init[i];
                assert(g[j] == s[i]);
            } else {
                assert(g[g.len() - 1] == s[i]);
            }
        }
        assert forall|j: int, k: int|
            #![trigger g[j], g[k]]
            0 <= j < k < g.len() implies exists|a: int, b: int|
            #![trigger s[a], s[b]]
            0 <= a < b < s.len() && s[a] == g[j] && s[b] == g[k] by {
            if k < f.len() {
                assert(f[j] == g[j] && f[k] == g[k]);
                let (a, b) = choose|a: int, b: int|
                    #![trigger init[a], init[b]]
                    0 <= a < b < init.len() && init[a] == f[j] && init[b] == f[k];
                assert(s[a] == g[j] && s[b] == g[k]);
            } else {
                assert(f[j] == g[j]);
                assert(init.contains(f[j]));
                let a = choose|a: int| 0 <= a < init.len() && init[a] == f[j];
                assert(s[a] == g[j] && s[s.len() - 1] == g[k]);
            }
        }
    }
}

} // verus!
