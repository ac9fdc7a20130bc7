//! Facts about sequences that the other modules share.

use vstd::prelude::*;

verus! {

/// Filtering keeps exactly the elements that pass the test, and keeps them
/// free of duplicates.
pub proof fn lemma_filter_facts<A>(s: Seq<A>, p: spec_fn(A) -> bool)
    ensures
        forall|x: A| #[trigger] s.filter(p).contains(x) <==> s.contains(x) && p(x),
        s.no_duplicates() ==> s.filter(p).no_duplicates(),
    decreases s.len(),
{
    reveal(Seq::filter);
    if s.len() > 0 {
        broadcast use vstd::seq_lib::lemma_seq_contains_after_push;

        let rest = s.drop_last();
        let last = s.last();
        lemma_filter_facts(rest, p);
        assert(s =~= rest.push(last));
        assert forall|x: A| #[trigger] s.filter(p).contains(x) <==> s.contains(x) && p(x) by {
            assert(s.contains(x) <==> rest.contains(x) || x == last);
            assert(s.filter(p).contains(x) <==> rest.filter(p).contains(x) || (p(last) && x
                == last));
        }
        if s.no_duplicates() && p(last) {
            assert(!rest.contains(last)) by {
                if rest.contains(last) {
                    let k = rest.index_of(last);
                    assert(s[k] == s[s.len() - 1]);
                }
            }
            assert(!rest.filter(p).contains(last));
        }
    }
}

} // verus!
