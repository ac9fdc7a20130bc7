//! The backtracking search for combinations of pairwise disjoint words.

use crate::seq_facts::lemma_filter_facts;
use crate::word::{disjoint, lemma_disjoint_irreflexive, Word};
use rayon::iter::{IntoParallelIterator, ParallelIterator};
use vstd::prelude::*;

verus! {

/// Every index of `indices` points into a list of `len` words.
pub open spec fn in_bounds(indices: Seq<usize>, len: nat) -> bool {
    forall|k: int| 0 <= k < indices.len() ==> #[trigger] indices[k] < len
}

/// The words at positions `i` and `j` have no byte in common.
pub open spec fn disjoint_at(words: Seq<Word>, i: int, j: int) -> bool {
    disjoint(words[i].signature(), words[j].signature())
}

/// The test that keeps an index `j` eligible once the word at `last` is chosen.
pub open spec fn disjoint_from(words: Seq<Word>, last: usize) -> spec_fn(usize) -> bool {
    |j: usize| disjoint_at(words, last as int, j as int)
}

/// A combination of `n` words: `n >= 1` indices into `words`, strictly
/// increasing, whose words are pairwise disjoint.
pub open spec fn is_combination(words: Seq<Word>, n: nat, c: Seq<usize>) -> bool {
    &&& c.len() == n
    &&& n > 0
    &&& in_bounds(c, words.len())
    &&& forall|j: int, k: int| #![trigger c[j], c[k]] 0 <= j < k < n ==> c[j] < c[k]
    &&& forall|j: int, k: int|
        #![trigger c[j], c[k]]
        0 <= j < k < n ==> disjoint_at(words, c[j] as int, c[k] as int)
}

/// `c` completes the partial combination `state` to `n` indices: it starts
/// with `state`, every further index is taken from `valid`, and from the last
/// index of `state` onwards the indices increase strictly and their words are
/// pairwise disjoint.
pub open spec fn completes(
    words: Seq<Word>,
    n: nat,
    state: Seq<usize>,
    valid: Seq<usize>,
    c: Seq<usize>,
) -> bool {
    &&& c.len() == n
    &&& state.len() <= n
    &&& c.subrange(0, state.len() as int) == state
    &&& forall|k: int| state.len() <= k < n ==> valid.contains(#[trigger] c[k])
    &&& forall|j: int, k: int|
        #![trigger c[j], c[k]]
        0 <= j && state.len() - 1 <= j < k < n ==> c[j] < c[k]
    &&& forall|j: int, k: int|
        #![trigger c[j], c[k]]
        0 <= j && state.len() - 1 <= j < k < n ==> disjoint_at(words, c[j] as int, c[k] as int)
}

/// The indices `0, 1, .., len - 1` in order.
pub open spec fn index_range(len: nat) -> Seq<usize> {
    Seq::new(len, |k: int| k as usize)
}

/// The indices of `s` increase strictly from left to right.
pub open spec fn ascending(s: Seq<usize>) -> bool {
    forall|j: int, k: int| #![trigger s[j], s[k]] 0 <= j < k < s.len() ==> s[j] < s[k]
}

/// `a` comes before `b` in lexicographic order: up to some position the two
/// agree, and there `a` holds the smaller index.
pub open spec fn lex_less(a: Seq<usize>, b: Seq<usize>) -> bool {
    exists|k: int|
        0 <= k < a.len() && k < b.len() && a.subrange(0, k) == b.subrange(0, k) && #[trigger] a[k]
            < b[k]
}

/// Each sequence of `out` comes before all later ones in lexicographic order.
pub open spec fn lex_sorted(out: Seq<Seq<usize>>) -> bool {
    forall|i: int, j: int|
        #![trigger out[i], out[j]]
        0 <= i < j < out.len() ==> lex_less(out[i], out[j])
}

/// The index sequences held by a list of results, in order.
pub open spec fn combos(out: Seq<Vec<usize>>) -> Seq<Seq<usize>> {
    Seq::new(out.len(), |k: int| out[k]@)
}

/// The index sequences that `after` holds beyond the first `before.len()`.
pub open spec fn appended(before: Seq<Vec<usize>>, after: Seq<Vec<usize>>) -> Seq<Seq<usize>> {
    combos(after.skip(before.len() as int))
}

/// `out` holds, once each and in lexicographic order, exactly the
/// combinations of `n` words whose first index is `first`.
pub open spec fn is_partition(words: Seq<Word>, n: nat, first: int, out: Seq<Vec<usize>>) -> bool {
    &&& forall|c: Seq<usize>|
        #![trigger combos(out).contains(c)]
        #![trigger is_combination(words, n, c)]
        combos(out).contains(c) <==> is_combination(words, n, c) && c[0] == first
    &&& combos(out).no_duplicates()
    &&& lex_sorted(combos(out))
}

/// `out` holds, once each and in lexicographic order, exactly the
/// combinations of `n` words.
pub open spec fn is_search_result(words: Seq<Word>, n: nat, out: Seq<Vec<usize>>) -> bool {
    &&& forall|c: Seq<usize>|
        #![trigger combos(out).contains(c)]
        #![trigger is_combination(words, n, c)]
        combos(out).contains(c) <==> is_combination(words, n, c)
    &&& combos(out).no_duplicates()
    &&& lex_sorted(combos(out))
}

/// No two entries of `out` hold the same indices in any order.
pub open spec fn no_permutations(out: Seq<Vec<usize>>) -> bool {
    forall|i: int, j: int|
        #![trigger out[i], out[j]]
        0 <= i < j < out.len() ==> out[i]@.to_multiset() != out[j]@.to_multiset()
}

/// The lists of `partitions` one after another.
pub open spec fn merged(partitions: Seq<Vec<Vec<usize>>>) -> Seq<Vec<usize>> {
    partitions.map_values(|p: Vec<Vec<usize>>| p@).flatten()
}

/// Keeps the indices of `valid_indices` whose words are disjoint from the word
/// at `last_index`, in their order.
fn narrow(
    word_list: &Vec<Word>,
    last_index: usize,
    valid_indices: &Vec<usize>,
) -> (narrowed: Vec<usize>)
    requires
        last_index < word_list.len(),
        in_bounds(valid_indices@, word_list@.len()),
    ensures
        narrowed@ == valid_indices@.filter(disjoint_from(word_list@, last_index)),
{
    let ghost keep = disjoint_from(word_list@, last_index);
    let mut narrowed: Vec<usize> = Vec::new();
    let mut k: usize = 0;
    proof {
        reveal(Seq::filter);
    }
    while k < valid_indices.len()
        invariant
            k <= valid_indices.len(),
            last_index < word_list.len(),
            in_bounds(valid_indices@, word_list@.len()),
            keep == disjoint_from(word_list@, last_index),
            narrowed@ == valid_indices@.take(k as int).filter(keep),
        decreases valid_indices.len() - k,
    {
        let j: usize = valid_indices[k];
        proof {
            assert(valid_indices@.take(k + 1) =~= valid_indices@.take(k as int).push(j));
            valid_indices@.take(k as int).lemma_filter_push(j, keep);
        }
        if word_list[last_index].is_disjoint_with(&word_list[j]) {
            narrowed.push(j);
        }
        k += 1;
    }
    proof {
        assert(valid_indices@.take(k as int) =~= valid_indices@);
    }
    narrowed
}

/// `c` completes `state` through one of the first `upto` candidates of
/// `narrowed` that are not below the last index of `state`.
spec fn completes_via(
    words: Seq<Word>,
    n: nat,
    state: Seq<usize>,
    narrowed: Seq<usize>,
    upto: int,
    c: Seq<usize>,
) -> bool {
    exists|p: int|
        0 <= p < upto && narrowed[p] >= state.last() && #[trigger] completes(
            words,
            n,
            state.push(narrowed[p]),
            narrowed,
            c,
        )
}

/// A completion of `state` also completes `state` with its next index pushed,
/// over the candidates narrowed by the last word of `state`.
proof fn lemma_descend(
    words: Seq<Word>,
    n: nat,
    state: Seq<usize>,
    valid: Seq<usize>,
    c: Seq<usize>,
)
    requires
        state.len() > 0,
        state.len() != n,
        in_bounds(state, words.len()),
        in_bounds(valid, words.len()),
        completes(words, n, state, valid, c),
    ensures
        ({
            let x = c[state.len() as int];
            let narrowed = valid.filter(disjoint_from(words, state.last()));
            &&& narrowed.contains(x)
            &&& x > state.last()
            &&& completes(words, n, state.push(x), narrowed, c)
        }),
{
    let len = state.len() as int;
    lemma_filter_facts(valid, disjoint_from(words, state.last()));
    assert(c.subrange(0, len + 1) =~= state.push(c[len]));
}

/// A completion of `state` with a narrowed candidate `x` pushed, `x` not below
/// the last index of `state`, completes `state` itself.
proof fn lemma_ascend(
    words: Seq<Word>,
    n: nat,
    state: Seq<usize>,
    valid: Seq<usize>,
    x: usize,
    c: Seq<usize>,
)
    requires
        state.len() > 0,
        in_bounds(state, words.len()),
        in_bounds(valid, words.len()),
        valid.filter(disjoint_from(words, state.last())).contains(x),
        x >= state.last(),
        completes(words, n, state.push(x), valid.filter(disjoint_from(words, state.last())), c),
    ensures
        completes(words, n, state, valid, c),
        c[state.len() as int] == x,
{
    let len = state.len() as int;
    lemma_filter_facts(valid, disjoint_from(words, state.last()));
    lemma_candidate_above(words, state, valid, x);
    assert(c.subrange(0, len + 1)[len] == state.push(x)[len]);
    assert(c.subrange(0, len) =~= state);
}

/// A narrowed candidate that is not below the last index of `state` lies
/// strictly above it: no word is disjoint from itself.
proof fn lemma_candidate_above(words: Seq<Word>, state: Seq<usize>, valid: Seq<usize>, x: usize)
    requires
        state.len() > 0,
        in_bounds(state, words.len()),
        in_bounds(valid, words.len()),
        valid.filter(disjoint_from(words, state.last())).contains(x),
        x >= state.last(),
    ensures
        state.last() < x < words.len(),
        in_bounds(valid.filter(disjoint_from(words, state.last())), words.len()),
        in_bounds(state.push(x), words.len()),
{
    let last = state.last();
    let narrowed = valid.filter(disjoint_from(words, last));
    lemma_filter_facts(valid, disjoint_from(words, last));
    if x == last {
        words[last as int].lemma_signature_len();
        lemma_disjoint_irreflexive(words[last as int].signature());
    }
    assert forall|k: int| 0 <= k < narrowed.len() implies #[trigger] narrowed[k] < words.len() by {
        assert(narrowed.contains(narrowed[k]));
        assert(valid.contains(narrowed[k]));
    }
}

/// Filtering keeps ascending indices ascending.
proof fn lemma_filter_ascending(s: Seq<usize>, p: spec_fn(usize) -> bool)
    requires
        ascending(s),
    ensures
        ascending(s.filter(p)),
    decreases s.len(),
{
    reveal(Seq::filter);
    if s.len() > 0 {
        let rest = s.drop_last();
        let kept = rest.filter(p);
        lemma_filter_ascending(rest, p);
        lemma_filter_facts(rest, p);
        assert forall|i: int| 0 <= i < kept.len() implies kept[i] < s.last() by {
            assert(kept.contains(kept[i]));
            let k = rest.index_of(kept[i]);
            assert(s[k] < s[s.len() - 1]);
        }
    }
}

/// Two sorted lists, each entry of the first of which comes before each
/// entry of the second, make a sorted list when put one after the other.
proof fn lemma_lex_sorted_concat(a: Seq<Seq<usize>>, b: Seq<Seq<usize>>)
    requires
        lex_sorted(a),
        lex_sorted(b),
        forall|i: int, j: int|
            #![trigger a[i], b[j]]
            0 <= i < a.len() && 0 <= j < b.len() ==> lex_less(a[i], b[j]),
    ensures
        lex_sorted(a + b),
{
    assert forall|i: int, j: int|
        #![trigger (a + b)[i], (a + b)[j]]
        0 <= i < j < (a + b).len() implies lex_less((a + b)[i], (a + b)[j]) by {
        if j < a.len() {
            assert(lex_less(a[i], a[j]));
        } else if i < a.len() {
            assert(lex_less(a[i], b[j - a.len()]));
        } else {
            assert(lex_less(b[i - a.len()], b[j - a.len()]));
        }
    }
}

/// What `after` holds beyond `before` is what `mid` holds beyond `before`,
/// followed by what `after` holds beyond `mid`.
proof fn lemma_appended_split(
    before: Seq<Vec<usize>>,
    mid: Seq<Vec<usize>>,
    after: Seq<Vec<usize>>,
)
    requires
        before.len() <= mid.len() <= after.len(),
        after.subrange(0, mid.len() as int) == mid,
    ensures
        appended(before, after) == appended(before, mid) + appended(mid, after),
{
}

/// Appends to `partial` every completion of `state` to `sequence_length`
/// indices and returns the list.
///
/// Candidates come from `valid_indices`. They are first narrowed to the indices
/// whose words are disjoint from the last word of `state`; each narrowed
/// candidate that is not below the last index of `state` is then pushed in
/// turn and completed over the narrowed candidates. Candidates without
/// duplicates give each completion once, and ascending candidates give the
/// completions in lexicographic order.
pub fn get_disjoint_indices_partial(
    word_list: &Vec<Word>,
    sequence_length: usize,
    partial: Vec<Vec<usize>>,
    state: Vec<usize>,
    valid_indices: &Vec<usize>,
) -> (result: Vec<Vec<usize>>)
    requires
        state.len() > 0 || sequence_length == 0,
        in_bounds(state@, word_list@.len()),
        in_bounds(valid_indices@, word_list@.len()),
    ensures
        partial@.len() <= result@.len(),
        result@.subrange(0, partial@.len() as int) == partial@,
        forall|c: Seq<usize>|
            #![trigger appended(partial@, result@).contains(c)]
            #![trigger completes(word_list@, sequence_length as nat, state@, valid_indices@, c)]
            appended(partial@, result@).contains(c) <==> completes(
                word_list@,
                sequence_length as nat,
                state@,
                valid_indices@,
                c,
            ),
        valid_indices@.no_duplicates() ==> appended(partial@, result@).no_duplicates(),
        ascending(valid_indices@) ==> lex_sorted(appended(partial@, result@)),
    decreases
        (if state@.len() > 0 {
            word_list@.len() - state@.last()
        } else {
            0
        }),
{
    let ghost before = partial@;
    let ghost state0 = state@;
    let ghost words = word_list@;
    let ghost n = sequence_length as nat;
    let mut found = partial;
    let mut current = state;
    if current.len() == sequence_length {
        found.push(current);
        proof {
            assert(appended(before, found@) =~= seq![state0]);
            assert forall|c: Seq<usize>|
                #![trigger appended(before, found@).contains(c)]
                #![trigger completes(words, n, state0, valid_indices@, c)]
                appended(before, found@).contains(c) <==> completes(
                    words,
                    n,
                    state0,
                    valid_indices@,
                    c,
                ) by {
                assert(c.len() == n ==> c.subrange(0, n as int) =~= c);
                assert(seq![state0][0] == state0);
            }
        }
        return found;
    }
    let last_index: usize = current[current.len() - 1];
    let new_valid_indices = narrow(word_list, last_index, valid_indices);
    let ghost narrowed = new_valid_indices@;
    proof {
        lemma_filter_facts(valid_indices@, disjoint_from(words, last_index));
        if ascending(valid_indices@) {
            lemma_filter_ascending(valid_indices@, disjoint_from(words, last_index));
        }
    }
    let mut idx: usize = 0;
    while idx < new_valid_indices.len()
        invariant
            idx <= new_valid_indices.len(),
            words == word_list@,
            n == sequence_length as nat,
            current@ == state0,
            state@ == state0,
            state0.len() > 0,
            state0.len() != n,
            last_index == state0.last(),
            in_bounds(state0, words.len()),
            in_bounds(valid_indices@, words.len()),
            narrowed == new_valid_indices@,
            narrowed == valid_indices@.filter(disjoint_from(words, last_index)),
            valid_indices@.no_duplicates() ==> narrowed.no_duplicates(),
            ascending(valid_indices@) ==> ascending(narrowed),
            before.len() <= found@.len(),
            found@.subrange(0, before.len() as int) == before,
            forall|c: Seq<usize>|
                #![trigger appended(before, found@).contains(c)]
                #![trigger completes_via(words, n, state0, narrowed, idx as int, c)]
                appended(before, found@).contains(c) <==> completes_via(
                    words,
                    n,
                    state0,
                    narrowed,
                    idx as int,
                    c,
                ),
            narrowed.no_duplicates() ==> appended(before, found@).no_duplicates(),
            ascending(narrowed) ==> lex_sorted(appended(before, found@)),
        decreases new_valid_indices.len() - idx,
    {
        let next_index: usize = new_valid_indices[idx];
        let ghost mid = found@;
        if next_index >= last_index {
            proof {
                lemma_candidate_above(words, state0, valid_indices@, next_index);
            }
            current.push(next_index);
            let branch = current.clone();
            found = get_disjoint_indices_partial(
                word_list,
                sequence_length,
                found,
                branch,
                &new_valid_indices,
            );
            current.pop();
            proof {
                lemma_appended_split(before, mid, found@);
                let old_part = appended(before, mid);
                let new_part = appended(mid, found@);
                assert forall|c: Seq<usize>|
                    #![trigger appended(before, found@).contains(c)]
                    #![trigger completes_via(words, n, state0, narrowed, idx + 1, c)]
                    appended(before, found@).contains(c) <==> completes_via(
                        words,
                        n,
                        state0,
                        narrowed,
                        idx + 1,
                        c,
                    ) by {
                    vstd::seq_lib::lemma_seq_concat_contains_all_elements(old_part, new_part, c);
                    assert(old_part.contains(c) <==> completes_via(
                        words,
                        n,
                        state0,
                        narrowed,
                        idx as int,
                        c,
                    ));
                    assert(new_part.contains(c) <==> completes(
                        words,
                        n,
                        state0.push(narrowed[idx as int]),
                        narrowed,
                        c,
                    ));
                }
                // An earlier completion and a new one start with `state` and
                // go on with different candidates, the new one with a later.
                assert forall|i: int, j: int|
                    #![trigger old_part[i], new_part[j]]
                    0 <= i < old_part.len() && 0 <= j < new_part.len() implies {
                    &&& narrowed.no_duplicates() ==> old_part[i] != new_part[j]
                    &&& ascending(narrowed) ==> lex_less(old_part[i], new_part[j])
                } by {
                    let a = old_part[i];
                    let b = new_part[j];
                    assert(completes_via(words, n, state0, narrowed, idx as int, a));
                    let p = choose|p: int|
                        0 <= p < idx && narrowed[p] >= state0.last() && #[trigger] completes(
                            words,
                            n,
                            state0.push(narrowed[p]),
                            narrowed,
                            a,
                        );
                    lemma_ascend(words, n, state0, valid_indices@, narrowed[p], a);
                    lemma_ascend(words, n, state0, valid_indices@, next_index, b);
                    if ascending(narrowed) {
                        assert(a[state0.len() as int] < b[state0.len() as int]);
                    }
                }
                if narrowed.no_duplicates() {
                    vstd::seq_lib::lemma_no_dup_in_concat(old_part, new_part);
                }
                if ascending(narrowed) {
                    lemma_lex_sorted_concat(old_part, new_part);
                }
            }
        }
        idx += 1;
    }
    proof {
        assert forall|c: Seq<usize>|
            #![trigger appended(before, found@).contains(c)]
            #![trigger completes(words, n, state0, valid_indices@, c)]
            appended(before, found@).contains(c) <==> completes(
                words,
                n,
                state0,
                valid_indices@,
                c,
            ) by {
            if completes_via(words, n, state0, narrowed, idx as int, c) {
                let p = choose|p: int|
                    0 <= p < idx && narrowed[p] >= state0.last() && #[trigger] completes(
                        words,
                        n,
                        state0.push(narrowed[p]),
                        narrowed,
                        c,
                    );
                lemma_ascend(words, n, state0, valid_indices@, narrowed[p], c);
            }
            if completes(words, n, state0, valid_indices@, c) {
                lemma_descend(words, n, state0, valid_indices@, c);
                let p = narrowed.index_of(c[state0.len() as int]);
                assert(completes(words, n, state0.push(narrowed[p]), narrowed, c));
            }
        }
    }
    found
}

/// The completions of the one-index state `first` over all indices are the
/// combinations that start with `first`.
proof fn lemma_root(words: Seq<Word>, n: nat, first: usize, c: Seq<usize>)
    requires
        first < words.len(),
        words.len() <= usize::MAX,
    ensures
        completes(words, n, seq![first], index_range(words.len()), c) <==> is_combination(
            words,
            n,
            c,
        ) && c[0] == first,
{
    let all = index_range(words.len());
    if completes(words, n, seq![first], all, c) {
        assert(c.subrange(0, 1)[0] == seq![first][0]);
    }
    if is_combination(words, n, c) && c[0] == first {
        assert(c.subrange(0, 1) =~= seq![first]);
        assert forall|k: int| 1 <= k < n implies all.contains(#[trigger] c[k]) by {
            assert(all[c[k] as int] == c[k]);
        }
    }
}

/// The indices `0, 1, .., len - 1`.
fn all_indices(len: usize) -> (indices: Vec<usize>)
    ensures
        indices@ == index_range(len as nat),
{
    let mut indices: Vec<usize> = Vec::new();
    let mut k: usize = 0;
    while k < len
        invariant
            k <= len,
            indices@ == index_range(k as nat),
        decreases len - k,
    {
        indices.push(k);
        k += 1;
    }
    indices
}

/// Returns every combination of `sequence_length` words that starts with the
/// word at `first_index`: one partition of the search.
pub fn get_disjoint_indices_from(
    word_list: &Vec<Word>,
    sequence_length: usize,
    first_index: usize,
) -> (result: Vec<Vec<usize>>)
    requires
        first_index < word_list.len(),
    ensures
        is_partition(word_list@, sequence_length as nat, first_index as int, result@),
{
    let valid_indices = all_indices(word_list.len());
    let state: Vec<usize> = vec![first_index];
    let result = get_disjoint_indices_partial(
        word_list,
        sequence_length,
        Vec::new(),
        state,
        &valid_indices,
    );
    proof {
        let words = word_list@;
        let n = sequence_length as nat;
        assert(state@ =~= seq![first_index]);
        assert(result@.skip(0) =~= result@);
        assert forall|c: Seq<usize>|
            #![trigger combos(result@).contains(c)]
            #![trigger is_combination(words, n, c)]
            combos(result@).contains(c) <==> is_combination(words, n, c) && c[0]
                == first_index as int by {
            lemma_root(words, n, first_index, c);
        }
    }
    result
}

/// `out` holds, once each and in lexicographic order, exactly the
/// combinations of `n` words whose first index is below `k`.
spec fn is_search_below(words: Seq<Word>, n: nat, k: int, out: Seq<Vec<usize>>) -> bool {
    &&& forall|c: Seq<usize>|
        #![trigger combos(out).contains(c)]
        #![trigger is_combination(words, n, c)]
        combos(out).contains(c) <==> is_combination(words, n, c) && c[0] < k
    &&& combos(out).no_duplicates()
    &&& lex_sorted(combos(out))
}

/// Merging the first `k` partitions gives the combinations whose first index
/// is below `k`.
proof fn lemma_merged_below(words: Seq<Word>, n: nat, partitions: Seq<Vec<Vec<usize>>>, k: int)
    requires
        0 <= k <= partitions.len(),
        forall|i: int|
            0 <= i < partitions.len() ==> is_partition(words, n, i, #[trigger] partitions[i]@),
    ensures
        is_search_below(words, n, k, merged(partitions.take(k))),
    decreases k,
{
    let views = |p: Vec<Vec<usize>>| p@;
    if k > 0 {
        lemma_merged_below(words, n, partitions, k - 1);
        let head = merged(partitions.take(k - 1));
        let tail = partitions[k - 1]@;
        assert(partitions.take(k).map_values(views) =~= partitions.take(k - 1).map_values(
            views,
        ).push(tail));
        partitions.take(k - 1).map_values(views).lemma_flatten_push(tail);
        let out = merged(partitions.take(k));
        assert(combos(out) =~= combos(head) + combos(tail));
        assert forall|c: Seq<usize>|
            #![trigger combos(out).contains(c)]
            #![trigger is_combination(words, n, c)]
            combos(out).contains(c) <==> is_combination(words, n, c) && c[0] < k by {
            vstd::seq_lib::lemma_seq_concat_contains_all_elements(combos(head), combos(tail), c);
        }
        // What was merged before starts below `k - 1`, the new partition at it.
        assert forall|i: int, j: int|
            #![trigger combos(head)[i], combos(tail)[j]]
            0 <= i < combos(head).len() && 0 <= j < combos(tail).len() implies combos(head)[i]
            != combos(tail)[j] && lex_less(combos(head)[i], combos(tail)[j]) by {
            let a = combos(head)[i];
            let b = combos(tail)[j];
            assert(combos(head).contains(a));
            assert(combos(tail).contains(b));
            assert(a.subrange(0, 0) =~= b.subrange(0, 0));
            assert(a[0] < b[0]);
        }
        vstd::seq_lib::lemma_no_dup_in_concat(combos(head), combos(tail));
        lemma_lex_sorted_concat(combos(head), combos(tail));
    }
}

/// Merging one partition for each word of the list, in the order of the list,
/// gives the result of the whole search.
pub proof fn lemma_merged_partitions(
    words: Seq<Word>,
    n: nat,
    partitions: Seq<Vec<Vec<usize>>>,
)
    requires
        partitions.len() == words.len(),
        forall|i: int|
            0 <= i < partitions.len() ==> is_partition(words, n, i, #[trigger] partitions[i]@),
    ensures
        is_search_result(words, n, merged(partitions)),
{
    lemma_merged_below(words, n, partitions, partitions.len() as int);
    assert(partitions.take(partitions.len() as int) =~= partitions);
}

/// Two different entries of a search result never hold the same indices in
/// another order: each entry is strictly increasing.
pub proof fn lemma_no_permutations(words: Seq<Word>, n: nat, out: Seq<Vec<usize>>)
    requires
        is_search_result(words, n, out),
    ensures
        no_permutations(out),
{
    let leq = |a: usize, b: usize| a <= b;
    assert forall|i: int, j: int|
        #![trigger out[i], out[j]]
        0 <= i < j < out.len() implies out[i]@.to_multiset() != out[j]@.to_multiset() by {
        let a = combos(out)[i];
        let b = combos(out)[j];
        assert(combos(out).contains(a));
        assert(combos(out).contains(b));
        if a.to_multiset() == b.to_multiset() {
            vstd::seq_lib::lemma_sorted_unique(a, b, leq);
        }
    }
}

/// Concatenates the partitions in their order.
pub fn merge_partitions(partitions: Vec<Vec<Vec<usize>>>) -> (result: Vec<Vec<usize>>)
    ensures
        result@ == merged(partitions@),
{
    let ghost all = partitions@;
    let ghost views = |p: Vec<Vec<usize>>| p@;
    let mut result: Vec<Vec<usize>> = Vec::new();
    for part in it: partitions
        invariant
            it.seq() == all,
            views == |p: Vec<Vec<usize>>| p@,
            result@ == merged(all.take(it.index() as int)),
    {
        proof {
            let k = it.index() as int;
            assert(all.take(k + 1).map_values(views) =~= all.take(k).map_values(views).push(
                part@,
            ));
            all.take(k).map_values(views).lemma_flatten_push(part@);
        }
        let mut part = part;
        result.append(&mut part);
    }
    proof {
        assert(all.take(all.len() as int) =~= all);
    }
    result
}

/// Runs the partitions of the search one after another, in the order of the
/// list.
fn sequential_partitions(
    word_list: &Vec<Word>,
    sequence_length: usize,
) -> (partitions: Vec<Vec<Vec<usize>>>)
    ensures
        partitions@.len() == word_list@.len(),
        forall|i: int|
            0 <= i < partitions@.len() ==> is_partition(
                word_list@,
                sequence_length as nat,
                i,
                #[trigger] partitions@[i]@,
            ),
{
    let mut partitions: Vec<Vec<Vec<usize>>> = Vec::new();
    let mut i: usize = 0;
    while i < word_list.len()
        invariant
            i <= word_list.len(),
            partitions@.len() == i,
            forall|k: int|
                0 <= k < i ==> is_partition(
                    word_list@,
                    sequence_length as nat,
                    k,
                    #[trigger] partitions@[k]@,
                ),
        decreases word_list.len() - i,
    {
        partitions.push(get_disjoint_indices_from(word_list, sequence_length, i));
        i += 1;
    }
    partitions
}

/// Runs the partitions of the search on rayon's thread pool.
///
/// Calls `into_par_iter` on the range of indices, `map` with
/// `get_disjoint_indices_from`, and `collect` into a vector. The contract
/// claims of rayon that the collected vector has one entry for each index of
/// the range, in the order of the range, and that the entry at `i` is what the
/// mapped function returned for `i`.
#[verifier::external_body]
fn parallel_partitions(
    word_list: &Vec<Word>,
    sequence_length: usize,
) -> (partitions: Vec<Vec<Vec<usize>>>)
    ensures
        partitions@.len() == word_list@.len(),
        forall|i: int|
            0 <= i < partitions@.len() ==> is_partition(
                word_list@,
                sequence_length as nat,
                i,
                #[trigger] partitions@[i]@,
            ),
{
    (0..word_list.len())
        .into_par_iter()
        .map(|i| get_disjoint_indices_from(word_list, sequence_length, i))
        .collect()
}

/// Returns every combination of `sequence_length` pairwise disjoint words of
/// the list, each once, as strictly increasing indices. The combinations come
/// in lexicographic order. The partitions of the search run in parallel.
pub fn get_disjoint_indices(
    word_list: &Vec<Word>,
    sequence_length: usize,
) -> (result: Vec<Vec<usize>>)
    ensures
        is_search_result(word_list@, sequence_length as nat, result@),
        no_permutations(result@),
{
    let partitions = parallel_partitions(word_list, sequence_length);
    proof {
        lemma_merged_partitions(word_list@, sequence_length as nat, partitions@);
        lemma_no_permutations(word_list@, sequence_length as nat, merged(partitions@));
    }
    merge_partitions(partitions)
}

/// Returns what `get_disjoint_indices` returns, running the partitions of the
/// search one after another.
pub fn get_disjoint_indices_sequential(
    word_list: &Vec<Word>,
    sequence_length: usize,
) -> (result: Vec<Vec<usize>>)
    ensures
        is_search_result(word_list@, sequence_length as nat, result@),
        no_permutations(result@),
{
    let partitions = sequential_partitions(word_list, sequence_length);
    proof {
        lemma_merged_partitions(word_list@, sequence_length as nat, partitions@);
        lemma_no_permutations(word_list@, sequence_length as nat, merged(partitions@));
    }
    merge_partitions(partitions)
}

/// Of two sequences at most one comes before the other.
proof fn lemma_lex_less_asymmetric(a: Seq<usize>, b: Seq<usize>)
    requires
        lex_less(a, b),
    ensures
        !lex_less(b, a),
        a != b,
{
    let k = choose|k: int|
        0 <= k < a.len() && k < b.len() && a.subrange(0, k) == b.subrange(0, k) && #[trigger] a[k]
            < b[k];
    if lex_less(b, a) {
        let m = choose|m: int|
            0 <= m < b.len() && m < a.len() && b.subrange(0, m) == a.subrange(0, m)
                && #[trigger] b[m] < a[m];
        if k < m {
            assert(b.subrange(0, m)[k] == a.subrange(0, m)[k]);
        } else if m < k {
            assert(a.subrange(0, k)[m] == b.subrange(0, k)[m]);
        }
    }
}

/// Two sorted lists that hold the same sequences are the same list.
proof fn lemma_lex_sorted_unique(a: Seq<Seq<usize>>, b: Seq<Seq<usize>>)
    requires
        lex_sorted(a),
        lex_sorted(b),
        forall|c: Seq<usize>| a.contains(c) <==> b.contains(c),
    ensures
        a == b,
    decreases a.len(),
{
    if a.len() == 0 {
        if b.len() > 0 {
            assert(b.contains(b[0]));
        }
        assert(a =~= b);
    } else {
        // Each list starts with the least sequence of all.
        assert(a.contains(a[0]));
        let j = b.index_of(a[0]);
        assert(b.contains(b[0]));
        let i = a.index_of(b[0]);
        if j > 0 {
            lemma_lex_less_asymmetric(b[0], b[j]);
        }
        if i > 0 {
            lemma_lex_less_asymmetric(a[0], a[i]);
        }
        assert(a[0] == b[0]);
        let rest_a = a.drop_first();
        let rest_b = b.drop_first();
        assert forall|c: Seq<usize>| rest_a.contains(c) <==> rest_b.contains(c) by {
            if rest_a.contains(c) {
                let k = rest_a.index_of(c);
                assert(a[k + 1] == c);
                lemma_lex_less_asymmetric(a[0], a[k + 1]);
                assert(a.contains(c));
                let m = b.index_of(c);
                assert(rest_b[m - 1] == c);
            }
            if rest_b.contains(c) {
                let k = rest_b.index_of(c);
                assert(b[k + 1] == c);
                lemma_lex_less_asymmetric(b[0], b[k + 1]);
                assert(b.contains(c));
                let m = a.index_of(c);
                assert(rest_a[m - 1] == c);
            }
        }
        assert(lex_sorted(rest_a)) by {
            assert forall|x: int, y: int|
                #![trigger rest_a[x], rest_a[y]]
                0 <= x < y < rest_a.len() implies lex_less(rest_a[x], rest_a[y]) by {
                assert(lex_less(a[x + 1], a[y + 1]));
            }
        }
        assert(lex_sorted(rest_b)) by {
            assert forall|x: int, y: int|
                #![trigger rest_b[x], rest_b[y]]
                0 <= x < y < rest_b.len() implies lex_less(rest_b[x], rest_b[y]) by {
                assert(lex_less(b[x + 1], b[y + 1]));
            }
        }
        lemma_lex_sorted_unique(rest_a, rest_b);
        assert(a =~= seq![a[0]] + rest_a);
        assert(b =~= seq![b[0]] + rest_b);
    }
}

/// Two results of the search over the same list and length are the same list
/// of combinations: what `get_disjoint_indices` returns with its partitions
/// run in parallel is what `get_disjoint_indices_sequential` returns with them
/// run one after another.
pub proof fn lemma_search_results_agree(
    words: Seq<Word>,
    n: nat,
    first: Seq<Vec<usize>>,
    second: Seq<Vec<usize>>,
)
    requires
        is_search_result(words, n, first),
        is_search_result(words, n, second),
    ensures
        combos(first) == combos(second),
        combos(first).to_set() == combos(second).to_set(),
{
    lemma_lex_sorted_unique(combos(first), combos(second));
}

} // verus!
