//! The set of words read so far, in which anagrams count as one word.

use crate::seq_facts::lemma_filter_facts;
use crate::word::{all_wf, is_accepted, lemma_pack_injective, pack, signature_of, Word};
use std::collections::HashMap;
use vstd::prelude::*;

verus! {

broadcast use vstd::std_specs::hash::group_hash_axioms;

/// No two words of the list have the same signature.
pub open spec fn distinct_signatures(words: Seq<Word>) -> bool {
    forall|i: int, j: int|
        #![trigger words[i], words[j]]
        0 <= i < j < words.len() ==> words[i].signature() != words[j].signature()
}

/// A word list: well-formed words, no two of them anagrams of each other.
pub open spec fn is_word_list(words: Seq<Word>) -> bool {
    &&& all_wf(words)
    &&& distinct_signatures(words)
}

/// Some word of the list has the signature `signature`.
pub open spec fn has_signature(words: Seq<Word>, signature: Seq<u8>) -> bool {
    exists|i: int| 0 <= i < words.len() && (#[trigger] words[i]).signature() == signature
}

/// The text of each line.
pub open spec fn texts(lines: Seq<String>) -> Seq<Seq<char>> {
    Seq::new(lines.len(), |i: int| lines[i]@)
}

/// Line `k` is accepted, and no accepted line before it has its signature.
pub open spec fn is_first_occurrence(lines: Seq<Seq<char>>, k: int) -> bool {
    &&& 0 <= k < lines.len()
    &&& is_accepted(lines[k])
    &&& forall|e: int|
        0 <= e < k && is_accepted(#[trigger] lines[e]) ==> signature_of(lines[e]) != signature_of(
            lines[k],
        )
}

/// The positions `0, 1, .., n - 1` in order.
pub open spec fn positions(n: nat) -> Seq<int> {
    Seq::new(n, |k: int| k)
}

/// The positions of the first occurrences among the first `n` lines, in
/// ascending order.
pub open spec fn first_occurrences(lines: Seq<Seq<char>>, n: nat) -> Seq<int> {
    positions(n).filter(|k: int| is_first_occurrence(lines, k))
}

/// `words` holds one word for each first occurrence among the first `n`
/// lines, in the order of the lines, with the spelling of that line.
pub open spec fn lists_first_occurrences(words: Seq<Word>, lines: Seq<Seq<char>>, n: nat) -> bool {
    let kept = first_occurrences(lines, n);
    &&& words.len() == kept.len()
    &&& forall|j: int|
        0 <= j < words.len() ==> (#[trigger] words[j]).original() == lines[kept[j]]
            && words[j].signature() == signature_of(lines[kept[j]])
}

/// What became of a line that was offered to a set of words.
#[derive(Clone, Copy, Debug, PartialEq, Eq, Structural)]
pub enum LineOutcome {
    /// The line is no word: wrong length, or a byte occurs twice.
    Skipped,
    /// An anagram of the line is in the set already, at this position.
    Anagram(usize),
    /// The line was added as a new word.
    Added,
}

/// A set of words keyed by signature. It keeps the words in the order in
/// which they were added, and of several anagrams the one added first.
pub struct WordSet {
    words: Vec<Word>,
    index: HashMap<u64, usize>,
}

impl View for WordSet {
    type V = Seq<Word>;

    closed spec fn view(&self) -> Seq<Word> {
        self.words@
    }
}

impl WordSet {
    /// The lookup table maps the number of each word's signature to the
    /// position of the word, and holds nothing else.
    pub closed spec fn indexed(&self) -> bool {
        &&& forall|i: int|
            0 <= i < self.words@.len() ==> {
                let k = pack((#[trigger] self.words@[i]).signature()) as u64;
                self.index@.contains_key(k) && self.index@[k] == i
            }
        &&& forall|k: u64| #[trigger]
            self.index@.contains_key(k) ==> self.index@[k] < self.words@.len() && pack(
                self.words@[self.index@[k] as int].signature(),
            ) == k
    }

    /// The words form a word list, and the lookup table agrees with them.
    /// This holds of every set that a program holds.
    #[verifier::type_invariant]
    pub open spec fn wf(&self) -> bool {
        &&& is_word_list(self@)
        &&& self.indexed()
    }

    /// Makes an empty set.
    pub fn new() -> (set: Self)
        ensures
            set@.len() == 0,
    {
        WordSet { words: Vec::new(), index: HashMap::new() }
    }

    /// The number of words in the set.
    pub fn len(&self) -> (n: usize)
        ensures
            n == self@.len(),
    {
        self.words.len()
    }

    /// The word at position `i`.
    pub fn word(&self, i: usize) -> (w: &Word)
        requires
            i < self@.len(),
        ensures
            *w == self@[i as int],
    {
        &self.words[i]
    }

    /// Looks for the word of the set that has the signature of `word`, and
    /// returns its position.
    pub fn position(&self, word: &Word) -> (r: Option<usize>)
        ensures
            r is Some <==> has_signature(self@, word.signature()),
            r matches Some(i) ==> i < self@.len() && self@[i as int].signature()
                == word.signature(),
    {
        proof {
            use_type_invariant(self);
        }
        let key = word.key();
        match self.index.get(&key) {
            Some(i) => {
                proof {
                    word.lemma_signature_len();
                    lemma_pack_injective(self.words@[*i as int].signature(), word.signature());
                }
                Some(*i)
            },
            None => None,
        }
    }

    /// Adds `word` unless the set holds an anagram of it, and returns whether
    /// it was added. A set that holds an anagram stays as it is.
    pub fn insert(&mut self, word: Word) -> (added: bool)
        ensures
            added == !has_signature(old(self)@, word.signature()),
            added ==> final(self)@ == old(self)@.push(word),
            !added ==> final(self)@ == old(self)@,
    {
        proof {
            use_type_invariant(&*self);
            use_type_invariant(&word);
        }
        let key = word.key();
        if self.index.contains_key(&key) {
            proof {
                let i = self.index@[key] as int;
                lemma_pack_injective(self.words@[i].signature(), word.signature());
            }
            return false;
        }
        // The list and the lookup table change together: the set is taken
        // apart and put together again with the word in both.
        let mut taken = WordSet::new();
        std::mem::swap(self, &mut taken);
        proof {
            use_type_invariant(&taken);
        }
        let WordSet { mut words, mut index } = taken;
        let at = words.len();
        let ghost before = words@;
        words.push(word);
        index.insert(key, at);
        proof {
            assert forall|i: int| 0 <= i < words@.len() implies {
                let k = pack((#[trigger] words@[i]).signature()) as u64;
                index@.contains_key(k) && index@[k] == i
            } by {
                if i < at {
                    assert(words@[i] == before[i]);
                }
            }
        }
        *self = WordSet { words, index };
        true
    }

    /// Reads `line` as a word and adds it unless the set holds an anagram of
    /// it. Of two lines with the same signature the one offered first stays.
    pub fn offer(&mut self, line: &str) -> (outcome: LineOutcome)
        ensures
            match outcome {
                LineOutcome::Skipped => !is_accepted(line@) && final(self)@ == old(self)@,
                LineOutcome::Anagram(i) => {
                    &&& is_accepted(line@)
                    &&& i < old(self)@.len()
                    &&& old(self)@[i as int].signature() == signature_of(line@)
                    &&& final(self)@ == old(self)@
                },
                LineOutcome::Added => {
                    &&& is_accepted(line@)
                    &&& !has_signature(old(self)@, signature_of(line@))
                    &&& final(self)@.len() == old(self)@.len() + 1
                    &&& final(self)@.drop_last() == old(self)@
                    &&& final(self)@.last().signature() == signature_of(line@)
                    &&& final(self)@.last().original() == line@
                },
            },
    {
        match Word::from_line(line) {
            None => LineOutcome::Skipped,
            Some(word) => match self.position(&word) {
                Some(i) => LineOutcome::Anagram(i),
                None => {
                    self.insert(word);
                    LineOutcome::Added
                },
            },
        }
    }

    /// Hands out the words, in the order in which they were added.
    pub fn into_words(self) -> (words: Vec<Word>)
        ensures
            words@ == self@,
            is_word_list(words@),
    {
        proof {
            use_type_invariant(&self);
        }
        self.words
    }
}

/// An accepted line has a first occurrence of its signature at or before it.
proof fn lemma_earliest(lines: Seq<Seq<char>>, e: int) -> (f: int)
    requires
        0 <= e < lines.len(),
        is_accepted(lines[e]),
    ensures
        0 <= f <= e,
        is_first_occurrence(lines, f),
        signature_of(lines[f]) == signature_of(lines[e]),
    decreases e,
{
    if is_first_occurrence(lines, e) {
        e
    } else {
        let d = choose|d: int|
            0 <= d < e && is_accepted(#[trigger] lines[d]) && signature_of(lines[d])
                == signature_of(lines[e]);
        lemma_earliest(lines, d)
    }
}

/// Of the accepted lines that share a signature, a word list made from the
/// lines holds exactly one word, and it has the spelling of the earliest of
/// them. Returns the position `j` of that word and the position `e` of that
/// line.
pub proof fn lemma_first_seen_wins(
    words: Seq<Word>,
    lines: Seq<Seq<char>>,
    a: int,
    b: int,
) -> (r: (int, int))
    requires
        lists_first_occurrences(words, lines, lines.len()),
        0 <= a < lines.len(),
        0 <= b < lines.len(),
        is_accepted(lines[a]),
        is_accepted(lines[b]),
        signature_of(lines[a]) == signature_of(lines[b]),
    ensures
        ({
            let (j, e) = r;
            &&& 0 <= j < words.len()
            &&& 0 <= e <= a && e <= b
            &&& is_first_occurrence(lines, e)
            &&& signature_of(lines[e]) == signature_of(lines[a])
            &&& words[j].signature() == signature_of(lines[a])
            &&& words[j].original() == lines[e]
            &&& forall|i: int|
                0 <= i < words.len() && i != j ==> (#[trigger] words[i]).signature()
                    != signature_of(lines[a])
        }),
{
    let first = |k: int| is_first_occurrence(lines, k);
    let kept = first_occurrences(lines, lines.len());
    lemma_filter_facts(positions(lines.len()), first);
    let e = lemma_earliest(lines, a);
    assert(positions(lines.len())[e] == e);
    assert(kept.contains(e));
    let j = choose|j: int| 0 <= j < kept.len() && kept[j] == e;
    (j, e)
}

/// Reads the lines in order and returns the word list: one word for each
/// accepted line whose signature no earlier accepted line has, in the order
/// of the lines and with the spelling of that line.
pub fn get_words(lines: &Vec<String>) -> (word_list: Vec<Word>)
    ensures
        is_word_list(word_list@),
        lists_first_occurrences(word_list@, texts(lines@), lines@.len()),
{
    let ghost all = texts(lines@);
    let ghost first = |k: int| is_first_occurrence(all, k);
    let mut word_set = WordSet::new();
    proof {
        reveal(Seq::filter);
    }
    let mut i: usize = 0;
    while i < lines.len()
        invariant
            i <= lines.len(),
            all == texts(lines@),
            first == |k: int| is_first_occurrence(all, k),
            lists_first_occurrences(word_set@, all, i as nat),
        decreases lines.len() - i,
    {
        let ghost before = word_set@;
        let ghost kept = first_occurrences(all, i as nat);
        let outcome = word_set.offer(lines[i].as_str());
        proof {
            let at = i as int;
            assert(positions((i + 1) as nat) =~= positions(i as nat).push(at));
            positions(i as nat).lemma_filter_push(at, first);
            lemma_filter_facts(positions(i as nat), first);
            match outcome {
                LineOutcome::Skipped => {},
                LineOutcome::Anagram(j) => {
                    let e = kept[j as int];
                    assert(kept.contains(e));
                },
                LineOutcome::Added => {
                    if !is_first_occurrence(all, at) {
                        let d = choose|d: int|
                            0 <= d < at && is_accepted(#[trigger] all[d]) && signature_of(all[d])
                                == signature_of(all[at]);
                        let f = lemma_earliest(all, d);
                        assert(positions(i as nat)[f] == f);
                        assert(kept.contains(f));
                        let j = choose|j: int| 0 <= j < kept.len() && kept[j] == f;
                        assert(before[j].signature() == signature_of(all[at]));
                    }
                    assert forall|j: int| 0 <= j < word_set@.len() implies (
                    #[trigger] word_set@[j]).original() == all[kept.push(at)[j]]
                        && word_set@[j].signature() == signature_of(all[kept.push(at)[j]]) by {
                        if j < before.len() {
                            assert(word_set@[j] == word_set@.drop_last()[j]);
                        }
                    }
                },
            }
        }
        i += 1;
    }
    word_set.into_words()
}

} // verus!
