//! Words and their signatures.

use vstd::prelude::*;
use vstd::std_specs::cmp::PartialEqSpecImpl;
use vstd::utf8::encode_utf8;

verus! {

/// Number of bytes in every word.
pub const WORD_LEN: usize = 5;

/// `s` never decreases from left to right.
pub open spec fn sorted_ascending(s: Seq<u8>) -> bool {
    forall|i: int, j: int| 0 <= i <= j < s.len() ==> s[i] <= s[j]
}

/// No element of `s` equals its left neighbour.
pub open spec fn no_adjacent_equal(s: Seq<u8>) -> bool {
    forall|i: int| 0 < i < s.len() ==> s[i - 1] != #[trigger] s[i]
}

/// Every element of `s` is smaller than all elements to its right.
pub open spec fn strictly_increasing(s: Seq<u8>) -> bool {
    forall|i: int, j: int| 0 <= i < j < s.len() ==> s[i] < s[j]
}

/// A signature: `WORD_LEN` bytes in ascending order, none of them repeated.
pub open spec fn is_signature(s: Seq<u8>) -> bool {
    &&& s.len() == WORD_LEN
    &&& sorted_ascending(s)
    &&& no_adjacent_equal(s)
}

/// Two byte sequences are disjoint when no byte occurs in both.
pub open spec fn disjoint(a: Seq<u8>, b: Seq<u8>) -> bool {
    forall|i: int, j: int| 0 <= i < a.len() && 0 <= j < b.len() ==> a[i] != b[j]
}

/// A sequence is strictly increasing exactly when it is sorted and no two
/// neighbours are equal.
pub proof fn lemma_strictly_increasing(s: Seq<u8>)
    ensures
        strictly_increasing(s) <==> sorted_ascending(s) && no_adjacent_equal(s),
{
}

/// A sequence that holds at least one byte is not disjoint from itself.
pub proof fn lemma_disjoint_irreflexive(s: Seq<u8>)
    requires
        s.len() > 0,
    ensures
        !disjoint(s, s),
{
    let first = s[0];
    assert(s[0] == first);
}

/// Disjointness does not depend on the order of its arguments.
pub proof fn lemma_disjoint_symmetric(a: Seq<u8>, b: Seq<u8>)
    ensures
        disjoint(a, b) == disjoint(b, a),
{
}

/// The order in which signatures hold their bytes.
pub open spec fn byte_leq() -> spec_fn(u8, u8) -> bool {
    |a: u8, b: u8| a <= b
}

/// The bytes of `bytes` in ascending order.
pub open spec fn ascending(bytes: Seq<u8>) -> Seq<u8> {
    bytes.sort_by(byte_leq())
}

/// A line is accepted as a word when its text takes `WORD_LEN` bytes and no
/// byte occurs twice in it.
pub open spec fn is_accepted(line: Seq<char>) -> bool {
    &&& encode_utf8(line).len() == WORD_LEN
    &&& encode_utf8(line).no_duplicates()
}

/// The signature of a line: the bytes of its text in ascending order.
pub open spec fn signature_of(line: Seq<char>) -> Seq<u8> {
    ascending(encode_utf8(line))
}

/// The number that stands for a signature where words are looked up: its
/// bytes as the digits of a number to the base 256.
pub open spec fn pack(s: Seq<u8>) -> int {
    s[0] + 0x100 * s[1] + 0x1_0000 * s[2] + 0x100_0000 * s[3] + 0x1_0000_0000 * s[4]
}

/// Sorting rearranges the bytes and puts them in ascending order; the result
/// is free of equal neighbours exactly when no byte occurred twice.
pub proof fn lemma_ascending(bytes: Seq<u8>)
    ensures
        sorted_ascending(ascending(bytes)),
        ascending(bytes).to_multiset() == bytes.to_multiset(),
        ascending(bytes).len() == bytes.len(),
        no_adjacent_equal(ascending(bytes)) <==> bytes.no_duplicates(),
{
    let sorted = ascending(bytes);
    bytes.lemma_sort_by_ensures(byte_leq());
    assert forall|i: int, j: int| 0 <= i <= j < sorted.len() implies sorted[i] <= sorted[j] by {
        if i < j {
            assert(byte_leq()(sorted[i], sorted[j]));
        }
    }
    vstd::seq_lib::to_multiset_len(sorted);
    vstd::seq_lib::to_multiset_len(bytes);
    lemma_strictly_increasing(sorted);
    if no_adjacent_equal(sorted) {
        sorted.lemma_multiset_has_no_duplicates();
        bytes.lemma_multiset_has_no_duplicates_conv();
    }
    if bytes.no_duplicates() {
        bytes.lemma_multiset_has_no_duplicates();
        sorted.lemma_multiset_has_no_duplicates_conv();
    }
}

/// A sorted rearrangement of `bytes` is `ascending(bytes)`.
pub proof fn lemma_ascending_unique(bytes: Seq<u8>, sorted: Seq<u8>)
    requires
        sorted_ascending(sorted),
        sorted.to_multiset() == bytes.to_multiset(),
    ensures
        sorted == ascending(bytes),
{
    bytes.lemma_sort_by_ensures(byte_leq());
    vstd::seq_lib::lemma_sorted_unique(sorted, ascending(bytes), byte_leq());
}

/// A number to the base 256 has one lowest digit and one rest.
proof fn lemma_lowest_digit(x: int, xs: int, y: int, ys: int)
    requires
        0 <= x < 0x100,
        0 <= y < 0x100,
        x + 0x100 * xs == y + 0x100 * ys,
    ensures
        x == y,
        xs == ys,
{
}

/// Two signatures that stand for the same number are equal.
pub proof fn lemma_pack_injective(a: Seq<u8>, b: Seq<u8>)
    requires
        a.len() == WORD_LEN,
        b.len() == WORD_LEN,
        pack(a) == pack(b),
    ensures
        a == b,
{
    let a3 = a[3] + 0x100 * a[4];
    let b3 = b[3] + 0x100 * b[4];
    let a2 = a[2] + 0x100 * a3;
    let b2 = b[2] + 0x100 * b3;
    let a1 = a[1] + 0x100 * a2;
    let b1 = b[1] + 0x100 * b2;
    lemma_lowest_digit(a[0] as int, a1, b[0] as int, b1);
    lemma_lowest_digit(a[1] as int, a2, b[1] as int, b2);
    lemma_lowest_digit(a[2] as int, a3, b[2] as int, b3);
    lemma_lowest_digit(a[3] as int, a[4] as int, b[3] as int, b[4] as int);
}

/// Returns `true` if no byte of the slice equals its left neighbour: in a
/// sorted slice, if no byte occurs twice.
pub fn all_characters_unique(word: &[u8]) -> (r: bool)
    ensures
        r == no_adjacent_equal(word@),
        sorted_ascending(word@) ==> r == word@.no_duplicates(),
{
    proof {
        lemma_strictly_increasing(word@);
    }
    let mut i: usize = 1;
    while i < word.len()
        invariant
            1 <= i,
            forall|k: int| 0 < k < i && k < word@.len() ==> word@[k - 1] != #[trigger] word@[k],
        decreases word.len() - i,
    {
        if word[i - 1] == word[i] {
            return false;
        }
        i += 1;
    }
    true
}

/// Returns the bytes of the slice in ascending order.
pub fn sort_bytes(bytes: &[u8]) -> (sorted: Vec<u8>)
    ensures
        sorted@ == ascending(bytes@),
{
    let mut sorted: Vec<u8> = Vec::new();
    let mut i: usize = 0;
    proof {
        assert(bytes@.take(0) =~= Seq::<u8>::empty());
    }
    while i < bytes.len()
        invariant
            i <= bytes.len(),
            sorted@.len() == i,
            sorted_ascending(sorted@),
            sorted@.to_multiset() == bytes@.take(i as int).to_multiset(),
        decreases bytes.len() - i,
    {
        let byte: u8 = bytes[i];
        let mut at: usize = 0;
        while at < sorted.len() && sorted[at] <= byte
            invariant
                at <= sorted.len(),
                forall|k: int| 0 <= k < at ==> sorted@[k] <= byte,
            decreases sorted.len() - at,
        {
            at += 1;
        }
        let ghost before = sorted@;
        sorted.insert(at, byte);
        proof {
            assert(bytes@.take(i + 1) =~= bytes@.take(i as int).push(byte));
            vstd::seq_lib::to_multiset_build(bytes@.take(i as int), byte);
            vstd::seq_lib::to_multiset_insert(before, at as int, byte);
        }
        i += 1;
    }
    proof {
        assert(bytes@.take(i as int) =~= bytes@);
        lemma_ascending_unique(bytes@, sorted@);
    }
    sorted
}

/// A word of the dictionary: its signature and the spelling it was read as.
pub struct Word {
    word: [u8; WORD_LEN],
    original_word: String,
}

impl Word {
    /// The bytes of the word in ascending order.
    pub closed spec fn signature(&self) -> Seq<u8> {
        self.word@
    }

    /// The spelling the word was first seen with.
    pub closed spec fn original(&self) -> Seq<char> {
        self.original_word@
    }

    /// The signature is sorted and free of repeated bytes. This holds of every
    /// word that a program holds.
    #[verifier::type_invariant]
    pub open spec fn wf(&self) -> bool {
        is_signature(self.signature())
    }

    /// Every signature holds `WORD_LEN` bytes.
    pub proof fn lemma_signature_len(self)
        ensures
            self.signature().len() == WORD_LEN,
    {
    }

    /// Makes a word from a signature and the spelling that produced it.
    pub fn new(word: [u8; WORD_LEN], original_word: String) -> (w: Self)
        requires
            is_signature(word@),
        ensures
            w.wf(),
            w.signature() == word@,
            w.original() == original_word@,
    {
        Word { word, original_word }
    }

    /// Reads a line as a word: `None` unless the line is accepted.
    pub fn from_line(line: &str) -> (r: Option<Self>)
        ensures
            r is Some <==> is_accepted(line@),
            r matches Some(w) ==> w.wf() && w.signature() == signature_of(line@) && w.original()
                == line@,
    {
        let text = line.as_bytes();
        if text.len() != WORD_LEN {
            return None;
        }
        let bytes = sort_bytes(text);
        proof {
            lemma_ascending(encode_utf8(line@));
        }
        if !all_characters_unique(bytes.as_slice()) {
            return None;
        }
        let word: [u8; WORD_LEN] = [bytes[0], bytes[1], bytes[2], bytes[3], bytes[4]];
        Some(Word::new(word, line.to_owned()))
    }

    /// The signature of the word.
    pub fn word(&self) -> (w: &[u8; WORD_LEN])
        ensures
            w@ == self.signature(),
    {
        &self.word
    }

    /// The spelling the word was first seen with.
    pub fn original_word(&self) -> (s: &String)
        ensures
            s@ == self.original(),
    {
        &self.original_word
    }

    /// The number under which the word is looked up: one for each signature.
    pub fn key(&self) -> (k: u64)
        ensures
            k == pack(self.signature()),
    {
        let w = &self.word;
        let low: u64 = (w[0] as u64) + 0x100 * (w[1] as u64) + 0x1_0000 * (w[2] as u64);
        low + 0x100_0000 * (w[3] as u64) + 0x1_0000_0000 * (w[4] as u64)
    }

    /// Returns `true` if the two words have no byte in common.
    pub fn is_disjoint_with(&self, other: &Self) -> (r: bool)
        ensures
            r == disjoint(self.signature(), other.signature()),
    {
        proof {
            use_type_invariant(self);
            use_type_invariant(other);
        }
        let mut a: usize = 0;
        let mut b: usize = 0;
        while a < WORD_LEN && b < WORD_LEN
            invariant
                a <= WORD_LEN,
                b <= WORD_LEN,
                self.wf(),
                other.wf(),
                forall|i: int, j: int|
                    0 <= i < a && 0 <= j < WORD_LEN ==> self.word@[i] != other.word@[j],
                forall|i: int, j: int|
                    0 <= i < WORD_LEN && 0 <= j < b ==> self.word@[i] != other.word@[j],
            decreases 2 * WORD_LEN - a - b,
        {
            if self.word[a] == other.word[b] {
                return false;
            } else if self.word[a] < other.word[b] {
                a += 1;
            } else {
                b += 1;
            }
        }
        true
    }
}

impl PartialEq for Word {
    /// Two words are equal when their signatures are: anagrams are one word.
    fn eq(&self, other: &Self) -> (r: bool) {
        proof {
            self.lemma_signature_len();
            other.lemma_signature_len();
            if pack(self.signature()) == pack(other.signature()) {
                lemma_pack_injective(self.signature(), other.signature());
            }
        }
        self.key() == other.key()
    }
}

impl Eq for Word {

}

impl PartialEqSpecImpl for Word {
    open spec fn obeys_eq_spec() -> bool {
        true
    }

    open spec fn eq_spec(&self, other: &Self) -> bool {
        self.signature() == other.signature()
    }
}

/// Every word of the list is well formed.
pub open spec fn all_wf(words: Seq<Word>) -> bool {
    forall|i: int| 0 <= i < words.len() ==> (#[trigger] words[i]).wf()
}

} // verus!
