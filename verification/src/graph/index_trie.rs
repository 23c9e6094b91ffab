//! An indexable trie, suitable for use as a bijective map.
//!
//! The trie holds a set of distinct strings and numbers them densely in
//! ascending lexicographic byte order. It answers both directions, string
//! to rank and rank to string, by walking the size recorded at each branch.

use crate::bytes::string_from_utf8;
use vstd::prelude::*;
use vstd::utf8::{encode_utf8, valid_utf8};

pub mod eq;
mod insert;
pub mod iter;
mod lookup;
pub mod node;
pub mod order;
pub mod parts;
pub mod shape;

use insert::insert_list;
use lookup::{rank_in, select_in};
use node::{clone_list, lemma_list_keys_sorted};
use shape::lemma_same_list_shape;

pub use iter::IndexTrieIterator;
pub use node::{list_keys, list_wf, prepend_all, same_list_shape, same_shape, Node};
pub use order::{
    lemma_position_unique, lemma_rank_of, lemma_rank_of_inserted, lemma_rank_of_member,
    lemma_sorted_determined, rank_of, strictly_sorted,
};

verus! {

/// A value that an `IndexTrie` can be asked for: a string, for its rank, or
/// a rank, for its string.
pub trait Key: Sized {
    /// What the trie answers.
    type Value;

    /// Whether `value` is the answer of a trie with the strings `keys`.
    spec fn answers(self, keys: Seq<Seq<u8>>, value: Option<Self::Value>) -> bool;

    /// Returns the corresponding value from the given trie.
    fn get(self, trie: &IndexTrie) -> (value: Option<Self::Value>)
        requires
            trie.wf(),
        ensures
            self.answers(trie@, value),
    ;
}

impl Key for &str {
    type Value = usize;

    /// The rank of the string, if the trie holds it.
    open spec fn answers(self, keys: Seq<Seq<u8>>, value: Option<usize>) -> bool {
        match value {
            Some(rank) => rank < keys.len() && keys[rank as int] == encode_utf8(self@),
            None => !keys.contains(encode_utf8(self@)),
        }
    }

    fn get(self, trie: &IndexTrie) -> (value: Option<usize>) {
        rank_in(&trie.roots, self.as_bytes(), 0)
    }
}

impl Key for usize {
    type Value = String;

    /// The string of that rank, if the rank is below the number of strings.
    open spec fn answers(self, keys: Seq<Seq<u8>>, value: Option<String>) -> bool {
        match value {
            Some(text) => self < keys.len() && encode_utf8(text@) == keys[self as int],
            None => self >= keys.len(),
        }
    }

    fn get(self, trie: &IndexTrie) -> (value: Option<String>) {
        let mut res: Vec<u8> = Vec::new();
        if select_in(&trie.roots, self, &mut res) {
            proof {
                assert(res@ =~= trie@[self as int]);
            }
            string_from_utf8(res)
        } else {
            None
        }
    }
}

/// The rank that a trie gives for the string that it gives for a rank is
/// that rank.
pub proof fn lemma_rank_of_string_at_rank(
    trie: IndexTrie,
    rank: usize,
    text: String,
    key: &str,
    answer: Option<usize>,
)
    requires
        trie.wf(),
        rank.answers(trie@, Some(text)),
        key@ == text@,
        key.answers(trie@, answer),
    ensures
        answer == Some(rank),
{
    assert(trie@.contains(encode_utf8(key@)));
    lemma_position_unique(trie@, rank as int, answer->0 as int);
}

/// The string that a trie gives for the rank that it gives for a string is
/// that string.
pub proof fn lemma_string_at_rank_of_string(
    trie: IndexTrie,
    key: &str,
    rank: usize,
    answer: Option<String>,
)
    requires
        trie.wf(),
        key.answers(trie@, Some(rank)),
        rank.answers(trie@, answer),
    ensures
        answer is Some,
        answer->0@ == key@,
{
    vstd::utf8::encode_utf8_decode_utf8(key@);
    vstd::utf8::encode_utf8_decode_utf8(answer->0@);
}

/// A trie has a string for each rank below the number of its strings and
/// for no other, and a rank for each of its strings and for no other.
pub proof fn lemma_answers_total(trie: IndexTrie, rank: usize, key: &str)
    requires
        trie.wf(),
    ensures
        rank.answers(trie@, None) <==> rank >= trie@.len(),
        key.answers(trie@, None) <==> !trie@.contains(encode_utf8(key@)),
{
}

/// The ranks of a trie are dense and ascend with the strings: a trie that
/// holds just the strings of an ascending sequence without repetition gives,
/// for each rank below their number and for no other, the string at that
/// place of the sequence.
pub proof fn lemma_ranks_ascend(
    trie: IndexTrie,
    sorted: Seq<Seq<u8>>,
    rank: usize,
    answer: Option<String>,
)
    requires
        trie.wf(),
        strictly_sorted(sorted),
        forall|x: Seq<u8>| trie@.contains(x) <==> sorted.contains(x),
        rank.answers(trie@, answer),
    ensures
        trie@ == sorted,
        answer is Some <==> rank < sorted.len(),
        answer matches Some(text) ==> encode_utf8(text@) == sorted[rank as int],
{
    lemma_sorted_determined(trie@, sorted);
}

/// An indexable trie, suitable for use as a bijective map.
///
/// The trie can be queried with a string for the rank of that string among
/// the strings it holds, in ascending order, and with a rank for the string.
/// As the ranks are dense, adding a string raises the rank of every string
/// that comes after it.
#[derive(Debug, Default)]
pub struct IndexTrie {
    // The root has no prefix of its own, so the trie holds its children.
    pub(crate) roots: Vec<Node>,
    pub(crate) len: usize,
}

impl View for IndexTrie {
    type V = Seq<Seq<u8>>;

    /// The strings of the trie as byte strings, by rank.
    closed spec fn view(&self) -> Seq<Seq<u8>> {
        list_keys(self.roots@)
    }
}

impl Clone for IndexTrie {
    /// A trie with the same strings and the same tree.
    fn clone(&self) -> (copy: Self)
        ensures
            copy@ == self@,
            copy.wf() == self.wf(),
    {
        let roots = clone_list(&self.roots);
        proof {
            lemma_same_list_shape(self.roots@, roots@);
        }
        IndexTrie { roots, len: self.len }
    }
}

impl IndexTrie {
    /// The invariant of the tree below the root.
    pub closed spec fn shape_wf(&self) -> bool {
        list_wf(self.roots@) && self.len == list_keys(self.roots@).len()
    }

    /// The invariant of the trie: its tree is well formed, and its strings
    /// are distinct, in ascending order and valid UTF-8.
    pub open spec fn wf(&self) -> bool {
        &&& self.shape_wf()
        &&& strictly_sorted(self@)
        &&& forall|i: int| 0 <= i < self@.len() ==> vstd::utf8::valid_utf8(#[trigger] self@[i])
    }

    /// What the invariant and the view say of the tree below the root.
    pub(crate) proof fn lemma_roots(&self)
        ensures
            self@ == list_keys(self.roots@),
            self.wf() ==> list_wf(self.roots@) && self.len == self@.len(),
    {
    }

    /// Creates a new empty trie.
    pub fn new() -> (t: Self)
        ensures
            t.wf(),
            t@ == Seq::<Seq<u8>>::empty(),
    {
        IndexTrie { roots: Vec::new(), len: 0 }
    }

    /// Returns the number of strings contained.
    pub fn len(&self) -> (n: usize)
        requires
            self.wf(),
        ensures
            n == self@.len(),
    {
        self.len
    }

    /// Returns the corresponding value when given a string (`&str`) or a
    /// rank (`usize`): the rank of the string among the strings of the trie,
    /// or the string of that rank. Returns `None` if the string is not in
    /// the trie or if the rank is out of bounds.
    pub fn get<K: Key>(&self, k: K) -> (value: Option<K::Value>)
        requires
            self.wf(),
        ensures
            k.answers(self@, value),
    {
        k.get(self)
    }

    /// Inserts a string into the trie.
    ///
    /// Returns true if the string was added, and false if the string was
    /// already in the trie, which then stays as it was. An added string takes
    /// the rank that the ascending order gives it, and every string behind
    /// it moves up by one.
    pub fn insert(&mut self, k: &str) -> (added: bool)
        requires
            old(self).wf(),
            old(self)@.len() < usize::MAX,
        ensures
            final(self).wf(),
            added <==> !old(self)@.contains(encode_utf8(k@)),
            added ==> final(self)@ == old(self)@.insert(
                rank_of(old(self)@, encode_utf8(k@)),
                encode_utf8(k@),
            ),
            !added ==> final(self)@ == old(self)@,
            0 <= rank_of(old(self)@, encode_utf8(k@)) <= old(self)@.len(),
            forall|x: Seq<u8>|
                final(self)@.contains(x) <==> (old(self)@.contains(x) || x == encode_utf8(k@)),
    {
        let ghost before = self@;
        let ghost key = encode_utf8(k@);
        let (added, Ghost(p)) = insert_list(&mut self.roots, k.as_bytes());
        if added {
            self.len += 1;
        }
        proof {
            lemma_list_keys_sorted(self.roots@);
            vstd::utf8::encode_utf8_valid_utf8(k@);
            if added {
                lemma_rank_of_inserted(before, key, p);
                let after = self@;
                assert(after[p] == key);
                assert forall|i: int| 0 <= i < after.len() implies valid_utf8(
                    #[trigger] after[i],
                ) by {
                    if i < p {
                        assert(after[i] == before[i]);
                    } else if i > p {
                        assert(after[i] == before[i - 1]);
                    }
                }
                assert forall|x: Seq<u8>| after.contains(x) <==> (before.contains(x) || x
                    == key) by {
                    if after.contains(x) {
                        let i = choose|i: int| 0 <= i < after.len() && after[i] == x;
                        if i < p {
                            assert(before[i] == x);
                        } else if i > p {
                            assert(before[i - 1] == x);
                        }
                    }
                    if before.contains(x) {
                        let i = choose|i: int| 0 <= i < before.len() && before[i] == x;
                        if i < p {
                            assert(after[i] == x);
                        } else {
                            assert(after[i + 1] == x);
                        }
                    }
                }
            } else {
                let i = choose|i: int| 0 <= i < before.len() && before[i] == key;
                lemma_rank_of_member(before, i);
            }
        }
        added
    }

    /// Inserts each of the strings into the trie.
    pub fn extend(&mut self, items: &[String])
        requires
            old(self).wf(),
            old(self)@.len() + items@.len() <= usize::MAX,
        ensures
            final(self).wf(),
            forall|x: Seq<u8>|
                final(self)@.contains(x) <==> (old(self)@.contains(x) || exists|i: int|
                    0 <= i < items@.len() && x == encode_utf8(#[trigger] items@[i]@)),
    {
        let mut n: usize = 0;
        while n < items.len()
            invariant
                n <= items@.len(),
                self.wf(),
                self@.len() <= old(self)@.len() + n,
                old(self)@.len() + items@.len() <= usize::MAX,
                forall|x: Seq<u8>|
                    self@.contains(x) <==> (old(self)@.contains(x) || exists|i: int|
                        0 <= i < n && x == encode_utf8(#[trigger] items@[i]@)),
            decreases items@.len() - n,
        {
            let ghost prev = self@;
            self.insert(items[n].as_str());
            n += 1;
            proof {
                assert forall|x: Seq<u8>|
                    self@.contains(x) <==> (old(self)@.contains(x) || exists|i: int|
                        0 <= i < n && x == encode_utf8(#[trigger] items@[i]@)) by {
                    if x == encode_utf8(items@[n - 1]@) {
                    } else if prev.contains(x) && !old(self)@.contains(x) {
                        let i = choose|i: int| 0 <= i < n - 1 && x == encode_utf8(#[trigger] items@[i]@);
                        assert(0 <= i < n);
                    }
                }
            }
        }
    }

    /// The trie of the given strings.
    pub fn from_iter(items: &[String]) -> (t: Self)
        ensures
            t.wf(),
            forall|x: Seq<u8>|
                t@.contains(x) <==> exists|i: int|
                    0 <= i < items@.len() && x == encode_utf8(#[trigger] items@[i]@),
    {
        let mut t = IndexTrie::new();
        if items.len() > 0 {
            t.extend(items);
        }
        t
    }

    /// Returns an iterator over the strings of the trie, in ascending order.
    pub fn iter(&self) -> (it: IndexTrieIterator<'_>)
        requires
            self.wf(),
        ensures
            it.wf(),
            it.remaining() == self@,
    {
        IndexTrieIterator::start(self)
    }

    /// Returns whether the trie is empty.
    pub fn is_empty(&self) -> (b: bool)
        requires
            self.wf(),
        ensures
            b == (self@.len() == 0),
    {
        self.len == 0
    }
}

} // verus!
