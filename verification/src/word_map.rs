//! Postings and the word-keyed table that collects them during decoding.

use vstd::hash_map::StringHashMap;
use vstd::prelude::*;

verus! {

/// One occurrence record: a word occurs `frequency` times on the page whose
/// ordinal is `page`.
#[derive(Clone, Copy, Debug, PartialEq, Eq, Structural)]
pub struct Posting {
    pub page: u16,
    pub frequency: u16,
}

/// A word together with its postings, in the order they were read.
struct WordEntry {
    word: String,
    postings: Vec<Posting>,
}

/// A mapping from words to posting lists in which a later insertion replaces
/// an earlier one for the same word. Entries can also be walked in the order
/// in which their words first arrived.
pub struct WordMap {
    slots: StringHashMap<usize>,
    entries: Vec<WordEntry>,
}

impl View for WordMap {
    type V = Map<Seq<char>, Seq<Posting>>;

    closed spec fn view(&self) -> Map<Seq<char>, Seq<Posting>> {
        Map::new(
            |w: Seq<char>| self.slots@.contains_key(w),
            |w: Seq<char>| self.entries@[self.slots@[w] as int].postings@,
        )
    }
}

/// The word order that results when the words of `extra` arrive, one after
/// another, at a table that lists `base`: a word already listed keeps its
/// place, a new one goes to the end.
pub open spec fn keys_with(base: Seq<Seq<char>>, extra: Seq<Seq<char>>) -> Seq<Seq<char>>
    decreases extra.len(),
{
    if extra.len() == 0 {
        base
    } else {
        let before = keys_with(base, extra.drop_last());
        if before.contains(extra.last()) {
            before
        } else {
            before.push(extra.last())
        }
    }
}

impl WordMap {
    /// The slot table and the entry list describe the same words: each slot
    /// points at the entry of its word, and each entry has its slot.
    pub closed spec fn wf(&self) -> bool {
        &&& self.slots@.dom().finite()
        &&& self.slots@.dom().len() == self.entries@.len()
        &&& forall|w: Seq<char>| #[trigger]
            self.slots@.contains_key(w) ==> self.slots@[w] < self.entries@.len()
                && self.entries@[self.slots@[w] as int].word@ == w
        &&& forall|i: int|
            0 <= i < self.entries@.len() ==> self.slots@.contains_key(
                (#[trigger] self.entries@[i]).word@,
            ) && self.slots@[self.entries@[i].word@] == i
    }

    /// The words held, in the order in which each first arrived.
    pub closed spec fn keys(&self) -> Seq<Seq<char>> {
        Seq::new(self.entries@.len(), |i: int| self.entries@[i].word@)
    }

    /// The words of [`WordMap::keys`] are exactly the keys of the mapping,
    /// each listed once.
    pub proof fn lemma_keys(&self)
        requires
            self.wf(),
        ensures
            self.keys().no_duplicates(),
            self@.dom().finite(),
            self@.dom().len() == self.keys().len(),
            forall|w: Seq<char>| self@.contains_key(w) <==> self.keys().contains(w),
    {
        assert(self@.dom() =~= self.slots@.dom());
        assert forall|w: Seq<char>| self@.contains_key(w) implies self.keys().contains(w) by {
            assert(self.keys()[self.slots@[w] as int] == w);
        }
    }

    /// A table without words.
    pub fn new() -> (table: WordMap)
        ensures
            table.wf(),
            table@ == Map::<Seq<char>, Seq<Posting>>::empty(),
            table.keys() == Seq::<Seq<char>>::empty(),
    {
        let table = WordMap { slots: StringHashMap::new(), entries: Vec::new() };
        table
    }

    /// The number of distinct words held.
    pub fn len(&self) -> (count: usize)
        requires
            self.wf(),
        ensures
            count == self@.dom().len(),
            count == self.keys().len(),
    {
        proof {
            self.lemma_keys();
        }
        self.entries.len()
    }

    /// Records `postings` for `word`, replacing what the word had before.
    pub fn insert(&mut self, word: String, postings: Vec<Posting>)
        requires
            old(self).wf(),
        ensures
            final(self).wf(),
            final(self)@ == old(self)@.insert(word@, postings@),
            final(self).keys() == if old(self)@.contains_key(word@) {
                old(self).keys()
            } else {
                old(self).keys().push(word@)
            },
    {
        let found: Option<usize> = match self.slots.get(word.as_str()) {
            Some(slot) => Some(*slot),
            None => None,
        };
        match found {
            Some(slot) => {
                self.entries.set(slot, WordEntry { word, postings });
            },
            None => {
                let slot: usize = self.entries.len();
                self.slots.insert(word.clone(), slot);
                self.entries.push(WordEntry { word, postings });
            },
        }
    }

    /// The postings recorded for `word`, if it is held.
    pub fn get(&self, word: &str) -> (found: Option<&Vec<Posting>>)
        requires
            self.wf(),
        ensures
            match found {
                Some(postings) => self@.contains_key(word@) && postings@ == self@[word@],
                None => !self@.contains_key(word@),
            },
    {
        match self.slots.get(word) {
            Some(slot) => Some(&self.entries[*slot].postings),
            None => None,
        }
    }

    /// The word that arrived as the `i`-th distinct one.
    pub fn word(&self, i: usize) -> (word: &String)
        requires
            self.wf(),
            i < self.keys().len(),
        ensures
            word@ == self.keys()[i as int],
    {
        &self.entries[i].word
    }

    /// The postings of the word that arrived as the `i`-th distinct one.
    pub fn postings(&self, i: usize) -> (postings: &Vec<Posting>)
        requires
            self.wf(),
            i < self.keys().len(),
        ensures
            self@.contains_key(self.keys()[i as int]),
            postings@ == self@[self.keys()[i as int]],
    {
        &self.entries[i].postings
    }

    /// The entries whose words arrived among the first `count` distinct ones.
    spec fn first_entries(&self, count: int) -> Map<Seq<char>, Seq<Posting>> {
        Map::new(
            |w: Seq<char>| self.slots@.contains_key(w) && self.slots@[w] < count,
            |w: Seq<char>| self.entries@[self.slots@[w] as int].postings@,
        )
    }

    /// Copies every entry of `other` into `self`. On a word that both hold,
    /// the postings of `other` replace those of `self`.
    pub fn extend_from(&mut self, other: &WordMap)
        requires
            old(self).wf(),
            other.wf(),
        ensures
            final(self).wf(),
            final(self)@ == old(self)@.union_prefer_right(other@),
            final(self).keys() == keys_with(old(self).keys(), other.keys()),
    {
        let count: usize = other.len();
        let mut i: usize = 0;
        while i < count
            invariant
                i <= count,
                count == other.keys().len(),
                other.wf(),
                self.wf(),
                self@ == old(self)@.union_prefer_right(other.first_entries(i as int)),
                self.keys() == keys_with(old(self).keys(), other.keys().take(i as int)),
            decreases count - i,
        {
            let word = other.word(i).clone();
            let postings = other.postings(i).clone();
            proof {
                self.lemma_keys();
                assert(other.keys().take(i + 1).drop_last() =~= other.keys().take(i as int));
                assert(other.first_entries(i + 1) =~= other.first_entries(i as int).insert(
                    word@,
                    postings@,
                ));
            }
            self.insert(word, postings);
            i += 1;
        }
        assert(other.keys().take(count as int) =~= other.keys());
    }

    /// Forgets every word.
    pub fn clear(&mut self)
        ensures
            final(self).wf(),
            final(self)@ == Map::<Seq<char>, Seq<Posting>>::empty(),
            final(self).keys() == Seq::<Seq<char>>::empty(),
    {
        self.slots.clear();
        self.entries.clear();
    }
}

} // verus!
