//! The decoded index: a table of page names and, for every word, the page
//! ordinals it occurs on and how often it occurs on each.

use crate::buffer::{be_u32, Buffer};
use crate::cluster_fsm::{initial_state, outcome, ClusterFSM};
use crate::codec::{base64_decoding, decode_base64, gzip_inflation};
use crate::envelope::{
    envelope_payload, is_name_span, lemma_unterminated_name_table, magic, name_table,
    read_compressed_stream, read_envelope, read_section_names, texts, NAMES_END, NAMES_START,
};
use crate::error::IndexError;
use crate::word_map::{Posting, WordMap};
use std::collections::HashMap;
use vstd::hash_map::StringHashMap;
use vstd::prelude::*;
use vstd::utf8::valid_utf8;

verus! {

broadcast use vstd::std_specs::hash::group_hash_axioms;

/// The page ordinals of a posting list, in order and with repetitions.
pub open spec fn ordinals_of(postings: Seq<Posting>) -> Seq<u16> {
    Seq::new(postings.len(), |i: int| postings[i].page)
}

/// The frequency that a posting list records for each page ordinal. Where an
/// ordinal occurs more than once, the last posting counts.
pub open spec fn frequency_table(postings: Seq<Posting>) -> Map<u16, u16>
    decreases postings.len(),
{
    if postings.len() == 0 {
        Map::empty()
    } else {
        frequency_table(postings.drop_last()).insert(
            postings.last().page,
            postings.last().frequency,
        )
    }
}

/// The frequency table of a posting list covers exactly the ordinals that
/// the list holds.
pub proof fn lemma_frequency_table_domain(postings: Seq<Posting>, ordinal: u16)
    ensures
        frequency_table(postings).contains_key(ordinal) <==> ordinals_of(postings).contains(
            ordinal,
        ),
    decreases postings.len(),
{
    if postings.len() > 0 {
        let shorter = postings.drop_last();
        lemma_frequency_table_domain(shorter, ordinal);
        if ordinals_of(shorter).contains(ordinal) {
            let k = choose|k: int|
                0 <= k < ordinals_of(shorter).len() && ordinals_of(shorter)[k] == ordinal;
            assert(ordinals_of(postings)[k] == ordinal);
        }
        if postings.last().page == ordinal {
            assert(ordinals_of(postings)[postings.len() - 1] == ordinal);
        }
        if ordinals_of(postings).contains(ordinal) {
            let k = choose|k: int|
                0 <= k < ordinals_of(postings).len() && ordinals_of(postings)[k] == ordinal;
            if k < shorter.len() {
                assert(ordinals_of(shorter)[k] == ordinal);
            }
        }
    }
}

/// The frequency table gives an ordinal the frequency of the last posting
/// that names it.
pub proof fn lemma_frequency_table_last_wins(postings: Seq<Posting>, i: int)
    requires
        0 <= i < postings.len(),
        forall|j: int| i < j < postings.len() ==> postings[j].page != postings[i].page,
    ensures
        frequency_table(postings).contains_key(postings[i].page),
        frequency_table(postings)[postings[i].page] == postings[i].frequency,
    decreases postings.len(),
{
    let shorter = postings.drop_last();
    if i < shorter.len() {
        assert forall|j: int| i < j < shorter.len() implies shorter[j].page
            != shorter[i].page by {
            assert(shorter[j] == postings[j]);
        }
        lemma_frequency_table_last_wins(shorter, i);
    }
}

/// What an index is, mathematically.
pub struct IndexView {
    /// The page identifiers; a page's ordinal is its position here.
    pub pages: Seq<Seq<char>>,
    /// For each word, the ordinals of its postings, in order.
    pub ordinals: Map<Seq<char>, Seq<u16>>,
    /// For each word, its frequency on each page that it has a posting for.
    pub frequencies: Map<Seq<char>, Map<u16, u16>>,
}

/// The index over the given pages and posting lists. Ordinals are taken as
/// they are: none is checked against the number of pages.
pub open spec fn index_of(pages: Seq<Seq<char>>, words: Map<Seq<char>, Seq<Posting>>) -> IndexView {
    IndexView {
        pages: pages,
        ordinals: Map::new(
            |w: Seq<char>| words.contains_key(w),
            |w: Seq<char>| ordinals_of(words[w]),
        ),
        frequencies: Map::new(
            |w: Seq<char>| words.contains_key(w),
            |w: Seq<char>| frequency_table(words[w]),
        ),
    }
}

/// In an index built from posting lists, a word has a frequency for exactly
/// the pages that it lists.
pub proof fn lemma_index_is_coherent(
    pages: Seq<Seq<char>>,
    words: Map<Seq<char>, Seq<Posting>>,
    word: Seq<char>,
    ordinal: u16,
)
    requires
        words.contains_key(word),
    ensures
        index_of(pages, words).frequencies[word].contains_key(ordinal) <==> index_of(
            pages,
            words,
        ).ordinals[word].contains(ordinal),
{
    lemma_frequency_table_domain(words[word], ordinal);
}

/// The index that a decompressed payload describes: the page-name table,
/// then the cluster stream decoded from a fresh machine.
pub open spec fn payload_index(data: Seq<u8>) -> Result<IndexView, IndexError> {
    let table = name_table(data);
    match table.error {
        Some(e) => Err(e),
        None => {
            let run = outcome(initial_state(), data.skip(table.consumed as int));
            if run.rejected {
                Err(IndexError::InvalidEncoding)
            } else {
                Ok(index_of(table.names, run.state.merged))
            }
        },
    }
}

/// The index that an envelope describes.
pub open spec fn envelope_index(raw: Seq<u8>) -> Result<IndexView, IndexError> {
    match envelope_payload(raw) {
        Err(e) => Err(e),
        Ok(compressed) => match gzip_inflation(compressed) {
            None => Err(IndexError::DecompressionFailure),
            Some(data) => payload_index(data),
        },
    }
}

/// The index that an encoded text describes.
pub open spec fn decoded_index(input: Seq<char>) -> Result<IndexView, IndexError> {
    match base64_decoding(input) {
        None => Err(IndexError::InvalidInputEncoding),
        Some(raw) => envelope_index(raw),
    }
}

/// An envelope shorter than the magic prefix, or one that begins otherwise,
/// is refused as badly formatted, whatever follows.
pub proof fn lemma_bad_header_is_invalid_format(raw: Seq<u8>)
    requires
        raw.len() < 5 || raw.take(5) != magic(),
    ensures
        envelope_index(raw) == Err::<IndexView, IndexError>(IndexError::InvalidFormat),
        forall|input: Seq<char>|
            base64_decoding(input) == Some(raw) ==> #[trigger] decoded_index(input) == Err::<
                IndexView,
                IndexError,
            >(IndexError::InvalidFormat),
{
}

/// An envelope that declares more payload bytes than follow its length
/// field is refused for ending too soon.
pub proof fn lemma_overlong_payload_is_unexpected_end(raw: Seq<u8>)
    requires
        raw.len() >= 9,
        raw.take(5) == magic(),
        be_u32(raw[5], raw[6], raw[7], raw[8]) > raw.len() - 9,
    ensures
        envelope_index(raw) == Err::<IndexView, IndexError>(IndexError::UnexpectedEnd),
        forall|input: Seq<char>|
            base64_decoding(input) == Some(raw) ==> #[trigger] decoded_index(input) == Err::<
                IndexView,
                IndexError,
            >(IndexError::UnexpectedEnd),
{
}

/// A payload whose name table lacks its end marker is refused: for ending
/// too soon where every name in it is text.
pub proof fn lemma_unterminated_names_are_refused(data: Seq<u8>)
    requires
        data.len() > 0,
        data[0] == NAMES_START,
        forall|k: int| 1 <= k < data.len() ==> data[k] != NAMES_END,
    ensures
        payload_index(data) == Err::<IndexView, IndexError>(IndexError::UnexpectedEnd)
            || payload_index(data) == Err::<IndexView, IndexError>(
            IndexError::InvalidEncoding,
        ),
        (forall|i: int, j: int|
            is_name_span(data.drop_first(), i, j) ==> valid_utf8(
                data.drop_first().subrange(i, j),
            )) ==> payload_index(data) == Err::<IndexView, IndexError>(
            IndexError::UnexpectedEnd,
        ),
{
    lemma_unterminated_name_table(data);
}

/// Behind a sound name table every byte sequence is a cluster stream that
/// either decodes or is refused for a word that is not text.
pub proof fn lemma_cluster_stream_decodes_or_is_invalid_encoding(data: Seq<u8>)
    requires
        name_table(data).error is None,
    ensures
        payload_index(data) is Ok || payload_index(data) == Err::<IndexView, IndexError>(
            IndexError::InvalidEncoding,
        ),
{
}

/// An immutable full-text index.
pub struct FTS {
    clusters: StringHashMap<Vec<u16>>,
    frequencies: StringHashMap<HashMap<u16, u16>>,
    pages: Vec<String>,
}

impl View for FTS {
    type V = IndexView;

    closed spec fn view(&self) -> IndexView {
        IndexView {
            pages: texts(self.pages@),
            ordinals: Map::new(
                |w: Seq<char>| self.clusters@.contains_key(w),
                |w: Seq<char>| self.clusters@[w]@,
            ),
            frequencies: Map::new(
                |w: Seq<char>| self.frequencies@.contains_key(w),
                |w: Seq<char>| self.frequencies@[w]@,
            ),
        }
    }
}

/// Collects the page ordinals of a posting list.
fn page_ordinals(postings: &Vec<Posting>) -> (ordinals: Vec<u16>)
    ensures
        ordinals@ == ordinals_of(postings@),
{
    let mut ordinals: Vec<u16> = Vec::with_capacity(postings.len());
    let mut i: usize = 0;
    while i < postings.len()
        invariant
            i <= postings.len(),
            ordinals@ == ordinals_of(postings@.take(i as int)),
        decreases postings.len() - i,
    {
        ordinals.push(postings[i].page);
        i += 1;
    }
    ordinals
}

/// Tabulates the frequencies of a posting list by page ordinal.
fn page_frequencies(postings: &Vec<Posting>) -> (table: HashMap<u16, u16>)
    ensures
        table@ == frequency_table(postings@),
{
    let mut table: HashMap<u16, u16> = HashMap::new();
    let mut i: usize = 0;
    while i < postings.len()
        invariant
            i <= postings.len(),
            table@ == frequency_table(postings@.take(i as int)),
        decreases postings.len() - i,
    {
        table.insert(postings[i].page, postings[i].frequency);
        assert(postings@.take(i + 1).drop_last() =~= postings@.take(i as int));
        i += 1;
    }
    assert(postings@.take(postings.len() as int) =~= postings@);
    table
}

impl FTS {
    /// Builds the index over `pages` from the posting lists in `words`.
    pub fn from_parts(pages: Vec<String>, words: &WordMap) -> (fts: FTS)
        requires
            words.wf(),
        ensures
            fts@ == index_of(texts(pages@), words@),
    {
        let mut clusters: StringHashMap<Vec<u16>> = StringHashMap::new();
        let mut frequencies: StringHashMap<HashMap<u16, u16>> = StringHashMap::new();
        let count: usize = words.len();
        let mut i: usize = 0;
        while i < count
            invariant
                i <= count,
                count == words.keys().len(),
                words.wf(),
                forall|w: Seq<char>|
                    clusters@.contains_key(w) <==> words.keys().take(i as int).contains(w),
                forall|w: Seq<char>|
                    frequencies@.contains_key(w) <==> words.keys().take(i as int).contains(w),
                forall|w: Seq<char>| #[trigger]
                    clusters@.contains_key(w) ==> clusters@[w]@ == ordinals_of(words@[w]),
                forall|w: Seq<char>| #[trigger]
                    frequencies@.contains_key(w) ==> frequencies@[w]@ == frequency_table(
                        words@[w],
                    ),
            decreases count - i,
        {
            let word = words.word(i);
            let postings = words.postings(i);
            let ordinals = page_ordinals(postings);
            let table = page_frequencies(postings);
            proof {
                let listed = words.keys().take(i as int);
                let next = words.keys().take(i + 1);
                assert forall|w: Seq<char>| next.contains(w) <==> (listed.contains(w) || w
                    == word@) by {
                    if listed.contains(w) {
                        let j = choose|j: int| 0 <= j < listed.len() && listed[j] == w;
                        assert(next[j] == w);
                    }
                    assert(next[i as int] == word@);
                }
            }
            clusters.insert(word.clone(), ordinals);
            frequencies.insert(word.clone(), table);
            i += 1;
        }
        let fts = FTS { clusters, frequencies, pages };
        proof {
            words.lemma_keys();
            assert(words.keys().take(count as int) =~= words.keys());
            assert(fts@.ordinals =~= index_of(texts(pages@), words@).ordinals);
            assert(fts@.frequencies =~= index_of(texts(pages@), words@).frequencies);
        }
        fts
    }

    /// The number of pages in the page table.
    pub fn page_count(&self) -> (count: usize)
        ensures
            count == self@.pages.len(),
    {
        self.pages.len()
    }

    /// The identifier of the page with the given ordinal, if the page table
    /// reaches that far.
    pub fn page_id(&self, ordinal: usize) -> (id: Option<&String>)
        ensures
            match id {
                Some(name) => ordinal < self@.pages.len() && name@ == self@.pages[ordinal as int],
                None => ordinal >= self@.pages.len(),
            },
    {
        if ordinal < self.pages.len() {
            Some(&self.pages[ordinal])
        } else {
            None
        }
    }

    /// The page ordinals listed for `word`, if the index holds the word.
    pub fn word_pages(&self, word: &str) -> (pages: Option<&Vec<u16>>)
        ensures
            match pages {
                Some(list) => self@.ordinals.contains_key(word@) && list@
                    == self@.ordinals[word@],
                None => !self@.ordinals.contains_key(word@),
            },
    {
        self.clusters.get(word)
    }

    /// How often `word` occurs on the page with the given ordinal, if the
    /// index has a posting for the two.
    pub fn word_frequency(&self, word: &str, ordinal: u16) -> (frequency: Option<u16>)
        ensures
            frequency == if self@.frequencies.contains_key(word@)
                && self@.frequencies[word@].contains_key(ordinal) {
                Some(self@.frequencies[word@][ordinal])
            } else {
                None
            },
    {
        match self.frequencies.get(word) {
            Some(table) => match table.get(&ordinal) {
                Some(frequency) => Some(*frequency),
                None => None,
            },
            None => None,
        }
    }

    /// Decodes a decompressed payload: the page-name table, then the cluster
    /// stream. Bytes of a cluster cut short by the end of the payload are
    /// read and left out.
    pub fn from_payload(data: Vec<u8>) -> (result: Result<FTS, IndexError>)
        ensures
            match result {
                Ok(fts) => payload_index(data@) == Ok::<IndexView, IndexError>(fts@),
                Err(e) => payload_index(data@) == Err::<IndexView, IndexError>(e),
            },
    {
        let mut buffer = Buffer::from_vec(data);
        assert(buffer@.unread() =~= data@);
        let pages = match read_section_names(&mut buffer) {
            Ok(pages) => pages,
            Err(e) => {
                return Err(e);
            },
        };
        let mut fsm = ClusterFSM::new();
        let words = match fsm.feed_buffer(&mut buffer) {
            Ok(words) => words,
            Err(e) => {
                return Err(e);
            },
        };
        Ok(FTS::from_parts(pages, &words))
    }

    /// Decodes an envelope: checks the magic prefix, extracts and
    /// decompresses the payload, and decodes it.
    pub fn from_envelope(raw: Vec<u8>) -> (result: Result<FTS, IndexError>)
        ensures
            match result {
                Ok(fts) => envelope_index(raw@) == Ok::<IndexView, IndexError>(fts@),
                Err(e) => envelope_index(raw@) == Err::<IndexView, IndexError>(e),
            },
    {
        let mut buffer = Buffer::from_vec(raw);
        assert(buffer@.unread() =~= raw@);
        let compressed = match read_envelope(&mut buffer) {
            Ok(compressed) => compressed,
            Err(e) => {
                return Err(e);
            },
        };
        let data = match read_compressed_stream(compressed) {
            Ok(data) => data,
            Err(e) => {
                return Err(e);
            },
        };
        FTS::from_payload(data.into_vec())
    }

    /// Decodes an index from its base64 text.
    pub fn new(input: &str) -> (result: Result<FTS, IndexError>)
        ensures
            match result {
                Ok(fts) => decoded_index(input@) == Ok::<IndexView, IndexError>(fts@),
                Err(e) => decoded_index(input@) == Err::<IndexView, IndexError>(e),
            },
    {
        match decode_base64(input) {
            Ok(raw) => FTS::from_envelope(raw),
            Err(_) => Err(IndexError::InvalidInputEncoding),
        }
    }
}

} // verus!
