//! The byte-at-a-time decoder for the cluster stream.
//!
//! A cluster is a batch of words that share one serialized byte length. The
//! machine reads the length `L`, the number `C` of distinct words, and then
//! for each word its `L` bytes, a posting count `P`, and the postings as
//! pairs of big-endian 16-bit numbers. A batch that has gathered `C` distinct
//! words is merged into the running result, later words replacing earlier
//! ones. Input may stop anywhere: what has not been merged by then is left
//! out of the result.

use crate::buffer::{be_u16, Buffer};
use crate::codec::text_from_utf8;
use crate::error::IndexError;
use crate::word_map::{Posting, WordMap};
use vstd::prelude::*;
use vstd::utf8::{decode_utf8, valid_utf8};

verus! {

/// What the machine expects next.
#[derive(Clone, Copy, Debug, PartialEq, Eq, Structural)]
pub enum Phase {
    /// The byte length shared by every word of the coming cluster.
    WordLength,
    /// The number of distinct words in the cluster.
    ClusterLength,
    /// One more byte of the current word.
    Word,
    /// The number of postings of the current word.
    PageCount,
    /// One more byte of a page ordinal.
    PostingPage,
    /// One more byte of a frequency.
    PostingFrequency,
}

/// The state of the machine between two bytes.
pub struct FsmView {
    pub phase: Phase,
    /// The word length of the cluster being read.
    pub word_length: nat,
    /// The number of distinct words that completes the cluster being read.
    pub cluster_length: nat,
    /// The bytes gathered so far for the current word.
    pub word_bytes: Seq<u8>,
    /// The current word, once all its bytes are in.
    pub word: Seq<char>,
    /// The posting count announced for the current word.
    pub posting_count: nat,
    /// The bytes gathered so far for the current 16-bit field.
    pub field: Seq<u8>,
    /// The page ordinal of the posting whose frequency is being read.
    pub page: u16,
    /// The postings gathered so far for the current word.
    pub postings: Seq<Posting>,
    /// The words completed so far in the cluster being read.
    pub batch: Map<Seq<char>, Seq<Posting>>,
    /// Everything merged from completed clusters.
    pub merged: Map<Seq<char>, Seq<Posting>>,
}

/// The state before the first byte.
pub open spec fn initial_state() -> FsmView {
    FsmView {
        phase: Phase::WordLength,
        word_length: 0,
        cluster_length: 0,
        word_bytes: Seq::empty(),
        word: Seq::empty(),
        posting_count: 0,
        field: Seq::empty(),
        page: 0,
        postings: Seq::empty(),
        batch: Map::empty(),
        merged: Map::empty(),
    }
}

/// Whether byte `b` completes a word that is not valid UTF-8. This is the
/// only way in which a byte can be refused.
pub open spec fn rejects(s: FsmView, b: u8) -> bool {
    &&& s.phase == Phase::Word
    &&& s.word_bytes.push(b).len() == s.word_length
    &&& !valid_utf8(s.word_bytes.push(b))
}

/// The state after a word has received its last posting: the word joins the
/// batch, and a batch that now holds `cluster_length` distinct words is
/// merged into the result.
pub open spec fn word_completed(s: FsmView, postings: Seq<Posting>) -> FsmView {
    let batch = s.batch.insert(s.word, postings);
    if batch.dom().len() == s.cluster_length {
        FsmView {
            phase: Phase::WordLength,
            word: Seq::empty(),
            field: Seq::empty(),
            postings: Seq::empty(),
            batch: Map::empty(),
            merged: s.merged.union_prefer_right(batch),
            ..s
        }
    } else {
        FsmView {
            phase: Phase::Word,
            word: Seq::empty(),
            field: Seq::empty(),
            postings: Seq::empty(),
            batch: batch,
            ..s
        }
    }
}

/// The state after byte `b` has been taken in state `s`.
pub open spec fn step(s: FsmView, b: u8) -> FsmView {
    match s.phase {
        Phase::WordLength => FsmView { phase: Phase::ClusterLength, word_length: b as nat, ..s },
        Phase::ClusterLength => FsmView { phase: Phase::Word, cluster_length: b as nat, ..s },
        Phase::Word => {
            let bytes = s.word_bytes.push(b);
            if bytes.len() == s.word_length && valid_utf8(bytes) {
                FsmView {
                    phase: Phase::PageCount,
                    word_bytes: Seq::empty(),
                    word: decode_utf8(bytes),
                    ..s
                }
            } else {
                FsmView { word_bytes: bytes, ..s }
            }
        },
        Phase::PageCount => FsmView { phase: Phase::PostingPage, posting_count: b as nat, ..s },
        Phase::PostingPage => {
            let field = s.field.push(b);
            if field.len() == 2 {
                FsmView {
                    phase: Phase::PostingFrequency,
                    field: Seq::empty(),
                    page: be_u16(field[0], field[1]) as u16,
                    ..s
                }
            } else {
                FsmView { field: field, ..s }
            }
        },
        Phase::PostingFrequency => {
            let field = s.field.push(b);
            if field.len() == 2 {
                let postings = s.postings.push(
                    Posting { page: s.page, frequency: be_u16(field[0], field[1]) as u16 },
                );
                if postings.len() < s.posting_count {
                    FsmView {
                        phase: Phase::PostingPage,
                        field: Seq::empty(),
                        postings: postings,
                        ..s
                    }
                } else {
                    word_completed(s, postings)
                }
            } else {
                FsmView { field: field, ..s }
            }
        },
    }
}

/// How feeding a run of bytes ends.
pub struct Outcome {
    /// The state after the last byte taken.
    pub state: FsmView,
    /// How many bytes were taken, the refused one included.
    pub consumed: nat,
    /// Whether a byte was refused, which stops the run.
    pub rejected: bool,
}

/// The outcome of feeding `bytes`, one after another, to a machine in state
/// `s`, stopping early at the first byte that is refused.
pub open spec fn outcome(s: FsmView, bytes: Seq<u8>) -> Outcome
    decreases bytes.len(),
{
    if bytes.len() == 0 {
        Outcome { state: s, consumed: 0, rejected: false }
    } else if rejects(s, bytes[0]) {
        Outcome { state: step(s, bytes[0]), consumed: 1, rejected: true }
    } else {
        let rest = outcome(step(s, bytes[0]), bytes.drop_first());
        Outcome { state: rest.state, consumed: rest.consumed + 1, rejected: rest.rejected }
    }
}

/// A word that has been merged stays in the result, whatever bytes follow:
/// later clusters can replace its postings but not remove it.
pub proof fn lemma_merged_words_stay(s: FsmView, bytes: Seq<u8>, word: Seq<char>)
    requires
        s.merged.contains_key(word),
    ensures
        outcome(s, bytes).state.merged.contains_key(word),
    decreases bytes.len(),
{
    if bytes.len() > 0 && !rejects(s, bytes[0]) {
        lemma_merged_words_stay(step(s, bytes[0]), bytes.drop_first(), word);
    }
}

/// The cluster decoder.
pub struct ClusterFSM {
    state: Phase,
    word_length: usize,
    cluster_length: usize,
    current_word: String,
    word_buf: Vec<u8>,
    posting_count: usize,
    page: u16,
    postings: Vec<Posting>,
    page_buf: Buffer,
    clusters: WordMap,
    all_clusters: WordMap,
}

impl View for ClusterFSM {
    type V = FsmView;

    closed spec fn view(&self) -> FsmView {
        FsmView {
            phase: self.state,
            word_length: self.word_length as nat,
            cluster_length: self.cluster_length as nat,
            word_bytes: self.word_buf@,
            word: self.current_word@,
            posting_count: self.posting_count as nat,
            field: self.page_buf@.bytes,
            page: self.page,
            postings: self.postings@,
            batch: self.clusters@,
            merged: self.all_clusters@,
        }
    }
}

impl ClusterFSM {
    /// The scratch field is read from its start, and both tables are sound.
    pub closed spec fn wf(&self) -> bool {
        &&& self.page_buf.wf()
        &&& self.page_buf@.position == 0
        &&& self.clusters.wf()
        &&& self.all_clusters.wf()
    }

    /// A machine that has seen no byte.
    pub fn new() -> (fsm: ClusterFSM)
        ensures
            fsm.wf(),
            fsm@ == initial_state(),
    {
        ClusterFSM {
            state: Phase::WordLength,
            word_length: 0,
            cluster_length: 0,
            current_word: String::new(),
            word_buf: Vec::new(),
            posting_count: 0,
            page: 0,
            postings: Vec::new(),
            page_buf: Buffer::new(),
            clusters: WordMap::new(),
            all_clusters: WordMap::new(),
        }
    }

    /// Feeds every unread byte of `buf` to the machine and returns a copy of
    /// what has been merged. A refused byte ends the run with an error; the
    /// byte counts as read.
    pub fn feed_buffer(&mut self, buf: &mut Buffer) -> (result: Result<WordMap, IndexError>)
        requires
            old(self).wf(),
            old(buf).wf(),
        ensures
            final(self).wf(),
            final(buf).wf(),
            final(self)@ == outcome(old(self)@, old(buf)@.unread()).state,
            final(buf)@ == old(buf)@.advanced(outcome(old(self)@, old(buf)@.unread()).consumed),
            match result {
                Ok(merged) => {
                    &&& !outcome(old(self)@, old(buf)@.unread()).rejected
                    &&& merged.wf()
                    &&& merged@ == final(self)@.merged
                },
                Err(e) => {
                    &&& outcome(old(self)@, old(buf)@.unread()).rejected
                    &&& e == IndexError::InvalidEncoding
                },
            },
    {
        let ghost start = self@;
        let ghost input = buf@;
        let ghost mut taken: nat = 0;
        loop
            invariant
                start == old(self)@,
                input == old(buf)@,
                self.wf(),
                buf.wf(),
                buf@ == input.advanced(taken),
                input.position <= input.bytes.len(),
                outcome(start, input.unread()).state == outcome(self@, buf@.unread()).state,
                outcome(start, input.unread()).consumed == taken + outcome(
                    self@,
                    buf@.unread(),
                ).consumed,
                outcome(start, input.unread()).rejected == outcome(
                    self@,
                    buf@.unread(),
                ).rejected,
            ensures
                !outcome(start, input.unread()).rejected,
                self.wf(),
                buf.wf(),
                self@ == outcome(start, input.unread()).state,
                buf@ == input.advanced(outcome(start, input.unread()).consumed),
            decreases buf@.remaining(),
        {
            if buf.remaining_size() == 0 {
                break ;
            }
            let ghost unread = buf@.unread();
            let byte: u8 = buf.next();
            proof {
                assert(buf@.unread() =~= unread.drop_first());
                taken = taken + 1;
            }
            match self.feed(byte) {
                Ok(()) => {},
                Err(e) => {
                    return Err(e);
                },
            }
        }
        let mut merged = WordMap::new();
        merged.extend_from(&self.all_clusters);
        Ok(merged)
    }

    /// Takes one byte.
    pub fn feed(&mut self, b: u8) -> (result: Result<(), IndexError>)
        requires
            old(self).wf(),
        ensures
            final(self).wf(),
            final(self)@ == step(old(self)@, b),
            result == if rejects(old(self)@, b) {
                Err::<(), IndexError>(IndexError::InvalidEncoding)
            } else {
                Ok::<(), IndexError>(())
            },
    {
        match self.state {
            Phase::WordLength => {
                self.word_length = b as usize;
                self.state = Phase::ClusterLength;
            },
            Phase::ClusterLength => {
                self.cluster_length = b as usize;
                self.state = Phase::Word;
            },
            Phase::Word => {
                self.word_buf.push(b);
                if self.word_buf.len() == self.word_length {
                    let bytes = self.word_buf.clone();
                    match text_from_utf8(bytes) {
                        Ok(word) => {
                            self.current_word = word;
                        },
                        Err(_) => {
                            return Err(IndexError::InvalidEncoding);
                        },
                    }
                    self.word_buf.clear();
                    self.state = Phase::PageCount;
                }
            },
            Phase::PageCount => {
                self.posting_count = b as usize;
                self.state = Phase::PostingPage;
            },
            Phase::PostingPage => {
                self.page_buf.push(b);
                if self.page_buf.len() == 2 {
                    self.page = self.page_buf.read_u16();
                    self.page_buf.reset();
                    self.state = Phase::PostingFrequency;
                }
            },
            Phase::PostingFrequency => {
                self.page_buf.push(b);
                if self.page_buf.len() == 2 {
                    let frequency: u16 = self.page_buf.read_u16();
                    self.postings.push(Posting { page: self.page, frequency });
                    self.page_buf.reset();
                    self.state = Phase::PostingPage;
                    if self.postings.len() >= self.posting_count {
                        self.state = Phase::Word;
                        self.push_word();
                        if self.clusters.len() == self.cluster_length {
                            self.all_clusters.extend_from(&self.clusters);
                            self.clusters.clear();
                            self.state = Phase::WordLength;
                        }
                    }
                }
            },
        }
        Ok(())
    }

    /// Moves the current word and its postings into the batch.
    fn push_word(&mut self)
        requires
            old(self).wf(),
        ensures
            final(self).wf(),
            final(self)@ == (FsmView {
                word: Seq::empty(),
                postings: Seq::empty(),
                batch: old(self)@.batch.insert(old(self)@.word, old(self)@.postings),
                ..old(self)@
            }),
    {
        let mut word = String::new();
        let mut postings: Vec<Posting> = Vec::new();
        core::mem::swap(&mut self.current_word, &mut word);
        core::mem::swap(&mut self.postings, &mut postings);
        self.clusters.insert(word, postings);
    }
}

} // verus!
