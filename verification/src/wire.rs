//! The wire format of the cluster stream, and the proof that the decoder
//! reads back what the format writes.

use crate::buffer::{be_u16, be_u32};
use crate::cluster_fsm::{
    initial_state, outcome, rejects, step, word_completed, FsmView, Outcome, Phase,
};
use crate::codec::{base64_decoding, gzip_inflation};
use crate::envelope::{
    envelope_payload, magic, name_table, scan_names, NameScan, NAMES_END, NAMES_START, NAME_END,
};
use crate::error::IndexError;
use crate::index::{decoded_index, index_of, payload_index, IndexView};
use crate::word_map::Posting;
use vstd::prelude::*;
use vstd::utf8::{
    decode_utf8, encode_utf8, encode_utf8_decode_utf8, encode_utf8_valid_utf8, valid_utf8,
};

verus! {

/// The more significant byte of a 16-bit number.
pub open spec fn high_byte(v: u16) -> u8 {
    (v / 0x100) as u8
}

/// The less significant byte of a 16-bit number.
pub open spec fn low_byte(v: u16) -> u8 {
    (v % 0x100) as u8
}

/// A posting on the wire: the page ordinal, then the frequency, both
/// big-endian.
pub open spec fn posting_bytes(p: Posting) -> Seq<u8> {
    seq![high_byte(p.page), low_byte(p.page), high_byte(p.frequency), low_byte(p.frequency)]
}

/// A posting list on the wire: its postings one after another.
pub open spec fn postings_bytes(postings: Seq<Posting>) -> Seq<u8>
    decreases postings.len(),
{
    if postings.len() == 0 {
        Seq::empty()
    } else {
        postings_bytes(postings.drop_last()) + posting_bytes(postings.last())
    }
}

/// Feeding bytes `a` and then bytes `b` is feeding `a + b`, unless a byte of
/// `a` is refused.
pub proof fn lemma_outcome_concat(s: FsmView, a: Seq<u8>, b: Seq<u8>)
    ensures
        outcome(s, a).rejected ==> outcome(s, a + b) == outcome(s, a),
        !outcome(s, a).rejected ==> outcome(s, a + b) == (Outcome {
            state: outcome(outcome(s, a).state, b).state,
            consumed: a.len() + outcome(outcome(s, a).state, b).consumed,
            rejected: outcome(outcome(s, a).state, b).rejected,
        }),
    decreases a.len(),
{
    if a.len() == 0 {
        assert(a + b =~= b);
    } else {
        assert((a + b).drop_first() =~= a.drop_first() + b);
        if !rejects(s, a[0]) {
            lemma_outcome_concat(step(s, a[0]), a.drop_first(), b);
        }
    }
}

/// Bytes that are fed without a refusal are all consumed.
pub proof fn lemma_outcome_consumed(s: FsmView, bytes: Seq<u8>)
    ensures
        outcome(s, bytes).consumed <= bytes.len(),
        !outcome(s, bytes).rejected ==> outcome(s, bytes).consumed == bytes.len(),
    decreases bytes.len(),
{
    if bytes.len() > 0 && !rejects(s, bytes[0]) {
        lemma_outcome_consumed(step(s, bytes[0]), bytes.drop_first());
    }
}

/// Feeding a single byte that is not refused is one step.
proof fn lemma_outcome_one(s: FsmView, b: u8)
    requires
        !rejects(s, b),
    ensures
        outcome(s, seq![b]) == (Outcome { state: step(s, b), consumed: 1, rejected: false }),
{
    assert(seq![b].drop_first() =~= Seq::<u8>::empty());
    assert(outcome(step(s, b), Seq::<u8>::empty()) == (Outcome {
        state: step(s, b),
        consumed: 0,
        rejected: false,
    }));
}

/// The rest of a word that is text, fed to a machine that holds its first
/// `k` bytes, completes the word.
proof fn lemma_feed_word(s: FsmView, word: Seq<u8>, k: int)
    requires
        s.phase == Phase::Word,
        s.word_length == word.len(),
        valid_utf8(word),
        0 <= k < word.len(),
        s.word_bytes == word.take(k),
    ensures
        !outcome(s, word.skip(k)).rejected,
        outcome(s, word.skip(k)).state == (FsmView {
            phase: Phase::PageCount,
            word_bytes: Seq::empty(),
            word: decode_utf8(word),
            ..s
        }),
    decreases word.len() - k,
{
    let rest = word.skip(k);
    assert(s.word_bytes.push(word[k]) =~= word.take(k + 1));
    assert(rest.drop_first() =~= word.skip(k + 1));
    let next = step(s, word[k]);
    if k + 1 == word.len() {
        assert(word.take(k + 1) =~= word);
        assert(word.skip(k + 1) =~= Seq::<u8>::empty());
        assert(outcome(next, Seq::<u8>::empty()).state == next);
    } else {
        lemma_feed_word(next, word, k + 1);
    }
}

/// A 16-bit number is the big-endian value of its two bytes.
proof fn lemma_bytes_of_u16(v: u16)
    ensures
        be_u16(high_byte(v), low_byte(v)) == v,
{
}

/// One posting, fed to a machine that awaits a page ordinal, joins the
/// postings of the current word; if it is the last one announced, the word
/// is complete.
proof fn lemma_feed_posting(s: FsmView, p: Posting)
    requires
        s.phase == Phase::PostingPage,
        s.field.len() == 0,
    ensures
        !outcome(s, posting_bytes(p)).rejected,
        outcome(s, posting_bytes(p)).state == (if s.postings.len() + 1 < s.posting_count {
            FsmView {
                phase: Phase::PostingPage,
                field: Seq::empty(),
                page: p.page,
                postings: s.postings.push(p),
                ..s
            }
        } else {
            word_completed(FsmView { page: p.page, ..s }, s.postings.push(p))
        }),
{
    let b0 = high_byte(p.page);
    let b1 = low_byte(p.page);
    let b2 = high_byte(p.frequency);
    let b3 = low_byte(p.frequency);
    lemma_bytes_of_u16(p.page);
    lemma_bytes_of_u16(p.frequency);
    let s1 = step(s, b0);
    let s2 = step(s1, b1);
    let s3 = step(s2, b2);
    let s4 = step(s3, b3);
    assert(s4 == if s.postings.len() + 1 < s.posting_count {
        FsmView {
            phase: Phase::PostingPage,
            field: Seq::empty(),
            page: p.page,
            postings: s.postings.push(p),
            ..s
        }
    } else {
        word_completed(FsmView { page: p.page, ..s }, s.postings.push(p))
    });
    lemma_outcome_one(s, b0);
    lemma_outcome_one(s1, b1);
    lemma_outcome_one(s2, b2);
    lemma_outcome_one(s3, b3);
    lemma_outcome_concat(s, seq![b0], seq![b1]);
    lemma_outcome_concat(s, seq![b0] + seq![b1], seq![b2]);
    lemma_outcome_concat(s, seq![b0] + seq![b1] + seq![b2], seq![b3]);
    assert(posting_bytes(p) =~= seq![b0] + seq![b1] + seq![b2] + seq![b3]);
}

/// The first `k` of the announced postings, fed to a machine that awaits
/// the first page ordinal of a word, are gathered as they are.
proof fn lemma_feed_postings_prefix(s: FsmView, postings: Seq<Posting>, k: int)
    requires
        s.phase == Phase::PostingPage,
        s.field == Seq::<u8>::empty(),
        s.postings == Seq::<Posting>::empty(),
        s.posting_count == postings.len(),
        0 <= k < postings.len(),
    ensures
        !outcome(s, postings_bytes(postings.take(k))).rejected,
        outcome(s, postings_bytes(postings.take(k))).state == (FsmView {
            page: if k == 0 {
                s.page
            } else {
                postings[k - 1].page
            },
            postings: postings.take(k),
            ..s
        }),
    decreases k,
{
    if k == 0 {
        assert(postings.take(0) =~= Seq::<Posting>::empty());
    } else {
        let before = postings.take(k - 1);
        let current = postings.take(k);
        assert(current.drop_last() =~= before);
        lemma_feed_postings_prefix(s, postings, k - 1);
        let mid = outcome(s, postings_bytes(before)).state;
        lemma_outcome_concat(s, postings_bytes(before), posting_bytes(postings[k - 1]));
        lemma_feed_posting(mid, postings[k - 1]);
        assert(before.push(postings[k - 1]) =~= current);
    }
}

/// A whole posting list, fed to a machine that awaits the first page
/// ordinal of a word, completes the word.
proof fn lemma_feed_postings(s: FsmView, postings: Seq<Posting>)
    requires
        s.phase == Phase::PostingPage,
        s.field == Seq::<u8>::empty(),
        s.postings == Seq::<Posting>::empty(),
        s.posting_count == postings.len(),
        postings.len() >= 1,
    ensures
        !outcome(s, postings_bytes(postings)).rejected,
        outcome(s, postings_bytes(postings)).state == word_completed(
            FsmView { page: postings.last().page, ..s },
            postings,
        ),
{
    let k = postings.len() - 1;
    let before = postings.take(k);
    lemma_feed_postings_prefix(s, postings, k);
    let mid = outcome(s, postings_bytes(before)).state;
    lemma_outcome_concat(s, postings_bytes(before), posting_bytes(postings.last()));
    lemma_feed_posting(mid, postings.last());
    assert(before.push(postings.last()) =~= postings);
}

/// A word as a cluster lists it, with its postings.
pub struct WordRecord {
    pub word: Seq<char>,
    pub postings: Seq<Posting>,
}

/// A word record on the wire: the word in UTF-8, the number of its postings
/// in one byte, and the postings.
pub open spec fn record_bytes(r: WordRecord) -> Seq<u8> {
    encode_utf8(r.word) + seq![r.postings.len() as u8] + postings_bytes(r.postings)
}

/// A record that the format can express in a cluster of word length
/// `length`: the word takes that many bytes, and the postings are between
/// one and 255.
pub open spec fn record_is_sound(r: WordRecord, length: nat) -> bool {
    &&& encode_utf8(r.word).len() == length
    &&& 1 <= r.postings.len() <= 255
}

/// The machine stands before the first byte of a word.
pub open spec fn at_word_start(s: FsmView) -> bool {
    &&& s.phase == Phase::Word
    &&& s.word_bytes == Seq::<u8>::empty()
    &&& s.field == Seq::<u8>::empty()
    &&& s.postings == Seq::<Posting>::empty()
}

/// A sound record, fed to a machine that stands before a word, completes
/// the word with the postings of the record.
proof fn lemma_feed_record(s: FsmView, r: WordRecord)
    requires
        at_word_start(s),
        s.word_length >= 1,
        record_is_sound(r, s.word_length),
    ensures
        !outcome(s, record_bytes(r)).rejected,
        outcome(s, record_bytes(r)).state == word_completed(
            FsmView {
                word: r.word,
                posting_count: r.postings.len(),
                page: r.postings.last().page,
                ..s
            },
            r.postings,
        ),
{
    let word = encode_utf8(r.word);
    let count = r.postings.len() as u8;
    encode_utf8_valid_utf8(r.word);
    encode_utf8_decode_utf8(r.word);
    assert(word.skip(0) =~= word);
    assert(word.take(0) =~= Seq::<u8>::empty());
    lemma_feed_word(s, word, 0);
    let s1 = outcome(s, word).state;
    lemma_outcome_one(s1, count);
    let s2 = step(s1, count);
    lemma_outcome_concat(s, word, seq![count]);
    lemma_feed_postings(s2, r.postings);
    lemma_outcome_concat(s, word + seq![count], postings_bytes(r.postings));
}

/// The records of a cluster on the wire, one after another.
pub open spec fn records_bytes(records: Seq<WordRecord>) -> Seq<u8>
    decreases records.len(),
{
    if records.len() == 0 {
        Seq::empty()
    } else {
        records_bytes(records.drop_last()) + record_bytes(records.last())
    }
}

/// What a list of records says: each word with its postings, a later record
/// replacing an earlier one for the same word.
pub open spec fn records_map(records: Seq<WordRecord>) -> Map<Seq<char>, Seq<Posting>>
    decreases records.len(),
{
    if records.len() == 0 {
        Map::empty()
    } else {
        records_map(records.drop_last()).insert(records.last().word, records.last().postings)
    }
}

/// The byte length that the words of a cluster share: that of its first
/// word.
pub open spec fn cluster_word_length(records: Seq<WordRecord>) -> nat {
    encode_utf8(records[0].word).len()
}

/// No two records are for the same word.
pub open spec fn distinct_words(records: Seq<WordRecord>) -> bool {
    forall|i: int, j: int| 0 <= i < j < records.len() ==> records[i].word != records[j].word
}

/// A cluster that the format can express: between one and 255 records, all
/// sound for one word length between one and 255, no two for the same word.
pub open spec fn cluster_is_sound(records: Seq<WordRecord>) -> bool {
    &&& 1 <= records.len() <= 255
    &&& 1 <= cluster_word_length(records) <= 255
    &&& forall|i: int|
        0 <= i < records.len() ==> record_is_sound(
            #[trigger] records[i],
            cluster_word_length(records),
        )
    &&& distinct_words(records)
}

/// A cluster on the wire: the word length and the number of records, one
/// byte each, and the records.
pub open spec fn cluster_bytes(records: Seq<WordRecord>) -> Seq<u8> {
    seq![cluster_word_length(records) as u8, records.len() as u8] + records_bytes(records)
}

/// Records for different words make a mapping with as many words.
proof fn lemma_records_map_size(records: Seq<WordRecord>)
    requires
        distinct_words(records),
    ensures
        records_map(records).dom().finite(),
        records_map(records).dom().len() == records.len(),
        forall|w: Seq<char>|
            records_map(records).contains_key(w) ==> exists|i: int|
                0 <= i < records.len() && (#[trigger] records[i]).word == w,
    decreases records.len(),
{
    if records.len() > 0 {
        let shorter = records.drop_last();
        assert(distinct_words(shorter)) by {
            assert forall|i: int, j: int| 0 <= i < j < shorter.len() implies shorter[i].word
                != shorter[j].word by {
                assert(shorter[i] == records[i]);
                assert(shorter[j] == records[j]);
            }
        }
        lemma_records_map_size(shorter);
        let word = records.last().word;
        if records_map(shorter).contains_key(word) {
            let i = choose|i: int| 0 <= i < shorter.len() && (#[trigger] shorter[i]).word == word;
            assert(shorter[i] == records[i]);
            assert(false);
        }
        assert forall|w: Seq<char>| records_map(records).contains_key(w) implies exists|i: int|
            0 <= i < records.len() && (#[trigger] records[i]).word == w by {
            if w == word {
                assert(records[records.len() - 1].word == w);
            } else {
                let i = choose|i: int| 0 <= i < shorter.len() && (#[trigger] shorter[i]).word == w;
                assert(shorter[i] == records[i]);
            }
        }
    }
}

/// The first `k` records of a sound cluster, fed to a machine that stands
/// before the first word of the cluster, are gathered in the batch.
proof fn lemma_feed_records_prefix(s: FsmView, records: Seq<WordRecord>, k: int)
    requires
        at_word_start(s),
        cluster_is_sound(records),
        s.word_length == cluster_word_length(records),
        s.cluster_length == records.len(),
        s.batch == Map::<Seq<char>, Seq<Posting>>::empty(),
        0 <= k < records.len(),
    ensures
        !outcome(s, records_bytes(records.take(k))).rejected,
        at_word_start(outcome(s, records_bytes(records.take(k))).state),
        outcome(s, records_bytes(records.take(k))).state.word_length == s.word_length,
        outcome(s, records_bytes(records.take(k))).state.cluster_length == s.cluster_length,
        outcome(s, records_bytes(records.take(k))).state.merged == s.merged,
        outcome(s, records_bytes(records.take(k))).state.batch == records_map(records.take(k)),
    decreases k,
{
    if k == 0 {
        assert(records.take(0) =~= Seq::<WordRecord>::empty());
    } else {
        let before = records.take(k - 1);
        let current = records.take(k);
        let record = records[k - 1];
        assert(current.drop_last() =~= before);
        lemma_feed_records_prefix(s, records, k - 1);
        let mid = outcome(s, records_bytes(before)).state;
        lemma_outcome_concat(s, records_bytes(before), record_bytes(record));
        lemma_feed_record(mid, record);
        assert(distinct_words(current)) by {
            assert forall|i: int, j: int| 0 <= i < j < current.len() implies current[i].word
                != current[j].word by {
                assert(current[i] == records[i]);
                assert(current[j] == records[j]);
            }
        }
        lemma_records_map_size(current);
    }
}

/// The machine stands before the first byte of a cluster.
pub open spec fn at_cluster_start(s: FsmView) -> bool {
    &&& s.phase == Phase::WordLength
    &&& s.word_bytes == Seq::<u8>::empty()
    &&& s.field == Seq::<u8>::empty()
    &&& s.postings == Seq::<Posting>::empty()
    &&& s.batch == Map::<Seq<char>, Seq<Posting>>::empty()
}

/// A sound cluster, fed to a machine that stands before a cluster, is
/// merged into the result, and the machine stands before the next cluster.
pub proof fn lemma_feed_cluster(s: FsmView, records: Seq<WordRecord>)
    requires
        at_cluster_start(s),
        cluster_is_sound(records),
    ensures
        !outcome(s, cluster_bytes(records)).rejected,
        at_cluster_start(outcome(s, cluster_bytes(records)).state),
        outcome(s, cluster_bytes(records)).state.merged == s.merged.union_prefer_right(
            records_map(records),
        ),
{
    let length = cluster_word_length(records) as u8;
    let count = records.len() as u8;
    let last = records.len() - 1;
    let before = records.take(last);
    lemma_outcome_one(s, length);
    let s1 = step(s, length);
    lemma_outcome_one(s1, count);
    let s2 = step(s1, count);
    lemma_outcome_concat(s, seq![length], seq![count]);
    assert(seq![length] + seq![count] =~= seq![length, count]);
    lemma_feed_records_prefix(s2, records, last);
    let s3 = outcome(s2, records_bytes(before)).state;
    lemma_outcome_concat(s2, records_bytes(before), record_bytes(records.last()));
    lemma_feed_record(s3, records.last());
    lemma_records_map_size(records);
    lemma_outcome_concat(s, seq![length, count], records_bytes(records));
}

/// A cluster stream on the wire: its clusters one after another.
pub open spec fn stream_bytes(clusters: Seq<Seq<WordRecord>>) -> Seq<u8>
    decreases clusters.len(),
{
    if clusters.len() == 0 {
        Seq::empty()
    } else {
        stream_bytes(clusters.drop_last()) + cluster_bytes(clusters.last())
    }
}

/// What a cluster stream adds up to on top of `base`: the clusters merged
/// in order, a later one replacing the words that it shares with what came
/// before.
pub open spec fn merged_clusters(
    base: Map<Seq<char>, Seq<Posting>>,
    clusters: Seq<Seq<WordRecord>>,
) -> Map<Seq<char>, Seq<Posting>>
    decreases clusters.len(),
{
    if clusters.len() == 0 {
        base
    } else {
        merged_clusters(base, clusters.drop_last()).union_prefer_right(
            records_map(clusters.last()),
        )
    }
}

/// The decoder reads back what the format writes: a stream of sound
/// clusters, fed to a machine that stands before a cluster, is taken whole
/// and leaves the clusters merged in order.
pub proof fn lemma_feed_stream(s: FsmView, clusters: Seq<Seq<WordRecord>>)
    requires
        at_cluster_start(s),
        forall|i: int| 0 <= i < clusters.len() ==> cluster_is_sound(#[trigger] clusters[i]),
    ensures
        !outcome(s, stream_bytes(clusters)).rejected,
        outcome(s, stream_bytes(clusters)).consumed == stream_bytes(clusters).len(),
        at_cluster_start(outcome(s, stream_bytes(clusters)).state),
        outcome(s, stream_bytes(clusters)).state.merged == merged_clusters(s.merged, clusters),
    decreases clusters.len(),
{
    if clusters.len() > 0 {
        let before = clusters.drop_last();
        assert forall|i: int| 0 <= i < before.len() implies cluster_is_sound(
            #[trigger] before[i],
        ) by {
            assert(before[i] == clusters[i]);
        }
        lemma_feed_stream(s, before);
        let mid = outcome(s, stream_bytes(before)).state;
        lemma_outcome_concat(s, stream_bytes(before), cluster_bytes(clusters.last()));
        lemma_feed_cluster(mid, clusters.last());
    }
    lemma_outcome_consumed(s, stream_bytes(clusters));
}

/// A page name that the table can hold: its UTF-8 form has neither the
/// byte that ends a name nor the byte that ends the table.
pub open spec fn name_is_sound(name: Seq<char>) -> bool {
    forall|i: int|
        0 <= i < encode_utf8(name).len() ==> encode_utf8(name)[i] != NAME_END && encode_utf8(
            name,
        )[i] != NAMES_END
}

/// The names of a table on the wire: each in UTF-8 with its end byte.
pub open spec fn names_bytes(names: Seq<Seq<char>>) -> Seq<u8>
    decreases names.len(),
{
    if names.len() == 0 {
        Seq::empty()
    } else {
        encode_utf8(names[0]) + seq![NAME_END] + names_bytes(names.drop_first())
    }
}

/// The rest of a name and its end byte, scanned with the first `k` bytes of
/// the name pending, give the name and then what the scan of `rest` gives.
proof fn lemma_scan_name(name: Seq<u8>, k: int, rest: Seq<u8>)
    requires
        valid_utf8(name),
        forall|i: int| 0 <= i < name.len() ==> name[i] != NAME_END && name[i] != NAMES_END,
        0 <= k <= name.len(),
    ensures
        scan_names(name.skip(k) + seq![NAME_END] + rest, name.take(k)) == (NameScan {
            names: seq![decode_utf8(name)] + scan_names(rest, Seq::empty()).names,
            consumed: ((name.len() - k + 1) + scan_names(rest, Seq::empty()).consumed) as nat,
            error: scan_names(rest, Seq::empty()).error,
        }),
    decreases name.len() - k,
{
    let bytes = name.skip(k) + seq![NAME_END] + rest;
    if k == name.len() {
        assert(name.take(k) =~= name);
        assert(bytes.drop_first() =~= rest);
    } else {
        assert(bytes.drop_first() =~= name.skip(k + 1) + seq![NAME_END] + rest);
        assert(name.take(k).push(name[k]) =~= name.take(k + 1));
        lemma_scan_name(name, k + 1, rest);
    }
}

/// Sound names and the end marker, scanned from the start of a table body,
/// give the names; what follows the marker is not read.
proof fn lemma_scan_names(names: Seq<Seq<char>>, tail: Seq<u8>)
    requires
        forall|i: int| 0 <= i < names.len() ==> name_is_sound(#[trigger] names[i]),
    ensures
        scan_names(names_bytes(names) + seq![NAMES_END] + tail, Seq::empty()) == (NameScan {
            names: names,
            consumed: names_bytes(names).len() + 1,
            error: None,
        }),
    decreases names.len(),
{
    let bytes = names_bytes(names) + seq![NAMES_END] + tail;
    if names.len() == 0 {
        assert(names =~= Seq::<Seq<char>>::empty());
    } else {
        let first = encode_utf8(names[0]);
        let others = names.drop_first();
        let rest = names_bytes(others) + seq![NAMES_END] + tail;
        assert forall|i: int| 0 <= i < others.len() implies name_is_sound(
            #[trigger] others[i],
        ) by {
            assert(others[i] == names[i + 1]);
        }
        encode_utf8_valid_utf8(names[0]);
        encode_utf8_decode_utf8(names[0]);
        assert(first.skip(0) =~= first);
        assert(first.take(0) =~= Seq::<u8>::empty());
        assert(bytes =~= first.skip(0) + seq![NAME_END] + rest);
        lemma_scan_name(first, 0, rest);
        lemma_scan_names(others, tail);
        assert(seq![names[0]] + others =~= names);
    }
}

/// A name table on the wire: the start marker, the names, the end marker.
pub open spec fn table_bytes(names: Seq<Seq<char>>) -> Seq<u8> {
    seq![NAMES_START] + names_bytes(names) + seq![NAMES_END]
}

/// The reader gives back the names that a table was written from, and
/// stops behind the end marker, whatever follows.
pub proof fn lemma_table_reads_back(names: Seq<Seq<char>>, tail: Seq<u8>)
    requires
        forall|i: int| 0 <= i < names.len() ==> name_is_sound(#[trigger] names[i]),
    ensures
        name_table(table_bytes(names) + tail) == (NameScan {
            names: names,
            consumed: table_bytes(names).len(),
            error: None,
        }),
{
    let data = table_bytes(names) + tail;
    assert(data.drop_first() =~= names_bytes(names) + seq![NAMES_END] + tail);
    lemma_scan_names(names, tail);
}

/// A payload on the wire: the name table, then the cluster stream.
pub open spec fn payload_bytes(names: Seq<Seq<char>>, clusters: Seq<Seq<WordRecord>>) -> Seq<u8> {
    table_bytes(names) + stream_bytes(clusters)
}

/// A payload written from sound names and sound clusters decodes to the
/// index over those names that holds the clusters merged in order.
pub proof fn lemma_payload_decodes(names: Seq<Seq<char>>, clusters: Seq<Seq<WordRecord>>)
    requires
        forall|i: int| 0 <= i < names.len() ==> name_is_sound(#[trigger] names[i]),
        forall|i: int| 0 <= i < clusters.len() ==> cluster_is_sound(#[trigger] clusters[i]),
    ensures
        payload_index(payload_bytes(names, clusters)) == Ok::<IndexView, IndexError>(
            index_of(names, merged_clusters(Map::empty(), clusters)),
        ),
{
    let data = payload_bytes(names, clusters);
    let stream = stream_bytes(clusters);
    lemma_table_reads_back(names, stream);
    assert(data.skip(name_table(data).consumed as int) =~= stream);
    lemma_feed_stream(initial_state(), clusters);
}

/// A 32-bit number on the wire, big-endian.
pub open spec fn u32_bytes(v: u32) -> Seq<u8> {
    seq![
        (v / 0x100_0000) as u8,
        (v / 0x1_0000 % 0x100) as u8,
        (v / 0x100 % 0x100) as u8,
        (v % 0x100) as u8,
    ]
}

/// An envelope on the wire: the magic prefix, the length of the compressed
/// payload, and the compressed payload.
pub open spec fn envelope_bytes(compressed: Seq<u8>) -> Seq<u8> {
    magic() + u32_bytes(compressed.len() as u32) + compressed
}

/// An envelope frames the payload that it was written around, whatever
/// follows it.
pub proof fn lemma_envelope_frames(compressed: Seq<u8>, tail: Seq<u8>)
    requires
        compressed.len() <= u32::MAX,
    ensures
        envelope_payload(envelope_bytes(compressed) + tail) == Ok::<Seq<u8>, IndexError>(
            compressed,
        ),
{
    let raw = envelope_bytes(compressed) + tail;
    let length = compressed.len() as u32;
    assert(raw.take(5) =~= magic());
    assert(raw[5] == u32_bytes(length)[0]);
    assert(raw[6] == u32_bytes(length)[1]);
    assert(raw[7] == u32_bytes(length)[2]);
    assert(raw[8] == u32_bytes(length)[3]);
    assert(be_u32(raw[5], raw[6], raw[7], raw[8]) == length);
    assert(raw.subrange(9, 9 + length) =~= compressed);
}

/// The decoder reads back what the format writes: a text that stands for an
/// envelope around a compressed payload, the payload written from sound
/// names and sound clusters, decodes to the index over those names that
/// holds the clusters merged in order.
pub proof fn lemma_encoded_index_decodes(
    input: Seq<char>,
    compressed: Seq<u8>,
    names: Seq<Seq<char>>,
    clusters: Seq<Seq<WordRecord>>,
)
    requires
        base64_decoding(input) == Some(envelope_bytes(compressed)),
        compressed.len() <= u32::MAX,
        gzip_inflation(compressed) == Some(payload_bytes(names, clusters)),
        forall|i: int| 0 <= i < names.len() ==> name_is_sound(#[trigger] names[i]),
        forall|i: int| 0 <= i < clusters.len() ==> cluster_is_sound(#[trigger] clusters[i]),
    ensures
        decoded_index(input) == Ok::<IndexView, IndexError>(
            index_of(names, merged_clusters(Map::empty(), clusters)),
        ),
{
    lemma_envelope_frames(compressed, Seq::empty());
    lemma_payload_decodes(names, clusters);
}

/// Whether the bytes pass without a refusal and without completing a
/// cluster.
pub open spec fn is_quiet(s: FsmView, bytes: Seq<u8>) -> bool
    decreases bytes.len(),
{
    bytes.len() == 0 || (!rejects(s, bytes[0]) && step(s, bytes[0]).phase != Phase::WordLength
        && is_quiet(step(s, bytes[0]), bytes.drop_first()))
}

/// Bytes that pass quietly are all taken and leave the result as it was.
pub proof fn lemma_quiet_run(s: FsmView, bytes: Seq<u8>)
    requires
        is_quiet(s, bytes),
    ensures
        !outcome(s, bytes).rejected,
        outcome(s, bytes).state.merged == s.merged,
    decreases bytes.len(),
{
    if bytes.len() > 0 {
        lemma_quiet_run(step(s, bytes[0]), bytes.drop_first());
    }
}

/// Bytes `a + b` pass quietly exactly if `a` does and then `b` does.
proof fn lemma_quiet_concat(s: FsmView, a: Seq<u8>, b: Seq<u8>)
    ensures
        is_quiet(s, a + b) <==> is_quiet(s, a) && is_quiet(outcome(s, a).state, b),
    decreases a.len(),
{
    if a.len() == 0 {
        assert(a + b =~= b);
    } else {
        assert((a + b).drop_first() =~= a.drop_first() + b);
        if !rejects(s, a[0]) {
            lemma_quiet_concat(step(s, a[0]), a.drop_first(), b);
        }
    }
}

/// A single byte passes quietly if it is taken and does not lead to the
/// start of a cluster.
proof fn lemma_quiet_one(s: FsmView, b: u8)
    requires
        !rejects(s, b),
        step(s, b).phase != Phase::WordLength,
    ensures
        is_quiet(s, seq![b]),
{
    assert(seq![b].drop_first() =~= Seq::<u8>::empty());
    assert(is_quiet(step(s, b), Seq::<u8>::empty()));
}

/// Every beginning of a quiet run is quiet.
proof fn lemma_quiet_prefix(s: FsmView, bytes: Seq<u8>, n: int)
    requires
        is_quiet(s, bytes),
        0 <= n <= bytes.len(),
    ensures
        is_quiet(s, bytes.take(n)),
{
    assert(bytes =~= bytes.take(n) + bytes.skip(n));
    lemma_quiet_concat(s, bytes.take(n), bytes.skip(n));
}

/// The rest of a word passes quietly.
proof fn lemma_word_is_quiet(s: FsmView, word: Seq<u8>, k: int)
    requires
        s.phase == Phase::Word,
        s.word_length == word.len(),
        valid_utf8(word),
        0 <= k < word.len(),
        s.word_bytes == word.take(k),
    ensures
        is_quiet(s, word.skip(k)),
    decreases word.len() - k,
{
    let rest = word.skip(k);
    assert(s.word_bytes.push(word[k]) =~= word.take(k + 1));
    assert(rest.drop_first() =~= word.skip(k + 1));
    let next = step(s, word[k]);
    if k + 1 == word.len() {
        assert(word.take(k + 1) =~= word);
        assert(word.skip(k + 1) =~= Seq::<u8>::empty());
        assert(is_quiet(next, Seq::<u8>::empty()));
    } else {
        lemma_word_is_quiet(next, word, k + 1);
    }
}

/// A posting passes quietly up to its last byte, and altogether unless it
/// completes a cluster.
proof fn lemma_posting_is_quiet(s: FsmView, p: Posting)
    requires
        s.phase == Phase::PostingPage,
        s.field.len() == 0,
    ensures
        is_quiet(s, posting_bytes(p).drop_last()),
        outcome(s, posting_bytes(p)).state.phase != Phase::WordLength ==> is_quiet(
            s,
            posting_bytes(p),
        ),
{
    let b0 = high_byte(p.page);
    let b1 = low_byte(p.page);
    let b2 = high_byte(p.frequency);
    let b3 = low_byte(p.frequency);
    let s1 = step(s, b0);
    let s2 = step(s1, b1);
    let s3 = step(s2, b2);
    let s4 = step(s3, b3);
    lemma_outcome_one(s, b0);
    lemma_outcome_one(s1, b1);
    lemma_outcome_one(s2, b2);
    lemma_outcome_one(s3, b3);
    lemma_outcome_concat(s, seq![b0], seq![b1]);
    lemma_outcome_concat(s, seq![b0] + seq![b1], seq![b2]);
    lemma_outcome_concat(s, seq![b0] + seq![b1] + seq![b2], seq![b3]);
    lemma_quiet_one(s, b0);
    lemma_quiet_one(s1, b1);
    lemma_quiet_one(s2, b2);
    lemma_quiet_concat(s, seq![b0], seq![b1]);
    lemma_quiet_concat(s, seq![b0] + seq![b1], seq![b2]);
    assert(posting_bytes(p).drop_last() =~= seq![b0] + seq![b1] + seq![b2]);
    assert(posting_bytes(p) =~= seq![b0] + seq![b1] + seq![b2] + seq![b3]);
    if s4.phase != Phase::WordLength {
        lemma_quiet_one(s3, b3);
        lemma_quiet_concat(s, seq![b0] + seq![b1] + seq![b2], seq![b3]);
    }
}

/// The first `k` of the announced postings pass quietly.
proof fn lemma_postings_prefix_is_quiet(s: FsmView, postings: Seq<Posting>, k: int)
    requires
        s.phase == Phase::PostingPage,
        s.field == Seq::<u8>::empty(),
        s.postings == Seq::<Posting>::empty(),
        s.posting_count == postings.len(),
        0 <= k < postings.len(),
    ensures
        is_quiet(s, postings_bytes(postings.take(k))),
    decreases k,
{
    if k == 0 {
        assert(postings.take(0) =~= Seq::<Posting>::empty());
    } else {
        let before = postings.take(k - 1);
        assert(postings.take(k).drop_last() =~= before);
        lemma_postings_prefix_is_quiet(s, postings, k - 1);
        lemma_feed_postings_prefix(s, postings, k - 1);
        let mid = outcome(s, postings_bytes(before)).state;
        lemma_feed_posting(mid, postings[k - 1]);
        lemma_posting_is_quiet(mid, postings[k - 1]);
        lemma_quiet_concat(s, postings_bytes(before), posting_bytes(postings[k - 1]));
    }
}

/// A posting list passes quietly up to its last byte, and altogether unless
/// it completes a cluster.
proof fn lemma_postings_are_quiet(s: FsmView, postings: Seq<Posting>)
    requires
        s.phase == Phase::PostingPage,
        s.field == Seq::<u8>::empty(),
        s.postings == Seq::<Posting>::empty(),
        s.posting_count == postings.len(),
        postings.len() >= 1,
    ensures
        is_quiet(s, postings_bytes(postings).drop_last()),
        outcome(s, postings_bytes(postings)).state.phase != Phase::WordLength ==> is_quiet(
            s,
            postings_bytes(postings),
        ),
{
    let k = postings.len() - 1;
    let before = postings.take(k);
    let last = posting_bytes(postings.last());
    lemma_postings_prefix_is_quiet(s, postings, k);
    lemma_feed_postings_prefix(s, postings, k);
    let mid = outcome(s, postings_bytes(before)).state;
    lemma_posting_is_quiet(mid, postings.last());
    lemma_outcome_concat(s, postings_bytes(before), last);
    lemma_quiet_concat(s, postings_bytes(before), last);
    lemma_quiet_concat(s, postings_bytes(before), last.drop_last());
    assert(postings_bytes(postings).drop_last() =~= postings_bytes(before) + last.drop_last());
}

/// A sound record passes quietly up to its last byte, and altogether unless
/// it completes a cluster.
proof fn lemma_record_is_quiet(s: FsmView, r: WordRecord)
    requires
        at_word_start(s),
        s.word_length >= 1,
        record_is_sound(r, s.word_length),
    ensures
        is_quiet(s, record_bytes(r).drop_last()),
        outcome(s, record_bytes(r)).state.phase != Phase::WordLength ==> is_quiet(
            s,
            record_bytes(r),
        ),
{
    let word = encode_utf8(r.word);
    let count = r.postings.len() as u8;
    let list = postings_bytes(r.postings);
    encode_utf8_valid_utf8(r.word);
    assert(word.skip(0) =~= word);
    assert(word.take(0) =~= Seq::<u8>::empty());
    lemma_feed_word(s, word, 0);
    lemma_word_is_quiet(s, word, 0);
    let s1 = outcome(s, word).state;
    lemma_outcome_one(s1, count);
    lemma_quiet_one(s1, count);
    let s2 = step(s1, count);
    lemma_outcome_concat(s, word, seq![count]);
    lemma_quiet_concat(s, word, seq![count]);
    lemma_postings_are_quiet(s2, r.postings);
    lemma_outcome_concat(s, word + seq![count], list);
    lemma_quiet_concat(s, word + seq![count], list);
    lemma_quiet_concat(s, word + seq![count], list.drop_last());
    lemma_feed_postings(s2, r.postings);
    assert(list.len() >= 1) by {
        assert(list =~= postings_bytes(r.postings.drop_last()) + posting_bytes(
            r.postings.last(),
        ));
    }
    assert(record_bytes(r).drop_last() =~= word + seq![count] + list.drop_last());
}

/// The first `k` records of a sound cluster pass quietly.
proof fn lemma_records_prefix_is_quiet(s: FsmView, records: Seq<WordRecord>, k: int)
    requires
        at_word_start(s),
        cluster_is_sound(records),
        s.word_length == cluster_word_length(records),
        s.cluster_length == records.len(),
        s.batch == Map::<Seq<char>, Seq<Posting>>::empty(),
        0 <= k < records.len(),
    ensures
        is_quiet(s, records_bytes(records.take(k))),
    decreases k,
{
    if k == 0 {
        assert(records.take(0) =~= Seq::<WordRecord>::empty());
    } else {
        let before = records.take(k - 1);
        let record = records[k - 1];
        assert(records.take(k).drop_last() =~= before);
        lemma_records_prefix_is_quiet(s, records, k - 1);
        lemma_feed_records_prefix(s, records, k - 1);
        lemma_feed_records_prefix(s, records, k);
        let mid = outcome(s, records_bytes(before)).state;
        lemma_record_is_quiet(mid, record);
        lemma_outcome_concat(s, records_bytes(before), record_bytes(record));
        lemma_quiet_concat(s, records_bytes(before), record_bytes(record));
    }
}

/// A sound cluster passes quietly up to its last byte.
proof fn lemma_cluster_is_quiet_before_its_end(s: FsmView, records: Seq<WordRecord>)
    requires
        at_cluster_start(s),
        cluster_is_sound(records),
    ensures
        is_quiet(s, cluster_bytes(records).drop_last()),
{
    let length = cluster_word_length(records) as u8;
    let count = records.len() as u8;
    let last = records.len() - 1;
    let before = records.take(last);
    let tail = record_bytes(records.last());
    lemma_outcome_one(s, length);
    lemma_quiet_one(s, length);
    let s1 = step(s, length);
    lemma_outcome_one(s1, count);
    lemma_quiet_one(s1, count);
    let s2 = step(s1, count);
    lemma_outcome_concat(s, seq![length], seq![count]);
    lemma_quiet_concat(s, seq![length], seq![count]);
    assert(seq![length] + seq![count] =~= seq![length, count]);
    lemma_feed_records_prefix(s2, records, last);
    lemma_records_prefix_is_quiet(s2, records, last);
    let s3 = outcome(s2, records_bytes(before)).state;
    lemma_record_is_quiet(s3, records.last());
    lemma_quiet_concat(s2, records_bytes(before), tail.drop_last());
    lemma_quiet_concat(s, seq![length, count], records_bytes(before) + tail.drop_last());
    assert(tail.len() >= 1) by {
        let word = encode_utf8(records.last().word);
        assert(tail[word.len() as int] == records.last().postings.len() as u8);
    }
    assert(cluster_bytes(records).drop_last() =~= seq![length, count] + (records_bytes(before)
        + tail.drop_last()));
}

/// A cluster cut short adds nothing: whatever strict beginning of a sound
/// cluster is fed to a machine that stands before a cluster, the bytes are
/// taken and the result stays as it was.
pub proof fn lemma_cut_cluster_adds_nothing(s: FsmView, records: Seq<WordRecord>, n: int)
    requires
        at_cluster_start(s),
        cluster_is_sound(records),
        0 <= n < cluster_bytes(records).len(),
    ensures
        !outcome(s, cluster_bytes(records).take(n)).rejected,
        outcome(s, cluster_bytes(records).take(n)).state.merged == s.merged,
{
    let whole = cluster_bytes(records);
    lemma_cluster_is_quiet_before_its_end(s, records);
    lemma_quiet_prefix(s, whole.drop_last(), n);
    assert(whole.drop_last().take(n) =~= whole.take(n));
    lemma_quiet_run(s, whole.take(n));
}

/// A stream may stop inside a cluster: sound clusters followed by a strict
/// beginning of one more leave the whole clusters merged and the unfinished
/// one out.
pub proof fn lemma_cut_stream(
    s: FsmView,
    clusters: Seq<Seq<WordRecord>>,
    unfinished: Seq<WordRecord>,
    n: int,
)
    requires
        at_cluster_start(s),
        forall|i: int| 0 <= i < clusters.len() ==> cluster_is_sound(#[trigger] clusters[i]),
        cluster_is_sound(unfinished),
        0 <= n < cluster_bytes(unfinished).len(),
    ensures
        !outcome(s, stream_bytes(clusters) + cluster_bytes(unfinished).take(n)).rejected,
        outcome(s, stream_bytes(clusters) + cluster_bytes(unfinished).take(n)).state.merged
            == merged_clusters(s.merged, clusters),
{
    lemma_feed_stream(s, clusters);
    let mid = outcome(s, stream_bytes(clusters)).state;
    lemma_cut_cluster_adds_nothing(mid, unfinished, n);
    lemma_outcome_concat(s, stream_bytes(clusters), cluster_bytes(unfinished).take(n));
}

/// A payload may stop inside a cluster: it decodes to the index of the
/// clusters that are whole.
pub proof fn lemma_cut_payload_decodes(
    names: Seq<Seq<char>>,
    clusters: Seq<Seq<WordRecord>>,
    unfinished: Seq<WordRecord>,
    n: int,
)
    requires
        forall|i: int| 0 <= i < names.len() ==> name_is_sound(#[trigger] names[i]),
        forall|i: int| 0 <= i < clusters.len() ==> cluster_is_sound(#[trigger] clusters[i]),
        cluster_is_sound(unfinished),
        0 <= n < cluster_bytes(unfinished).len(),
    ensures
        payload_index(payload_bytes(names, clusters) + cluster_bytes(unfinished).take(n)) == Ok::<
            IndexView,
            IndexError,
        >(index_of(names, merged_clusters(Map::empty(), clusters))),
{
    let tail = cluster_bytes(unfinished).take(n);
    let data = payload_bytes(names, clusters) + tail;
    let stream = stream_bytes(clusters) + tail;
    assert(data =~= table_bytes(names) + stream);
    lemma_table_reads_back(names, stream);
    assert(data.skip(name_table(data).consumed as int) =~= stream);
    lemma_cut_stream(initial_state(), clusters, unfinished, n);
}

} // verus!
