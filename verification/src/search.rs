//! Evaluating a free-text query against an index.
//!
//! A query is folded to lower case and split at its spaces into terms. Every
//! page listed for a term is a candidate. The raw score of a candidate is
//! the sum, over all terms, of the frequency that the term records for the
//! page; a term thus also counts for a page that another term proposed.
//! Candidates are reported by descending raw score and, between equal
//! scores, by ascending page ordinal.

use crate::codec::{lowercase_of, to_lowercase};
use crate::error::IndexError;
use crate::index::{decoded_index, IndexView, FTS};
use crate::rank::{precedes, rank, Scored};
use crate::terms::{slice_texts, split_on_space, split_terms};
use std::collections::HashSet;
use vstd::prelude::*;
use vstd::seq_lib::lemma_seq_contains_after_push;

verus! {

broadcast use vstd::std_specs::hash::group_hash_axioms;

/// The identifier reported for a page ordinal that the page table lacks.
pub open spec fn placeholder() -> Seq<char> {
    "[unknown]"@
}

/// The identifier of a page: its entry in the page table, or the placeholder
/// where the table has none.
pub open spec fn page_identifier(pages: Seq<Seq<char>>, ordinal: int) -> Seq<char> {
    if 0 <= ordinal < pages.len() {
        pages[ordinal]
    } else {
        placeholder()
    }
}

/// The terms of a query: its lower-case form, split at the spaces.
pub open spec fn query_terms(query: Seq<char>) -> Seq<Seq<char>> {
    split_on_space(lowercase_of(query))
}

/// Whether some term lists the page among its postings.
pub open spec fn is_candidate(idx: IndexView, terms: Seq<Seq<char>>, ordinal: u16) -> bool {
    exists|t: int|
        0 <= t < terms.len() && idx.ordinals.contains_key(#[trigger] terms[t])
            && idx.ordinals[terms[t]].contains(ordinal)
}

/// What one term contributes to the score of a page.
pub open spec fn term_frequency(idx: IndexView, term: Seq<char>, ordinal: u16) -> nat {
    if idx.frequencies.contains_key(term) && idx.frequencies[term].contains_key(ordinal) {
        idx.frequencies[term][ordinal] as nat
    } else {
        0
    }
}

/// The raw score of a page: the contributions of all terms, a repeated term
/// counting each time.
pub open spec fn raw_score(idx: IndexView, terms: Seq<Seq<char>>, ordinal: u16) -> nat
    decreases terms.len(),
{
    if terms.len() == 0 {
        0
    } else {
        raw_score(idx, terms.drop_last(), ordinal) + term_frequency(idx, terms.last(), ordinal)
    }
}

/// One entry of a search result. The normalized score of the entry is
/// `score / max_score`.
#[derive(Debug)]
pub struct SearchResult {
    /// The identifier of the page.
    pub page_id: String,
    /// The ordinal of the page.
    pub page_index: usize,
    /// The raw score of the page.
    pub score: u128,
    /// The highest raw score among the entries of the same result.
    pub max_score: u128,
}

/// What a [`SearchResult`] is, mathematically.
pub struct Hit {
    pub page_id: Seq<char>,
    pub page_index: nat,
    pub score: nat,
    pub max_score: nat,
}

impl View for SearchResult {
    type V = Hit;

    open spec fn view(&self) -> Hit {
        Hit {
            page_id: self.page_id@,
            page_index: self.page_index as nat,
            score: self.score as nat,
            max_score: self.max_score as nat,
        }
    }
}

/// The entries of a result list.
pub open spec fn hits(results: Seq<SearchResult>) -> Seq<Hit> {
    Seq::new(results.len(), |i: int| results[i]@)
}

/// Whether `a` is reported before `b`: by the higher score, then by the
/// lower ordinal.
pub open spec fn reported_before(a: Hit, b: Hit) -> bool {
    a.score > b.score || (a.score == b.score && a.page_index < b.page_index)
}

/// Whether `list` is the answer to the query made of `terms`: it has one
/// entry for each candidate page and no other, each with the page's
/// identifier, its raw score and the top score, in reporting order.
pub open spec fn is_answer(idx: IndexView, terms: Seq<Seq<char>>, list: Seq<Hit>) -> bool {
    &&& forall|i: int|
        0 <= i < list.len() ==> {
            let hit = #[trigger] list[i];
            &&& hit.page_index <= u16::MAX
            &&& is_candidate(idx, terms, hit.page_index as u16)
            &&& hit.score == raw_score(idx, terms, hit.page_index as u16)
            &&& hit.max_score == list[0].score
            &&& hit.page_id == page_identifier(idx.pages, hit.page_index as int)
        }
    &&& forall|ordinal: u16| #[trigger]
        is_candidate(idx, terms, ordinal) ==> exists|i: int|
            0 <= i < list.len() && (#[trigger] list[i]).page_index == ordinal
    &&& forall|i: int, j: int|
        0 <= i < j < list.len() ==> reported_before(#[trigger] list[i], #[trigger] list[j])
}

/// A page is a candidate for `terms` with one more term exactly if it was
/// one before or the new term lists it.
proof fn lemma_candidate_push(idx: IndexView, terms: Seq<Seq<char>>, term: Seq<char>, ordinal: u16)
    ensures
        is_candidate(idx, terms.push(term), ordinal) <==> is_candidate(idx, terms, ordinal) || (
        idx.ordinals.contains_key(term) && idx.ordinals[term].contains(ordinal)),
{
    let longer = terms.push(term);
    if is_candidate(idx, terms, ordinal) {
        let t = choose|t: int|
            0 <= t < terms.len() && idx.ordinals.contains_key(#[trigger] terms[t])
                && idx.ordinals[terms[t]].contains(ordinal);
        assert(longer[t] == terms[t]);
    }
    if idx.ordinals.contains_key(term) && idx.ordinals[term].contains(ordinal) {
        assert(longer[terms.len() as int] == term);
    }
    if is_candidate(idx, longer, ordinal) {
        let t = choose|t: int|
            0 <= t < longer.len() && idx.ordinals.contains_key(#[trigger] longer[t])
                && idx.ordinals[longer[t]].contains(ordinal);
        if t < terms.len() {
            assert(terms[t] == longer[t]);
        }
    }
}

/// A raw score is at most the highest frequency times the number of terms.
proof fn lemma_raw_score_bound(idx: IndexView, terms: Seq<Seq<char>>, ordinal: u16)
    ensures
        raw_score(idx, terms, ordinal) <= 0xFFFF * terms.len(),
    decreases terms.len(),
{
    if terms.len() > 0 {
        lemma_raw_score_bound(idx, terms.drop_last(), ordinal);
    }
}

impl FTS {
    /// Lists every page that some term proposes, each once.
    fn gather_candidates(&self, terms: &Vec<&str>) -> (candidates: Vec<u16>)
        ensures
            candidates@.no_duplicates(),
            forall|ordinal: u16|
                candidates@.contains(ordinal) <==> is_candidate(
                    self@,
                    slice_texts(terms@),
                    ordinal,
                ),
    {
        let ghost all = slice_texts(terms@);
        let mut seen: HashSet<u16> = HashSet::new();
        let mut candidates: Vec<u16> = Vec::new();
        let mut t: usize = 0;
        while t < terms.len()
            invariant
                t <= terms.len(),
                all == slice_texts(terms@),
                candidates@.no_duplicates(),
                forall|ordinal: u16| candidates@.contains(ordinal) <==> seen@.contains(ordinal),
                forall|ordinal: u16|
                    seen@.contains(ordinal) <==> is_candidate(self@, all.take(t as int), ordinal),
            decreases terms.len() - t,
        {
            let ghost sofar = all.take(t as int);
            let ghost term = all[t as int];
            match self.word_pages(terms[t]) {
                Some(pages) => {
                    let mut j: usize = 0;
                    while j < pages.len()
                        invariant
                            j <= pages.len(),
                            candidates@.no_duplicates(),
                            forall|ordinal: u16|
                                candidates@.contains(ordinal) <==> seen@.contains(ordinal),
                            forall|ordinal: u16|
                                seen@.contains(ordinal) <==> is_candidate(self@, sofar, ordinal)
                                    || pages@.take(j as int).contains(ordinal),
                        decreases pages.len() - j,
                    {
                        let ordinal: u16 = pages[j];
                        let ghost listed = candidates@;
                        proof {
                            assert(pages@.take(j + 1) =~= pages@.take(j as int).push(ordinal));
                            assert forall|o: u16|
                                pages@.take(j + 1).contains(o) <==> pages@.take(
                                    j as int,
                                ).contains(o) || o == ordinal by {
                                lemma_seq_contains_after_push(pages@.take(j as int), ordinal, o);
                            }
                        }
                        if seen.insert(ordinal) {
                            candidates.push(ordinal);
                            proof {
                                assert forall|o: u16|
                                    candidates@.contains(o) <==> listed.contains(o) || o
                                        == ordinal by {
                                    lemma_seq_contains_after_push(listed, ordinal, o);
                                }
                            }
                        }
                        j += 1;
                    }
                    assert(pages@.take(j as int) =~= pages@);
                },
                None => {},
            }
            proof {
                assert(all.take(t + 1) =~= sofar.push(term));
                assert forall|ordinal: u16|
                    seen@.contains(ordinal) <==> is_candidate(
                        self@,
                        all.take(t + 1),
                        ordinal,
                    ) by {
                    lemma_candidate_push(self@, sofar, term, ordinal);
                }
            }
            t += 1;
        }
        assert(all.take(t as int) =~= all);
        candidates
    }

    /// Adds up what the terms contribute to each candidate.
    fn score_candidates(&self, terms: &Vec<&str>, candidates: &Vec<u16>) -> (scored: Vec<Scored>)
        ensures
            scored@.len() == candidates@.len(),
            forall|k: int|
                0 <= k < scored@.len() ==> (#[trigger] scored@[k]).ordinal == candidates@[k]
                    && scored@[k].score == raw_score(
                    self@,
                    slice_texts(terms@),
                    candidates@[k],
                ),
    {
        let ghost all = slice_texts(terms@);
        let mut scored: Vec<Scored> = Vec::with_capacity(candidates.len());
        let mut k: usize = 0;
        while k < candidates.len()
            invariant
                k <= candidates.len(),
                all == slice_texts(terms@),
                scored@.len() == k,
                forall|m: int|
                    0 <= m < k ==> (#[trigger] scored@[m]).ordinal == candidates@[m]
                        && scored@[m].score == raw_score(self@, all, candidates@[m]),
            decreases candidates.len() - k,
        {
            let ordinal: u16 = candidates[k];
            let mut score: u128 = 0;
            let mut t: usize = 0;
            while t < terms.len()
                invariant
                    t <= terms.len(),
                    all == slice_texts(terms@),
                    score == raw_score(self@, all.take(t as int), ordinal),
                decreases terms.len() - t,
            {
                proof {
                    assert(all.take(t + 1).drop_last() =~= all.take(t as int));
                    lemma_raw_score_bound(self@, all.take(t + 1), ordinal);
                }
                match self.word_frequency(terms[t], ordinal) {
                    Some(frequency) => {
                        score = score + frequency as u128;
                    },
                    None => {},
                }
                t += 1;
            }
            assert(all.take(t as int) =~= all);
            scored.push(Scored { ordinal, score });
            k += 1;
        }
        scored
    }

    /// Turns ranked candidates into result entries.
    fn resolve(&self, ranked: &Vec<Scored>) -> (results: Vec<SearchResult>)
        ensures
            results@.len() == ranked@.len(),
            forall|k: int|
                0 <= k < results@.len() ==> (#[trigger] results@[k])@ == (Hit {
                    page_id: page_identifier(self@.pages, ranked@[k].ordinal as int),
                    page_index: ranked@[k].ordinal as nat,
                    score: ranked@[k].score as nat,
                    max_score: ranked@[0].score as nat,
                }),
    {
        let mut results: Vec<SearchResult> = Vec::with_capacity(ranked.len());
        let mut k: usize = 0;
        while k < ranked.len()
            invariant
                k <= ranked.len(),
                results@.len() == k,
                forall|m: int|
                    0 <= m < k ==> (#[trigger] results@[m])@ == (Hit {
                        page_id: page_identifier(self@.pages, ranked@[m].ordinal as int),
                        page_index: ranked@[m].ordinal as nat,
                        score: ranked@[m].score as nat,
                        max_score: ranked@[0].score as nat,
                    }),
            decreases ranked.len() - k,
        {
            let entry = ranked[k];
            let page_id = match self.page_id(entry.ordinal as usize) {
                Some(name) => name.clone(),
                None => "[unknown]".to_owned(),
            };
            results.push(
                SearchResult {
                    page_id,
                    page_index: entry.ordinal as usize,
                    score: entry.score,
                    max_score: ranked[0].score,
                },
            );
            k += 1;
        }
        results
    }

    /// Answers a query that is already in lower case.
    pub fn search_lowered(&self, query: &str) -> (results: Vec<SearchResult>)
        ensures
            is_answer(self@, split_on_space(query@), hits(results@)),
    {
        let terms = split_terms(query);
        let candidates = self.gather_candidates(&terms);
        let scored = self.score_candidates(&terms, &candidates);
        let ranked = rank(&scored);
        let results = self.resolve(&ranked);
        proof {
            let idx = self@;
            let all = split_on_space(query@);
            let list = hits(results@);
            assert forall|k: int| 0 <= k < ranked@.len() implies exists|m: int|
                0 <= m < scored@.len() && scored@[m] == #[trigger] ranked@[k] by {
                assert(ranked@.contains(ranked@[k]));
            }
            assert forall|i: int| 0 <= i < list.len() implies {
                let hit = #[trigger] list[i];
                &&& hit.page_index <= u16::MAX
                &&& is_candidate(idx, all, hit.page_index as u16)
                &&& hit.score == raw_score(idx, all, hit.page_index as u16)
                &&& hit.max_score == list[0].score
                &&& hit.page_id == page_identifier(idx.pages, hit.page_index as int)
            } by {
                let m = choose|m: int| 0 <= m < scored@.len() && scored@[m] == ranked@[i];
                assert(candidates@.contains(candidates@[m]));
            }
            assert forall|ordinal: u16| #[trigger] is_candidate(idx, all, ordinal) implies exists|
                i: int,
            |
                0 <= i < list.len() && (#[trigger] list[i]).page_index == ordinal by {
                assert(candidates@.contains(ordinal));
                let m = choose|m: int| 0 <= m < candidates@.len() && candidates@[m] == ordinal;
                assert(scored@.contains(scored@[m]));
                assert(ranked@.contains(scored@[m]));
                let i = choose|i: int| 0 <= i < ranked@.len() && ranked@[i] == scored@[m];
                assert(list[i] == results@[i]@);
            }
            assert forall|i: int, j: int| 0 <= i < j < list.len() implies reported_before(
                #[trigger] list[i],
                #[trigger] list[j],
            ) by {
                assert(precedes(ranked@[i], ranked@[j]));
            }
        }
        results
    }

    /// Answers a free-text query.
    pub fn search(&self, input: &str) -> (results: Vec<SearchResult>)
        ensures
            is_answer(self@, query_terms(input@), hits(results@)),
    {
        let lowered = to_lowercase(input);
        self.search_lowered(lowered.as_str())
    }
}

/// A query none of whose terms is a word of the index has no results.
pub proof fn lemma_no_match_no_results(idx: IndexView, terms: Seq<Seq<char>>, list: Seq<Hit>)
    requires
        is_answer(idx, terms, list),
        forall|t: int| 0 <= t < terms.len() ==> !idx.ordinals.contains_key(#[trigger] terms[t]),
    ensures
        list.len() == 0,
{
    if list.len() > 0 {
        assert(is_candidate(idx, terms, list[0].page_index as u16));
    }
}

/// A page ordinal that the page table does not reach is reported under the
/// placeholder identifier.
pub proof fn lemma_unknown_page_gets_placeholder(
    idx: IndexView,
    terms: Seq<Seq<char>>,
    list: Seq<Hit>,
    i: int,
)
    requires
        is_answer(idx, terms, list),
        0 <= i < list.len(),
        list[i].page_index >= idx.pages.len(),
    ensures
        list[i].page_id == placeholder(),
{
}

/// Every entry of an answer scores at most the top score, which the first
/// entry attains.
pub proof fn lemma_top_score_is_highest(
    idx: IndexView,
    terms: Seq<Seq<char>>,
    list: Seq<Hit>,
    i: int,
)
    requires
        is_answer(idx, terms, list),
        0 <= i < list.len(),
    ensures
        list[i].score <= list[i].max_score,
        list[0].score == list[i].max_score,
{
    if i > 0 {
        assert(reported_before(list[0], list[i]));
    }
}

/// Two answers to one query agree on their first entries, as far as the
/// first of them goes.
proof fn lemma_answers_agree_at(
    idx: IndexView,
    terms: Seq<Seq<char>>,
    a: Seq<Hit>,
    b: Seq<Hit>,
    i: int,
)
    requires
        is_answer(idx, terms, a),
        is_answer(idx, terms, b),
        0 <= i < a.len(),
    ensures
        i < b.len(),
        a[i].page_index == b[i].page_index,
    decreases i,
{
    let ordinal = a[i].page_index as u16;
    assert(is_candidate(idx, terms, ordinal));
    let j = choose|j: int| 0 <= j < b.len() && (#[trigger] b[j]).page_index == ordinal;
    if j < i {
        // b[j] is a candidate, so it is in a, and by induction at place j.
        assert(is_candidate(idx, terms, b[j].page_index as u16));
        let k = choose|k: int|
            0 <= k < a.len() && (#[trigger] a[k]).page_index == b[j].page_index;
        if k < i {
            assert(reported_before(a[k], a[i]));
        } else if k > i {
            assert(reported_before(a[i], a[k]));
        }
        lemma_answers_agree_at(idx, terms, a, b, j);
        assert(reported_before(a[j], a[i]));
    } else if j > i {
        let other = b[i].page_index as u16;
        assert(is_candidate(idx, terms, other));
        let k = choose|k: int| 0 <= k < a.len() && (#[trigger] a[k]).page_index == other;
        assert(reported_before(b[i], b[j]));
        if k < i {
            lemma_answers_agree_at(idx, terms, a, b, k);
            assert(reported_before(b[k], b[i]));
        } else if k > i {
            assert(reported_before(a[i], a[k]));
        }
    }
}

/// A query has one answer only: the conditions of [`is_answer`] leave
/// nothing open, not even the order of pages with equal scores.
pub proof fn lemma_answer_is_unique(
    idx: IndexView,
    terms: Seq<Seq<char>>,
    a: Seq<Hit>,
    b: Seq<Hit>,
)
    requires
        is_answer(idx, terms, a),
        is_answer(idx, terms, b),
    ensures
        a == b,
{
    if a.len() > 0 {
        lemma_answers_agree_at(idx, terms, a, b, a.len() - 1);
        lemma_answers_agree_at(idx, terms, a, b, 0);
    }
    if b.len() > 0 {
        lemma_answers_agree_at(idx, terms, b, a, b.len() - 1);
    }
    assert forall|i: int| 0 <= i < a.len() implies a[i] == b[i] by {
        lemma_answers_agree_at(idx, terms, a, b, i);
    }
}

/// Decoding the same text twice and asking the same query of both indexes
/// gives the same answer.
pub proof fn lemma_same_text_same_answer(
    input: Seq<char>,
    query: Seq<char>,
    first: IndexView,
    second: IndexView,
    a: Seq<Hit>,
    b: Seq<Hit>,
)
    requires
        decoded_index(input) == Ok::<IndexView, IndexError>(first),
        decoded_index(input) == Ok::<IndexView, IndexError>(second),
        is_answer(first, query_terms(query), a),
        is_answer(second, query_terms(query), b),
    ensures
        a == b,
{
    lemma_answer_is_unique(first, query_terms(query), a, b);
}

} // verus!
