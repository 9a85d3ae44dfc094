use fts_index::{IndexError, Posting, SearchResult, WordMap, FTS};
use std::io::Write;

const MAGIC: [u8; 5] = [0x6F, 0x77, 0x6C, 0x00, 0x01];

fn gzip(data: &[u8]) -> Vec<u8> {
    let mut encoder = flate2::write::GzEncoder::new(Vec::new(), flate2::Compression::default());
    encoder.write_all(data).unwrap();
    encoder.finish().unwrap()
}

fn envelope(compressed: &[u8]) -> Vec<u8> {
    let mut raw = MAGIC.to_vec();
    raw.extend_from_slice(&(compressed.len() as u32).to_be_bytes());
    raw.extend_from_slice(compressed);
    raw
}

fn encode(payload: &[u8]) -> String {
    base64::encode(envelope(&gzip(payload)))
}

fn names(list: &[&str]) -> Vec<u8> {
    let mut out = vec![0x02];
    for name in list {
        out.extend_from_slice(name.as_bytes());
        out.push(0);
    }
    out.push(0x03);
    out
}

fn cluster(words: &[(&str, &[(u16, u16)])]) -> Vec<u8> {
    let mut out = vec![words[0].0.len() as u8, words.len() as u8];
    for (word, postings) in words {
        out.extend_from_slice(word.as_bytes());
        out.push(postings.len() as u8);
        for (page, frequency) in postings.iter() {
            out.extend_from_slice(&page.to_be_bytes());
            out.extend_from_slice(&frequency.to_be_bytes());
        }
    }
    out
}

fn payload(pages: &[&str], clusters: &[Vec<u8>]) -> Vec<u8> {
    let mut out = names(pages);
    for c in clusters {
        out.extend_from_slice(c);
    }
    out
}

fn normalized(r: &SearchResult) -> f32 {
    r.score as f32 / r.max_score as f32
}

fn cat_and_dog() -> String {
    encode(&payload(
        &["home", "about"],
        &[cluster(&[("cat", &[(0, 2)]), ("dog", &[(0, 1), (1, 3)])])],
    ))
}

#[test]
fn one_word_one_posting() {
    let input = encode(&payload(&["home"], &[cluster(&[("cat", &[(0, 5)])])]));
    let fts = FTS::new(&input).unwrap();
    let results = fts.search("cat");
    assert_eq!(results.len(), 1);
    assert_eq!(results[0].page_index, 0);
    assert_eq!(results[0].page_id, "home");
    assert_eq!(results[0].score, 5);
    assert_eq!(results[0].max_score, 5);
    assert_eq!(normalized(&results[0]), 1.0);
}

#[test]
fn two_terms_add_their_frequencies() {
    let fts = FTS::new(&cat_and_dog()).unwrap();
    let results = fts.search("cat dog");
    assert_eq!(results.len(), 2);
    assert_eq!(results[0].page_index, 0);
    assert_eq!(results[0].score, 3);
    assert_eq!(results[0].page_id, "home");
    assert_eq!(results[1].page_index, 1);
    assert_eq!(results[1].score, 3);
    assert_eq!(results[1].page_id, "about");
    assert_eq!(normalized(&results[0]), 1.0);
    assert_eq!(normalized(&results[1]), 1.0);
}

#[test]
fn results_come_by_descending_score() {
    let fts = FTS::new(&cat_and_dog()).unwrap();
    let results = fts.search("dog");
    assert_eq!(results.len(), 2);
    assert_eq!(results[0].page_index, 1);
    assert_eq!(results[0].score, 3);
    assert_eq!(results[0].max_score, 3);
    assert_eq!(results[1].page_index, 0);
    assert_eq!(results[1].score, 1);
    assert_eq!(results[1].max_score, 3);
    assert_eq!(normalized(&results[0]), 1.0);
    assert_eq!(normalized(&results[1]), 1.0 / 3.0);
}

#[test]
fn equal_scores_come_by_ascending_ordinal() {
    let input = encode(&payload(
        &[],
        &[cluster(&[("x", &[(9, 4), (2, 4), (5, 7), (7, 4), (0, 1)])])],
    ));
    let fts = FTS::new(&input).unwrap();
    let order: Vec<(usize, u128)> = fts
        .search("x")
        .iter()
        .map(|r| (r.page_index, r.score))
        .collect();
    assert_eq!(order, vec![(5, 7), (2, 4), (7, 4), (9, 4), (0, 1)]);
}

#[test]
fn no_matching_term_no_results() {
    let fts = FTS::new(&cat_and_dog()).unwrap();
    assert_eq!(fts.search("cow").len(), 0);
    assert_eq!(fts.search("ca").len(), 0);
    assert_eq!(fts.search("cats dogs").len(), 0);
    assert_eq!(fts.search("").len(), 0);
    assert_eq!(fts.search(" ").len(), 0);
}

#[test]
fn the_empty_index_answers_nothing() {
    let fts = FTS::new(&encode(&payload(&[], &[]))).unwrap();
    assert_eq!(fts.page_count(), 0);
    assert_eq!(fts.search("cat").len(), 0);
}

#[test]
fn queries_are_folded_to_lower_case() {
    let fts = FTS::new(&cat_and_dog()).unwrap();
    let results = fts.search("CaT");
    assert_eq!(results.len(), 1);
    assert_eq!(results[0].page_index, 0);
    assert_eq!(results[0].score, 2);
    assert_eq!(fts.search_lowered("CaT").len(), 0);
    assert_eq!(fts.search_lowered("cat").len(), 1);
}

#[test]
fn words_are_matched_as_stored() {
    // Index words are not folded: an upper-case word is out of reach.
    let input = encode(&payload(&["p"], &[cluster(&[("Cat", &[(0, 1)])])]));
    let fts = FTS::new(&input).unwrap();
    assert_eq!(fts.search("Cat").len(), 0);
    assert_eq!(fts.search_lowered("Cat").len(), 1);
}

#[test]
fn empty_terms_match_nothing() {
    let fts = FTS::new(&cat_and_dog()).unwrap();
    let results = fts.search("  cat   ");
    assert_eq!(results.len(), 1);
    assert_eq!(results[0].score, 2);
}

#[test]
fn only_spaces_split_terms() {
    let fts = FTS::new(&cat_and_dog()).unwrap();
    assert_eq!(fts.search("cat\tdog").len(), 0);
    assert_eq!(fts.search("cat,dog").len(), 0);
}

#[test]
fn a_repeated_term_counts_each_time() {
    let fts = FTS::new(&cat_and_dog()).unwrap();
    let results = fts.search("dog dog cat");
    assert_eq!(results.len(), 2);
    assert_eq!((results[0].page_index, results[0].score), (1, 6));
    assert_eq!((results[1].page_index, results[1].score), (0, 4));
    assert_eq!(results[1].max_score, 6);
}

#[test]
fn an_ordinal_beyond_the_page_table_gets_the_placeholder() {
    let input = encode(&payload(
        &["only"],
        &[cluster(&[("cat", &[(0, 1), (1, 2), (65535, 3)])])],
    ));
    let fts = FTS::new(&input).unwrap();
    let results = fts.search("cat");
    assert_eq!(results.len(), 3);
    assert_eq!(results[0].page_index, 65535);
    assert_eq!(results[0].page_id, "[unknown]");
    assert_eq!(results[1].page_index, 1);
    assert_eq!(results[1].page_id, "[unknown]");
    assert_eq!(results[2].page_index, 0);
    assert_eq!(results[2].page_id, "only");
}

#[test]
fn a_repeated_ordinal_is_one_candidate_with_the_last_frequency() {
    let input = encode(&payload(
        &["a", "b"],
        &[cluster(&[("x", &[(1, 5), (0, 2), (1, 1)])])],
    ));
    let fts = FTS::new(&input).unwrap();
    assert_eq!(fts.word_pages("x"), Some(&vec![1, 0, 1]));
    assert_eq!(fts.word_frequency("x", 1), Some(1));
    assert_eq!(fts.word_frequency("x", 0), Some(2));
    assert_eq!(fts.word_frequency("x", 2), None);
    assert_eq!(fts.word_frequency("y", 0), None);
    let results = fts.search("x");
    assert_eq!(results.len(), 2);
    assert_eq!((results[0].page_index, results[0].score), (0, 2));
    assert_eq!((results[1].page_index, results[1].score), (1, 1));
}

#[test]
fn a_later_cluster_replaces_the_postings_of_a_word() {
    let input = encode(&payload(
        &["a", "b", "c"],
        &[
            cluster(&[("cat", &[(0, 9), (1, 9)])]),
            cluster(&[("cat", &[(2, 1)])]),
        ],
    ));
    let fts = FTS::new(&input).unwrap();
    let results = fts.search("cat");
    assert_eq!(results.len(), 1);
    assert_eq!(results[0].page_index, 2);
    assert_eq!(results[0].page_id, "c");
    assert_eq!(results[0].score, 1);
}

#[test]
fn the_page_table_keeps_its_order() {
    let input = encode(&payload(&["zeta", "alpha", "zeta"], &[]));
    let fts = FTS::new(&input).unwrap();
    assert_eq!(fts.page_count(), 3);
    assert_eq!(fts.page_id(0).map(|s| s.as_str()), Some("zeta"));
    assert_eq!(fts.page_id(1).map(|s| s.as_str()), Some("alpha"));
    assert_eq!(fts.page_id(2).map(|s| s.as_str()), Some("zeta"));
    assert_eq!(fts.page_id(3), None);
}

#[test]
fn decoding_twice_answers_alike() {
    let input = cat_and_dog();
    let first = FTS::new(&input).unwrap();
    let second = FTS::new(&input).unwrap();
    for query in ["cat", "dog", "cat dog", "DOG cat", "cow", ""] {
        let a: Vec<(String, usize, u128, u128)> = first
            .search(query)
            .into_iter()
            .map(|r| (r.page_id, r.page_index, r.score, r.max_score))
            .collect();
        let b: Vec<(String, usize, u128, u128)> = second
            .search(query)
            .into_iter()
            .map(|r| (r.page_id, r.page_index, r.score, r.max_score))
            .collect();
        assert_eq!(a, b);
    }
}

#[test]
fn two_words_of_one_cluster_share_their_length() {
    let input = encode(&payload(
        &["start", "next"],
        &[vec![
            3, 2, //
            b'c', b'a', b't', 1, 0, 0, 0, 2, //
            b'd', b'o', b'g', 1, 0, 1, 0, 3,
        ]],
    ));
    let fts = FTS::new(&input).unwrap();
    assert_eq!(fts.word_pages("cat"), Some(&vec![0]));
    assert_eq!(fts.word_pages("dog"), Some(&vec![1]));
    assert_eq!(fts.word_pages("ca"), None);
}

#[test]
fn a_cluster_with_mixed_word_lengths_decodes_or_fails_cleanly() {
    let input = encode(&payload(
        &["start"],
        &[vec![
            3, 2, //
            b'c', b'a', b't', 1, 0, 0, 0, 2, //
            b'o', b'x', 1, 0, 0, 0, 3,
        ]],
    ));
    match FTS::new(&input) {
        Ok(fts) => assert_eq!(fts.search("ox").len(), 0),
        Err(e) => assert_eq!(e, IndexError::InvalidEncoding),
    }
    let input = encode(&payload(
        &["start"],
        &[vec![
            2, 2, //
            b'o', b'x', 1, 0, 0, 0, 2, //
            0xFF, 0xFF, 1, 0, 0, 0, 3,
        ]],
    ));
    assert_eq!(FTS::new(&input).err(), Some(IndexError::InvalidEncoding));
}

#[test]
fn text_that_is_not_base64_is_an_invalid_input_encoding() {
    assert_eq!(
        FTS::new("not base64!").err(),
        Some(IndexError::InvalidInputEncoding)
    );
    assert_eq!(
        FTS::new("b3ds*AE=").err(),
        Some(IndexError::InvalidInputEncoding)
    );
    assert_eq!(FTS::new("b").err(), Some(IndexError::InvalidInputEncoding));
}

#[test]
fn a_short_or_wrong_header_is_an_invalid_format() {
    assert_eq!(FTS::new("").err(), Some(IndexError::InvalidFormat));
    assert_eq!(
        FTS::new(&base64::encode([0x6F, 0x77, 0x6C, 0x00])).err(),
        Some(IndexError::InvalidFormat)
    );
    assert_eq!(
        FTS::new(&base64::encode([0x6F, 0x77, 0x6C, 0x00, 0x02, 0, 0, 0, 0])).err(),
        Some(IndexError::InvalidFormat)
    );
    assert_eq!(
        FTS::new(&base64::encode(b"hello world")).err(),
        Some(IndexError::InvalidFormat)
    );
}

#[test]
fn a_declared_length_beyond_the_input_is_an_unexpected_end() {
    let compressed = gzip(&payload(&["p"], &[]));
    let mut raw = MAGIC.to_vec();
    raw.extend_from_slice(&(compressed.len() as u32 + 1).to_be_bytes());
    raw.extend_from_slice(&compressed);
    assert_eq!(
        FTS::new(&base64::encode(&raw)).err(),
        Some(IndexError::UnexpectedEnd)
    );
    assert_eq!(FTS::from_envelope(raw).err(), Some(IndexError::UnexpectedEnd));
}

#[test]
fn bytes_behind_the_payload_are_ignored() {
    let mut raw = envelope(&gzip(&payload(&["p"], &[cluster(&[("cat", &[(0, 1)])])])));
    raw.extend_from_slice(&[1, 2, 3]);
    let fts = FTS::from_envelope(raw).unwrap();
    assert_eq!(fts.search("cat").len(), 1);
}

#[test]
fn a_payload_that_is_not_gzip_is_a_decompression_failure() {
    let raw = envelope(&[1, 2, 3, 4, 5, 6, 7, 8, 9, 10, 11, 12]);
    assert_eq!(
        FTS::new(&base64::encode(&raw)).err(),
        Some(IndexError::DecompressionFailure)
    );
}

#[test]
fn a_header_without_a_whole_length_holds_an_empty_payload() {
    assert_eq!(
        FTS::new(&base64::encode(MAGIC)).err(),
        Some(IndexError::DecompressionFailure)
    );
    assert_eq!(
        FTS::new(&base64::encode([0x6F, 0x77, 0x6C, 0x00, 0x01, 0, 0])).err(),
        Some(IndexError::DecompressionFailure)
    );
}

#[test]
fn a_payload_without_the_names_marker_is_an_invalid_format() {
    assert_eq!(
        FTS::new(&encode(&[0x05, 0x03])).err(),
        Some(IndexError::InvalidFormat)
    );
    assert_eq!(FTS::new(&encode(&[])).err(), Some(IndexError::InvalidFormat));
    assert_eq!(
        FTS::from_payload(vec![]).err(),
        Some(IndexError::InvalidFormat)
    );
}

#[test]
fn a_name_table_without_its_end_is_an_unexpected_end() {
    assert_eq!(
        FTS::new(&encode(&[0x02, b'a', 0, b'b', 0])).err(),
        Some(IndexError::UnexpectedEnd)
    );
    assert_eq!(
        FTS::from_payload(vec![0x02, b'a']).err(),
        Some(IndexError::UnexpectedEnd)
    );
}

#[test]
fn a_name_that_is_not_text_is_an_invalid_encoding() {
    assert_eq!(
        FTS::new(&encode(&[0x02, 0xC3, 0x28, 0, 0x03])).err(),
        Some(IndexError::InvalidEncoding)
    );
}

#[test]
fn a_word_that_is_not_text_is_an_invalid_encoding() {
    let mut data = names(&["p"]);
    data.extend_from_slice(&[2, 1, 0xC3, 0x28, 1, 0, 0, 0, 1]);
    assert_eq!(
        FTS::new(&encode(&data)).err(),
        Some(IndexError::InvalidEncoding)
    );
    assert_eq!(
        FTS::from_payload(data).err(),
        Some(IndexError::InvalidEncoding)
    );
}

#[test]
fn a_payload_may_end_inside_a_cluster() {
    let mut data = payload(&["p"], &[cluster(&[("cat", &[(0, 1)])])]);
    data.extend_from_slice(&[3, 1, b'd', b'o']);
    let fts = FTS::from_payload(data).unwrap();
    assert_eq!(fts.search("cat").len(), 1);
    assert_eq!(fts.search("dog").len(), 0);
}

#[test]
fn an_index_is_built_from_its_parts() {
    let mut words = WordMap::new();
    words.insert(
        "cat".to_string(),
        vec![
            Posting { page: 1, frequency: 4 },
            Posting { page: 0, frequency: 4 },
        ],
    );
    words.insert("eel".to_string(), vec![]);
    let fts = FTS::from_parts(vec!["a".to_string(), "b".to_string()], &words);
    assert_eq!(fts.page_count(), 2);
    assert_eq!(fts.word_pages("cat"), Some(&vec![1, 0]));
    assert_eq!(fts.word_pages("eel"), Some(&vec![]));
    assert_eq!(fts.word_frequency("cat", 1), Some(4));
    let results = fts.search("cat eel");
    assert_eq!(results.len(), 2);
    assert_eq!(results[0].page_id, "a");
    assert_eq!(results[1].page_id, "b");
}

#[test]
fn a_frequency_of_zero_still_makes_a_candidate() {
    let input = encode(&payload(&["p"], &[cluster(&[("cat", &[(0, 0)])])]));
    let fts = FTS::new(&input).unwrap();
    let results = fts.search("cat");
    assert_eq!(results.len(), 1);
    assert_eq!(results[0].score, 0);
    assert_eq!(results[0].max_score, 0);
}

#[test]
fn multibyte_queries_are_split_by_characters() {
    let input = encode(&payload(
        &["p"],
        &[cluster(&[("é", &[(0, 1)])]), cluster(&[("ñandú", &[(0, 2)])])],
    ));
    let fts = FTS::new(&input).unwrap();
    let results = fts.search("É ÑANDÚ");
    assert_eq!(results.len(), 1);
    assert_eq!(results[0].score, 3);
}

#[test]
fn errors_describe_themselves() {
    assert_eq!(
        IndexError::InvalidInputEncoding.message(),
        "input is not valid base64"
    );
    assert_eq!(IndexError::InvalidFormat.message(), "invalid index format");
    assert_eq!(IndexError::UnexpectedEnd.message(), "unexpected end of data");
    assert_eq!(
        IndexError::DecompressionFailure.message(),
        "payload could not be decompressed"
    );
    assert_eq!(
        IndexError::InvalidEncoding.message(),
        "text is not valid UTF-8"
    );
}

#[test]
fn a_large_index_decodes_and_answers() {
    // 40 clusters of 250 five-letter words each; word number n occurs on
    // page n % 300 with frequency n % 7 + 1.
    let pages: Vec<String> = (0..300).map(|i| format!("page-{}", i)).collect();
    let page_refs: Vec<&str> = pages.iter().map(|s| s.as_str()).collect();
    let mut data = names(&page_refs);
    let mut words: Vec<String> = Vec::new();
    for c in 0..40u32 {
        data.push(5);
        data.push(250);
        for w in 0..250u32 {
            let n = c * 250 + w;
            let word = format!("w{:04}", n);
            data.extend_from_slice(word.as_bytes());
            data.push(1);
            data.extend_from_slice(&((n % 300) as u16).to_be_bytes());
            data.extend_from_slice(&((n % 7 + 1) as u16).to_be_bytes());
            words.push(word);
        }
    }
    let fts = FTS::new(&encode(&data)).unwrap();
    assert_eq!(fts.page_count(), 300);
    for n in [0usize, 1, 249, 250, 4321, 9999] {
        let results = fts.search(&words[n]);
        assert_eq!(results.len(), 1);
        assert_eq!(results[0].page_index, n % 300);
        assert_eq!(results[0].page_id, format!("page-{}", n % 300));
        assert_eq!(results[0].score, (n % 7 + 1) as u128);
    }
    let query = words.join(" ");
    let results = fts.search(&query);
    assert_eq!(results.len(), 300);
    for pair in results.windows(2) {
        assert!(
            pair[0].score > pair[1].score
                || (pair[0].score == pair[1].score && pair[0].page_index < pair[1].page_index)
        );
    }
    let total: u128 = results.iter().map(|r| r.score).sum();
    let expected: u128 = (0..10000u128).map(|n| n % 7 + 1).sum();
    assert_eq!(total, expected);
}
