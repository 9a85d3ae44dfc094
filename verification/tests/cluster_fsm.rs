use fts_index::{Buffer, ClusterFSM, IndexError, Posting, WordMap};

fn posting(page: u16, frequency: u16) -> Posting {
    Posting { page, frequency }
}

fn decode(bytes: Vec<u8>) -> Result<WordMap, IndexError> {
    let mut fsm = ClusterFSM::new();
    let mut buf = Buffer::from_vec(bytes);
    fsm.feed_buffer(&mut buf)
}

#[test]
fn no_bytes_no_words() {
    let words = decode(vec![]).unwrap();
    assert_eq!(words.len(), 0);
}

#[test]
fn one_cluster_one_word_one_posting() {
    let words = decode(vec![3, 1, b'c', b'a', b't', 1, 0, 0, 0, 5]).unwrap();
    assert_eq!(words.len(), 1);
    assert_eq!(words.get("cat"), Some(&vec![posting(0, 5)]));
}

#[test]
fn feed_buffer_reads_every_byte() {
    let mut fsm = ClusterFSM::new();
    let mut buf = Buffer::from_vec(vec![9, 3, 1, b'c', b'a', b't', 1, 0, 0, 0, 5, 2]);
    buf.next();
    let words = fsm.feed_buffer(&mut buf).unwrap();
    assert_eq!(buf.remaining_size(), 0);
    assert_eq!(words.len(), 1);
    assert_eq!(words.get("cat"), Some(&vec![posting(0, 5)]));
}

#[test]
fn two_words_share_the_cluster_word_length() {
    let words = decode(vec![
        3, 2, //
        b'c', b'a', b't', 1, 0, 0, 0, 2, //
        b'd', b'o', b'g', 2, 0, 0, 0, 1, 0, 1, 0, 3,
    ])
    .unwrap();
    assert_eq!(words.len(), 2);
    assert_eq!(words.get("cat"), Some(&vec![posting(0, 2)]));
    assert_eq!(words.get("dog"), Some(&vec![posting(0, 1), posting(1, 3)]));
}

#[test]
fn postings_are_big_endian_pairs() {
    let words = decode(vec![1, 1, b'x', 1, 0x12, 0x34, 0xAB, 0xCD]).unwrap();
    assert_eq!(words.get("x"), Some(&vec![posting(0x1234, 0xABCD)]));
}

#[test]
fn a_second_cluster_reads_a_new_word_length() {
    let words = decode(vec![
        1, 1, b'a', 1, 0, 1, 0, 1, //
        2, 1, b'b', b'c', 1, 0, 2, 0, 2,
    ])
    .unwrap();
    assert_eq!(words.len(), 2);
    assert_eq!(words.get("a"), Some(&vec![posting(1, 1)]));
    assert_eq!(words.get("bc"), Some(&vec![posting(2, 2)]));
}

#[test]
fn a_later_cluster_replaces_an_earlier_word() {
    let words = decode(vec![
        3, 1, b'c', b'a', b't', 2, 0, 0, 0, 1, 0, 1, 0, 1, //
        3, 1, b'c', b'a', b't', 1, 0, 7, 0, 9,
    ])
    .unwrap();
    assert_eq!(words.len(), 1);
    assert_eq!(words.get("cat"), Some(&vec![posting(7, 9)]));
}

#[test]
fn an_unfinished_cluster_is_left_out() {
    let words = decode(vec![
        1, 1, b'a', 1, 0, 1, 0, 1, //
        1, 2, b'b', 1, 0, 2, 0, 2, //
    ])
    .unwrap();
    assert_eq!(words.len(), 1);
    assert_eq!(words.get("a"), Some(&vec![posting(1, 1)]));
    assert!(words.get("b").is_none());
}

#[test]
fn input_may_stop_inside_any_field() {
    let full: Vec<u8> = vec![3, 1, b'c', b'a', b't', 1, 0, 0, 0, 5];
    for cut in 0..full.len() {
        let words = decode(full[..cut].to_vec()).unwrap();
        assert_eq!(words.len(), 0);
    }
    assert_eq!(decode(full).unwrap().len(), 1);
}

#[test]
fn a_repeated_word_counts_once_towards_the_cluster_length() {
    // Two distinct words are announced; the second entry repeats the first,
    // so the cluster is only complete after a third entry.
    let words = decode(vec![
        1, 2, //
        b'a', 1, 0, 1, 0, 1, //
        b'a', 1, 0, 2, 0, 2, //
    ])
    .unwrap();
    assert_eq!(words.len(), 0);

    let words = decode(vec![
        1, 2, //
        b'a', 1, 0, 1, 0, 1, //
        b'a', 1, 0, 2, 0, 2, //
        b'b', 1, 0, 3, 0, 3, //
    ])
    .unwrap();
    assert_eq!(words.len(), 2);
    assert_eq!(words.get("a"), Some(&vec![posting(2, 2)]));
    assert_eq!(words.get("b"), Some(&vec![posting(3, 3)]));
}

#[test]
fn a_posting_count_of_zero_still_reads_one_posting() {
    let words = decode(vec![1, 1, b'a', 0, 0, 4, 0, 6]).unwrap();
    assert_eq!(words.len(), 1);
    assert_eq!(words.get("a"), Some(&vec![posting(4, 6)]));
}

#[test]
fn a_word_length_of_zero_never_completes_a_word() {
    let words = decode(vec![0, 1, b'a', 1, 0, 1, 0, 1, 1, 1, b'b', 1, 0, 2, 0, 2]).unwrap();
    assert_eq!(words.len(), 0);
}

#[test]
fn a_cluster_length_of_zero_never_merges() {
    let words = decode(vec![1, 0, b'a', 1, 0, 1, 0, 1, b'b', 1, 0, 2, 0, 2]).unwrap();
    assert_eq!(words.len(), 0);
}

#[test]
fn repeated_ordinals_are_kept_in_the_posting_list() {
    let words = decode(vec![1, 1, b'a', 3, 0, 1, 0, 1, 0, 2, 0, 2, 0, 1, 0, 9]).unwrap();
    assert_eq!(
        words.get("a"),
        Some(&vec![posting(1, 1), posting(2, 2), posting(1, 9)])
    );
}

#[test]
fn multibyte_words_are_decoded_as_text() {
    // "é" takes two bytes.
    let words = decode(vec![2, 1, 0xC3, 0xA9, 1, 0, 0, 0, 1]).unwrap();
    assert_eq!(words.get("é"), Some(&vec![posting(0, 1)]));
}

#[test]
fn an_invalid_word_aborts_the_decode() {
    let result = decode(vec![
        1, 1, b'a', 1, 0, 1, 0, 1, //
        2, 1, 0xFF, 0xFE, 1, 0, 0, 0, 1,
    ]);
    assert_eq!(result.err(), Some(IndexError::InvalidEncoding));
}

#[test]
fn feeding_stops_at_the_refused_byte() {
    let mut fsm = ClusterFSM::new();
    let mut buf = Buffer::from_vec(vec![1, 1, 0xFF, 1, 0, 0, 0, 1]);
    assert_eq!(
        fsm.feed_buffer(&mut buf).err(),
        Some(IndexError::InvalidEncoding)
    );
    assert_eq!(buf.remaining_size(), 5);
}

#[test]
fn a_word_split_across_the_wrong_length_fails_cleanly_or_decodes() {
    // The cluster announces three-byte words, but the second word has four
    // bytes: its last byte is taken for the posting count and the decode
    // goes on with shifted fields.
    let result = decode(vec![
        3, 2, //
        b'c', b'a', b't', 1, 0, 0, 0, 2, //
        b'd', b'o', b'g', b's', 1, 0, 0, 0, 1,
    ]);
    match result {
        Ok(words) => assert_eq!(words.len(), 0),
        Err(e) => assert_eq!(e, IndexError::InvalidEncoding),
    }
    // Here the shifted bytes of the second word are not text.
    let result = decode(vec![
        2, 2, //
        b'h', b'i', 1, 0, 0, 0, 2, //
        b'y', 1, 0xC3, 0, 0, 0,
    ]);
    assert!(matches!(result, Ok(_) | Err(IndexError::InvalidEncoding)));
}

#[test]
fn feed_takes_one_byte_at_a_time() {
    let mut fsm = ClusterFSM::new();
    for b in [3u8, 1, b'c', b'a', b't', 1, 0, 0, 0, 5] {
        assert_eq!(fsm.feed(b), Ok(()));
    }
    let mut rest = Buffer::new();
    let words = fsm.feed_buffer(&mut rest).unwrap();
    assert_eq!(words.get("cat"), Some(&vec![posting(0, 5)]));
}

#[test]
fn feed_refuses_the_byte_that_completes_an_invalid_word() {
    let mut fsm = ClusterFSM::new();
    assert_eq!(fsm.feed(2), Ok(()));
    assert_eq!(fsm.feed(1), Ok(()));
    assert_eq!(fsm.feed(0xC3), Ok(()));
    assert_eq!(fsm.feed(b'a'), Err(IndexError::InvalidEncoding));
}

#[test]
fn feed_buffer_returns_everything_merged_so_far() {
    let mut fsm = ClusterFSM::new();
    let mut first = Buffer::from_vec(vec![1, 1, b'a', 1, 0, 1, 0, 1]);
    let words = fsm.feed_buffer(&mut first).unwrap();
    assert_eq!(words.len(), 1);
    let mut second = Buffer::from_vec(vec![1, 1, b'b', 1, 0, 2, 0, 2]);
    let words = fsm.feed_buffer(&mut second).unwrap();
    assert_eq!(words.len(), 2);
    assert_eq!(words.get("a"), Some(&vec![posting(1, 1)]));
    assert_eq!(words.get("b"), Some(&vec![posting(2, 2)]));
}
