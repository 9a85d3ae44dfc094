use fts_index::Buffer;

#[test]
fn new_buffer_is_empty() {
    let b = Buffer::new();
    assert_eq!(b.len(), 0);
    assert_eq!(b.remaining_size(), 0);
}

#[test]
fn from_vec_starts_at_the_first_byte() {
    let mut b = Buffer::from_vec(vec![7, 8, 9]);
    assert_eq!(b.len(), 3);
    assert_eq!(b.remaining_size(), 3);
    assert_eq!(b.next(), 7);
    assert_eq!(b.next(), 8);
    assert_eq!(b.remaining_size(), 1);
    assert_eq!(b.len(), 3);
    assert_eq!(b.next(), 9);
    assert_eq!(b.remaining_size(), 0);
}

#[test]
fn into_vec_returns_all_bytes_read_or_not() {
    let mut b = Buffer::from_vec(vec![1, 2, 3]);
    b.next();
    assert_eq!(b.into_vec(), vec![1, 2, 3]);
}

#[test]
fn read_u16_is_big_endian() {
    let mut b = Buffer::from_vec(vec![0x12, 0x34, 0xFF, 0xFE]);
    assert_eq!(b.read_u16(), 0x1234);
    assert_eq!(b.remaining_size(), 2);
    assert_eq!(b.read_u16(), 0xFFFE);
    assert_eq!(b.remaining_size(), 0);
}

#[test]
fn read_u32_is_big_endian() {
    let mut b = Buffer::from_vec(vec![0x01, 0x02, 0x03, 0x04, 0xFF, 0xFF, 0xFF, 0xFF]);
    assert_eq!(b.read_u32(), 0x01020304);
    assert_eq!(b.remaining_size(), 4);
    assert_eq!(b.read_u32(), 0xFFFF_FFFF);
    assert_eq!(b.remaining_size(), 0);
}

#[test]
fn short_reads_give_zero_and_read_nothing() {
    let mut b = Buffer::from_vec(vec![0xAB]);
    assert_eq!(b.read_u16(), 0);
    assert_eq!(b.remaining_size(), 1);
    assert_eq!(b.next(), 0xAB);

    let mut c = Buffer::from_vec(vec![1, 2, 3]);
    assert_eq!(c.read_u32(), 0);
    assert_eq!(c.remaining_size(), 3);
    assert_eq!(c.read_u16(), 0x0102);

    let mut d = Buffer::new();
    assert_eq!(d.read_u16(), 0);
    assert_eq!(d.read_u32(), 0);
}

#[test]
fn read_subbuf_copies_without_advancing() {
    let mut b = Buffer::from_vec(vec![10, 20, 30, 40, 50]);
    b.next();
    let mut sub = b.read_subbuf(3).expect("three bytes remain");
    assert_eq!(b.remaining_size(), 4);
    assert_eq!(b.next(), 20);
    assert_eq!(sub.len(), 3);
    assert_eq!(sub.remaining_size(), 3);
    assert_eq!(sub.next(), 20);
    assert_eq!(sub.into_vec(), vec![20, 30, 40]);
}

#[test]
fn read_subbuf_of_everything_left() {
    let mut b = Buffer::from_vec(vec![1, 2, 3]);
    b.next();
    let sub = b.read_subbuf(2).expect("two bytes remain");
    assert_eq!(sub.into_vec(), vec![2, 3]);
    let empty = b.read_subbuf(0).expect("nothing is always there");
    assert_eq!(empty.len(), 0);
}

#[test]
fn read_subbuf_fails_beyond_the_end() {
    let mut b = Buffer::from_vec(vec![1, 2, 3]);
    assert!(b.read_subbuf(4).is_none());
    b.next();
    b.next();
    assert!(b.read_subbuf(2).is_none());
    assert!(b.read_subbuf(3).is_none());
    assert_eq!(b.remaining_size(), 1);
    assert!(b.read_subbuf(1).is_some());
}

#[test]
fn push_appends_and_reset_empties() {
    let mut b = Buffer::new();
    b.push(0x01);
    b.push(0x02);
    assert_eq!(b.len(), 2);
    assert_eq!(b.remaining_size(), 2);
    assert_eq!(b.read_u16(), 0x0102);
    assert_eq!(b.remaining_size(), 0);
    b.reset();
    assert_eq!(b.len(), 0);
    assert_eq!(b.remaining_size(), 0);
    b.push(0xFF);
    assert_eq!(b.next(), 0xFF);
}

#[test]
fn push_keeps_the_read_position() {
    let mut b = Buffer::from_vec(vec![1, 2]);
    b.next();
    b.push(3);
    assert_eq!(b.remaining_size(), 2);
    assert_eq!(b.next(), 2);
    assert_eq!(b.next(), 3);
}

#[test]
fn a_byte_vector_converts_to_a_buffer() {
    let mut b = Buffer::from(vec![4, 5]);
    assert_eq!(b.len(), 2);
    assert_eq!(b.remaining_size(), 2);
    assert_eq!(b.next(), 4);
    let mut c: Buffer = vec![6].into();
    assert_eq!(c.next(), 6);
}
