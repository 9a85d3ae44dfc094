//! The outer layers of an encoded index: the magic prefix, the length-framed
//! compressed payload, and the page-name table that opens the payload.

use crate::buffer::{be_u32, Buffer, BufferView};
use crate::codec::{gzip_inflation, inflate_gzip, text_from_utf8};
use crate::error::IndexError;
use vstd::prelude::*;
use vstd::utf8::{decode_utf8, valid_utf8};

verus! {

/// The byte that opens the page-name table.
pub const NAMES_START: u8 = 0x02;

/// The byte that closes the page-name table.
pub const NAMES_END: u8 = 0x03;

/// The byte that ends one page name.
pub const NAME_END: u8 = 0x00;

/// The five bytes that open every envelope: the format tag and its version.
pub open spec fn magic() -> Seq<u8> {
    seq![0x6Fu8, 0x77u8, 0x6Cu8, 0x00u8, 0x01u8]
}

/// How many leading bytes of `bytes` agree with the magic prefix, where
/// `bytes` has at least five.
pub open spec fn magic_bytes_matched(bytes: Seq<u8>) -> nat {
    if bytes[0] != 0x6F {
        0
    } else if bytes[1] != 0x77 {
        1
    } else if bytes[2] != 0x6C {
        2
    } else if bytes[3] != 0x00 {
        3
    } else if bytes[4] != 0x01 {
        4
    } else {
        5
    }
}

/// Whether the unread bytes begin with the magic prefix.
pub open spec fn header_is_valid(v: BufferView) -> bool {
    v.remaining() >= 5 && v.unread().take(5) == magic()
}

/// How many bytes the header check reads: none from a buffer too short to
/// hold the prefix, otherwise every byte up to and including the first that
/// disagrees.
pub open spec fn header_bytes_read(v: BufferView) -> nat {
    if v.remaining() < 5 {
        0
    } else if magic_bytes_matched(v.unread()) == 5 {
        5
    } else {
        magic_bytes_matched(v.unread()) + 1
    }
}

/// Checks that the unread bytes begin with the magic prefix, reading them.
pub fn has_valid_header(buf: &mut Buffer) -> (valid: bool)
    requires
        old(buf).wf(),
    ensures
        final(buf).wf(),
        valid == header_is_valid(old(buf)@),
        final(buf)@ == old(buf)@.advanced(header_bytes_read(old(buf)@)),
{
    let expected: [u8; 5] = [0x6F, 0x77, 0x6C, 0x00, 0x01];
    if buf.remaining_size() < 5 {
        return false;
    }
    let ghost unread = buf@.unread();
    let mut i: usize = 0;
    while i < 5
        invariant
            i <= 5,
            buf.wf(),
            old(buf)@.remaining() >= 5,
            unread == old(buf)@.unread(),
            expected@ == magic(),
            buf@ == old(buf)@.advanced(i as nat),
            forall|j: int| 0 <= j < i ==> unread[j] == magic()[j],
        decreases 5 - i,
    {
        let byte: u8 = buf.next();
        if byte != expected[i] {
            return false;
        }
        i += 1;
    }
    assert(unread.take(5) =~= magic());
    true
}

/// Decompresses a gzip payload into a buffer positioned at its start.
pub fn read_compressed_stream(buf: Buffer) -> (result: Result<Buffer, IndexError>)
    ensures
        match result {
            Ok(data) => {
                &&& data.wf()
                &&& data@.position == 0
                &&& gzip_inflation(buf@.bytes) == Some(data@.bytes)
            },
            Err(e) => e == IndexError::DecompressionFailure && gzip_inflation(buf@.bytes) is None,
        },
{
    let compressed = buf.into_vec();
    match inflate_gzip(&compressed) {
        Ok(inflated) => Ok(Buffer::from_vec(inflated)),
        Err(_) => Err(IndexError::DecompressionFailure),
    }
}

/// What reading a page-name table comes to.
pub struct NameScan {
    /// The names completed before the scan stopped, in order.
    pub names: Seq<Seq<char>>,
    /// The number of bytes read, the one that stopped the scan included.
    pub consumed: nat,
    /// Why the scan failed, if it did.
    pub error: Option<IndexError>,
}

/// Scans the body of a name table. `pending` holds the bytes of the name in
/// progress. A zero byte completes the pending name, the end byte closes the
/// table, and any other byte joins the pending name. Bytes pending when the
/// table closes belong to no name.
pub open spec fn scan_names(bytes: Seq<u8>, pending: Seq<u8>) -> NameScan
    decreases bytes.len(),
{
    if bytes.len() == 0 {
        NameScan { names: Seq::empty(), consumed: 0, error: Some(IndexError::UnexpectedEnd) }
    } else if bytes[0] == NAMES_END {
        NameScan { names: Seq::empty(), consumed: 1, error: None }
    } else if bytes[0] == NAME_END {
        if valid_utf8(pending) {
            let rest = scan_names(bytes.drop_first(), Seq::empty());
            NameScan {
                names: seq![decode_utf8(pending)] + rest.names,
                consumed: rest.consumed + 1,
                error: rest.error,
            }
        } else {
            NameScan {
                names: Seq::empty(),
                consumed: 1,
                error: Some(IndexError::InvalidEncoding),
            }
        }
    } else {
        let rest = scan_names(bytes.drop_first(), pending.push(bytes[0]));
        NameScan { names: rest.names, consumed: rest.consumed + 1, error: rest.error }
    }
}

/// Reads a page-name table from the front of `bytes`: the start marker, then
/// the body.
pub open spec fn name_table(bytes: Seq<u8>) -> NameScan {
    if bytes.len() == 0 {
        NameScan { names: Seq::empty(), consumed: 0, error: Some(IndexError::InvalidFormat) }
    } else if bytes[0] != NAMES_START {
        NameScan { names: Seq::empty(), consumed: 1, error: Some(IndexError::InvalidFormat) }
    } else {
        let body = scan_names(bytes.drop_first(), Seq::empty());
        NameScan { names: body.names, consumed: body.consumed + 1, error: body.error }
    }
}

/// Whether `body[from..to]` is a name of a table body: a run of bytes other
/// than the name terminator that starts at the front or behind a terminator
/// and stops before one.
pub open spec fn is_name_span(body: Seq<u8>, from: int, to: int) -> bool {
    &&& 0 <= from <= to < body.len()
    &&& body[to] == NAME_END
    &&& (from == 0 || body[from - 1] == NAME_END)
    &&& forall|k: int| from <= k < to ==> body[k] != NAME_END
}

/// Scanning a body without an end marker from place `at`, with the name in
/// progress begun at `from`, fails.
proof fn lemma_scan_without_end(body: Seq<u8>, at: int, from: int)
    requires
        0 <= from <= at <= body.len(),
        forall|k: int| 0 <= k < body.len() ==> body[k] != NAMES_END,
        from == 0 || body[from - 1] == NAME_END,
        forall|k: int| from <= k < at ==> body[k] != NAME_END,
    ensures
        ({
            let scan = scan_names(body.skip(at), body.subrange(from, at));
            &&& scan.error == Some(IndexError::UnexpectedEnd) || scan.error == Some(
                IndexError::InvalidEncoding,
            )
            &&& (forall|i: int, j: int|
                is_name_span(body, i, j) ==> valid_utf8(body.subrange(i, j))) ==> scan.error
                == Some(IndexError::UnexpectedEnd)
        }),
    decreases body.len() - at,
{
    if at < body.len() {
        let rest = body.skip(at);
        assert(rest.drop_first() =~= body.skip(at + 1));
        if body[at] == NAME_END {
            assert(is_name_span(body, from, at));
            assert(body.subrange(at + 1, at + 1) =~= Seq::<u8>::empty());
            lemma_scan_without_end(body, at + 1, at + 1);
        } else {
            assert(body.subrange(from, at).push(body[at]) =~= body.subrange(from, at + 1));
            lemma_scan_without_end(body, at + 1, from);
        }
    }
}

/// A name table that lacks its end marker is refused: with an unexpected end
/// where every name in it is text, and else for the first name that is not.
pub proof fn lemma_unterminated_name_table(data: Seq<u8>)
    requires
        data.len() > 0,
        data[0] == NAMES_START,
        forall|k: int| 1 <= k < data.len() ==> data[k] != NAMES_END,
    ensures
        name_table(data).error == Some(IndexError::UnexpectedEnd) || name_table(data).error
            == Some(IndexError::InvalidEncoding),
        (forall|i: int, j: int|
            is_name_span(data.drop_first(), i, j) ==> valid_utf8(
                data.drop_first().subrange(i, j),
            )) ==> name_table(data).error == Some(IndexError::UnexpectedEnd),
{
    let body = data.drop_first();
    assert(body.skip(0) =~= body);
    assert(body.subrange(0, 0) =~= Seq::<u8>::empty());
    lemma_scan_without_end(body, 0, 0);
}

/// A scan reads no more bytes than there are.
proof fn lemma_scan_stays_in_bounds(bytes: Seq<u8>, pending: Seq<u8>)
    ensures
        scan_names(bytes, pending).consumed <= bytes.len(),
    decreases bytes.len(),
{
    if bytes.len() > 0 && bytes[0] != NAMES_END {
        if bytes[0] == NAME_END {
            lemma_scan_stays_in_bounds(bytes.drop_first(), Seq::empty());
        } else {
            lemma_scan_stays_in_bounds(bytes.drop_first(), pending.push(bytes[0]));
        }
    }
}

/// Reading a name table always comes to an end within the bytes given.
pub proof fn lemma_name_table_stays_in_bounds(data: Seq<u8>)
    ensures
        name_table(data).consumed <= data.len(),
{
    if data.len() > 0 {
        lemma_scan_stays_in_bounds(data.drop_first(), Seq::empty());
    }
}

/// The texts of a list of strings.
pub open spec fn texts(names: Seq<String>) -> Seq<Seq<char>> {
    Seq::new(names.len(), |i: int| names[i]@)
}

/// Reads the page-name table from the unread bytes and returns the names in
/// the order in which they are listed.
pub fn read_section_names(buf: &mut Buffer) -> (result: Result<Vec<String>, IndexError>)
    requires
        old(buf).wf(),
    ensures
        final(buf).wf(),
        final(buf)@ == old(buf)@.advanced(name_table(old(buf)@.unread()).consumed),
        match result {
            Ok(names) => {
                &&& name_table(old(buf)@.unread()).error is None
                &&& texts(names@) == name_table(old(buf)@.unread()).names
            },
            Err(e) => name_table(old(buf)@.unread()).error == Some(e),
        },
{
    if buf.remaining_size() == 0 {
        return Err(IndexError::InvalidFormat);
    }
    let ghost table = name_table(buf@.unread());
    let marker: u8 = buf.next();
    if marker != NAMES_START {
        return Err(IndexError::InvalidFormat);
    }
    assert(buf@.unread() =~= old(buf)@.unread().drop_first());
    let mut tmp_buf: Vec<u8> = Vec::with_capacity(512);
    let mut return_value: Vec<String> = Vec::new();
    let ghost mut taken: nat = 1;
    loop
        invariant_except_break
            buf@ == old(buf)@.advanced(taken),
            table.names == texts(return_value@) + scan_names(buf@.unread(), tmp_buf@).names,
            table.consumed == taken + scan_names(buf@.unread(), tmp_buf@).consumed,
            table.error == scan_names(buf@.unread(), tmp_buf@).error,
        invariant
            buf.wf(),
            table == name_table(old(buf)@.unread()),
        ensures
            buf.wf(),
            buf@ == old(buf)@.advanced(table.consumed),
            table.error is None,
            table.names == texts(return_value@),
            table == name_table(old(buf)@.unread()),
        decreases buf@.remaining(),
    {
        if buf.remaining_size() == 0 {
            return Err(IndexError::UnexpectedEnd);
        }
        let ghost unread = buf@.unread();
        let byte: u8 = buf.next();
        proof {
            assert(buf@.unread() =~= unread.drop_first());
            taken = taken + 1;
        }
        if byte == NAME_END {
            let bytes = tmp_buf.clone();
            match text_from_utf8(bytes) {
                Ok(name) => {
                    let ghost before = texts(return_value@);
                    return_value.push(name);
                    assert(before.push(name@) + scan_names(buf@.unread(), Seq::empty()).names
                        =~= before + (seq![name@] + scan_names(
                        buf@.unread(),
                        Seq::empty(),
                    ).names));
                },
                Err(_) => {
                    return Err(IndexError::InvalidEncoding);
                },
            }
            tmp_buf.clear();
        } else if byte == NAMES_END {
            break ;
        } else {
            tmp_buf.push(byte);
        }
    }
    Ok(return_value)
}

/// The compressed payload that an envelope frames: after the magic prefix, a
/// four-byte big-endian length and then that many bytes. Where fewer than
/// four bytes follow the prefix the length counts as zero.
pub open spec fn envelope_payload(raw: Seq<u8>) -> Result<Seq<u8>, IndexError> {
    if raw.len() < 5 || raw.take(5) != magic() {
        Err(IndexError::InvalidFormat)
    } else if raw.len() < 9 {
        Ok(Seq::empty())
    } else {
        let length = be_u32(raw[5], raw[6], raw[7], raw[8]);
        if length > raw.len() - 9 {
            Err(IndexError::UnexpectedEnd)
        } else {
            Ok(raw.subrange(9, 9 + length))
        }
    }
}

/// How many bytes reading an envelope consumes: the magic prefix as far as
/// it is checked and, behind a good prefix, the length field if it is whole.
/// The payload itself is copied without being consumed.
pub open spec fn envelope_bytes_read(raw: Seq<u8>) -> nat {
    if raw.len() < 5 {
        0
    } else if magic_bytes_matched(raw) < 5 {
        magic_bytes_matched(raw) + 1
    } else if raw.len() < 9 {
        5
    } else {
        9
    }
}

/// Checks the magic prefix at the front of the unread bytes and copies out
/// the compressed payload that the envelope frames.
pub fn read_envelope(buf: &mut Buffer) -> (result: Result<Buffer, IndexError>)
    requires
        old(buf).wf(),
    ensures
        final(buf).wf(),
        final(buf)@ == old(buf)@.advanced(envelope_bytes_read(old(buf)@.unread())),
        match result {
            Ok(payload) => {
                &&& payload.wf()
                &&& payload@.position == 0
                &&& envelope_payload(old(buf)@.unread()) == Ok::<Seq<u8>, IndexError>(
                    payload@.bytes,
                )
            },
            Err(e) => envelope_payload(old(buf)@.unread()) == Err::<Seq<u8>, IndexError>(e),
        },
{
    let ghost raw = buf@.unread();
    if !has_valid_header(buf) {
        assert(raw.len() >= 5 && magic_bytes_matched(raw) == 5 ==> raw.take(5) =~= magic());
        return Err(IndexError::InvalidFormat);
    }
    assert(magic_bytes_matched(raw) == 5) by {
        assert(forall|j: int| 0 <= j < 5 ==> raw[j] == raw.take(5)[j]);
    }
    let length: usize = buf.read_u32() as usize;
    match buf.read_subbuf(length) {
        Some(payload) => {
            assert(payload@.bytes =~= if raw.len() < 9 {
                Seq::<u8>::empty()
            } else {
                raw.subrange(9, 9 + length)
            });
            Ok(payload)
        },
        None => Err(IndexError::UnexpectedEnd),
    }
}

} // verus!
