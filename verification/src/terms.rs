//! Query terms: the pieces of a text between its spaces.

use vstd::prelude::*;
use vstd::string::StringSliceAdditionalSpecFns;
use vstd::utf8::{
    decode_utf8, decode_utf8_split, encode_scalar, encode_utf8, encode_utf8_decode_utf8,
    encode_utf8_valid_utf8, is_char_boundary, is_char_boundary_iff_not_is_continuation_byte,
    valid_utf8, valid_utf8_split,
};

verus! {

/// The pieces of a text between its space characters, in order. A text with
/// `n` spaces has `n + 1` pieces; two spaces in a row, or a space at either
/// end, give an empty piece.
pub open spec fn split_on_space(text: Seq<char>) -> Seq<Seq<char>>
    decreases text.len(),
{
    if text.len() == 0 {
        seq![Seq::empty()]
    } else {
        let before = split_on_space(text.drop_last());
        if text.last() == ' ' {
            before.push(Seq::empty())
        } else {
            before.drop_last().push(before.last().push(text.last()))
        }
    }
}

/// The pieces put back together, with one space between neighbours.
pub open spec fn join_with_spaces(pieces: Seq<Seq<char>>) -> Seq<char>
    decreases pieces.len(),
{
    if pieces.len() == 0 {
        Seq::empty()
    } else if pieces.len() == 1 {
        pieces[0]
    } else {
        join_with_spaces(pieces.drop_last()) + seq![' '] + pieces.last()
    }
}

/// Splitting loses nothing: there is at least one piece, no piece holds a
/// space, and the pieces joined by single spaces give the text back.
pub proof fn lemma_split_on_space(text: Seq<char>)
    ensures
        split_on_space(text).len() >= 1,
        forall|i: int|
            0 <= i < split_on_space(text).len() ==> !(#[trigger] split_on_space(text)[i]).contains(
                ' ',
            ),
        join_with_spaces(split_on_space(text)) == text,
    decreases text.len(),
{
    let pieces = split_on_space(text);
    if text.len() == 0 {
        assert(join_with_spaces(pieces) =~= text);
    } else {
        let shorter = text.drop_last();
        let before = split_on_space(shorter);
        lemma_split_on_space(shorter);
        let c = text.last();
        assert(text =~= shorter.push(c));
        if c == ' ' {
            assert(pieces.drop_last() =~= before);
            assert(join_with_spaces(pieces) =~= text);
            assert forall|i: int| 0 <= i < pieces.len() implies !(#[trigger] pieces[i]).contains(
                ' ',
            ) by {
                if i < before.len() {
                    assert(pieces[i] == before[i]);
                }
            }
        } else {
            let grown = before.last().push(c);
            assert forall|i: int| 0 <= i < pieces.len() implies !(#[trigger] pieces[i]).contains(
                ' ',
            ) by {
                if i < before.len() - 1 {
                    assert(pieces[i] == before[i]);
                } else {
                    assert(pieces[i] == grown);
                    if grown.contains(' ') {
                        let k = choose|k: int| 0 <= k < grown.len() && grown[k] == ' ';
                        assert(before.last()[k] == ' ');
                    }
                }
            }
            if before.len() == 1 {
                assert(join_with_spaces(pieces) =~= text);
            } else {
                assert(pieces.drop_last() =~= before.drop_last());
                assert(join_with_spaces(pieces) =~= join_with_spaces(before).push(c));
            }
        }
    }
}

/// The texts of a list of string slices.
pub open spec fn slice_texts(terms: Seq<&str>) -> Seq<Seq<char>> {
    Seq::new(terms.len(), |i: int| terms[i]@)
}

/// The byte that stands for a space in UTF-8.
pub const SPACE: u8 = 0x20;

/// A space encodes as the single byte [`SPACE`].
proof fn lemma_space_encoding()
    ensures
        encode_utf8(seq![' ']) == seq![SPACE],
{
    assert(' ' as u32 == 0x20);
    assert((0x20u32 & 0x7F) as u8 == 0x20u8) by (bit_vector);
    reveal_with_fuel(encode_utf8, 2);
}

/// A text with a space has the byte [`SPACE`] in its UTF-8 form.
proof fn lemma_space_shows_in_bytes(text: Seq<char>)
    requires
        text.contains(' '),
    ensures
        encode_utf8(text).contains(SPACE),
    decreases text.len(),
{
    let bytes = encode_utf8(text);
    let k = choose|k: int| 0 <= k < text.len() && text[k] == ' ';
    if text[0] == ' ' {
        assert(' ' as u32 == 0x20);
        assert((0x20u32 & 0x7F) as u8 == 0x20u8) by (bit_vector);
        assert(bytes[0] == SPACE);
    } else {
        let rest = text.drop_first();
        assert(rest[k - 1] == ' ');
        lemma_space_shows_in_bytes(rest);
        let j = choose|j: int| 0 <= j < encode_utf8(rest).len() && encode_utf8(rest)[j] == SPACE;
        let first = encode_scalar(text[0] as u32);
        assert(bytes[first.len() + j] == SPACE);
    }
}

/// A text without a space is a single piece.
proof fn lemma_split_without_space(text: Seq<char>)
    requires
        !text.contains(' '),
    ensures
        split_on_space(text) == seq![text],
    decreases text.len(),
{
    if text.len() == 0 {
        assert(text =~= Seq::<char>::empty());
    } else {
        let shorter = text.drop_last();
        assert(text[text.len() - 1] != ' ');
        if shorter.contains(' ') {
            let k = choose|k: int| 0 <= k < shorter.len() && shorter[k] == ' ';
            assert(text[k] == ' ');
        }
        lemma_split_without_space(shorter);
        assert(shorter.push(text.last()) =~= text);
        assert(split_on_space(text) =~= seq![text]);
    }
}

/// Behind a first piece without a space and the space that ends it, the
/// pieces are those of the rest.
proof fn lemma_split_at_first_space(head: Seq<char>, rest: Seq<char>)
    requires
        !head.contains(' '),
    ensures
        split_on_space(head + seq![' '] + rest) == seq![head] + split_on_space(rest),
    decreases rest.len(),
{
    let text = head + seq![' '] + rest;
    if rest.len() == 0 {
        assert(text.drop_last() =~= head);
        lemma_split_without_space(head);
        assert(split_on_space(text) =~= seq![head] + split_on_space(rest));
    } else {
        let shorter = rest.drop_last();
        assert(text.drop_last() =~= head + seq![' '] + shorter);
        assert(text.last() == rest.last());
        lemma_split_at_first_space(head, shorter);
        lemma_split_on_space(shorter);
        let before = split_on_space(shorter);
        let joined = seq![head] + before;
        if rest.last() == ' ' {
            assert(joined.push(Seq::<char>::empty()) =~= seq![head] + before.push(Seq::empty()));
        } else {
            assert(joined.last() == before.last());
            assert(joined.drop_last() =~= seq![head] + before.drop_last());
            assert(joined.drop_last().push(joined.last().push(rest.last())) =~= seq![head] + (
            before.drop_last().push(before.last().push(rest.last()))));
        }
    }
}

/// The text of a string slice is what its bytes decode to.
proof fn lemma_text_of_bytes(s: &str)
    ensures
        valid_utf8(s.spec_bytes()),
        s@ == decode_utf8(s.spec_bytes()),
{
    encode_utf8_valid_utf8(s@);
    encode_utf8_decode_utf8(s@);
}

/// Splits a text at every space character.
pub fn split_terms<'a>(text: &'a str) -> (terms: Vec<&'a str>)
    ensures
        slice_texts(terms@) == split_on_space(text@),
{
    let mut terms: Vec<&'a str> = Vec::new();
    let mut rest: &'a str = text;
    loop
        invariant_except_break
            split_on_space(text@) == slice_texts(terms@) + split_on_space(rest@),
        ensures
            slice_texts(terms@) == split_on_space(text@),
        decreases rest.spec_bytes().len(),
    {
        let bytes = rest.as_bytes();
        let mut i: usize = 0;
        while i < bytes.len() && bytes[i] != SPACE
            invariant
                i <= bytes@.len(),
                forall|j: int| 0 <= j < i ==> bytes@[j] != SPACE,
            decreases bytes@.len() - i,
        {
            i += 1;
        }
        let ghost before = slice_texts(terms@);
        if i == bytes.len() {
            proof {
                if rest@.contains(' ') {
                    lemma_space_shows_in_bytes(rest@);
                }
                lemma_split_without_space(rest@);
            }
            terms.push(rest);
            break ;
        }
        proof {
            lemma_text_of_bytes(rest);
            is_char_boundary_iff_not_is_continuation_byte(bytes@, i as int);
        }
        let (head, tail) = rest.split_at(i);
        proof {
            valid_utf8_split(bytes@, i as int);
            decode_utf8_split(bytes@, i as int);
            lemma_text_of_bytes(head);
            lemma_text_of_bytes(tail);
            assert(tail.spec_bytes()[0] == SPACE);
            reveal_with_fuel(is_char_boundary, 2);
        }
        let (space, after) = tail.split_at(1);
        proof {
            let tail_bytes = tail.spec_bytes();
            valid_utf8_split(tail_bytes, 1);
            decode_utf8_split(tail_bytes, 1);
            lemma_text_of_bytes(space);
            lemma_text_of_bytes(after);
            lemma_space_encoding();
            encode_utf8_decode_utf8(seq![' ']);
            assert(space@ == seq![' ']);
            assert(rest@ =~= head@ + seq![' '] + after@);
            if head@.contains(' ') {
                lemma_space_shows_in_bytes(head@);
                let j = choose|j: int|
                    0 <= j < head.spec_bytes().len() && head.spec_bytes()[j] == SPACE;
                assert(bytes@[j] == SPACE);
            }
            lemma_split_at_first_space(head@, after@);
        }
        terms.push(head);
        rest = after;
        assert(before + (seq![head@] + split_on_space(after@)) =~= (before + seq![head@])
            + split_on_space(after@));
    }
    terms
}

} // verus!
