//! Matches found byte by byte, read as matches among characters.
//!
//! A search compares the bytes of the UTF-8 forms of a text and a word. No character's
//! bytes can be taken for the start of another's, so what it finds are the places where
//! the word stands among the characters of the text. The laws here prove it.

use crate::search::contains_bytes;
use crate::search::occurs_at;
use crate::search::stands_in;
use crate::text::byte_len;
use crate::text::lemma_byte_len_encoded;
use vstd::prelude::*;
use vstd::utf8::decode_utf8;
use vstd::utf8::encode_utf8;
use vstd::utf8::is_char_boundary;
use vstd::utf8::length_of_first_scalar;
use vstd::utf8::pop_first_scalar;
use vstd::utf8::valid_utf8;

verus! {

/// The UTF-8 form of two texts put together is their UTF-8 forms put together.
proof fn lemma_encode_concat(front: Seq<char>, back: Seq<char>)
    ensures
        encode_utf8(front + back) == encode_utf8(front) + encode_utf8(back),
    decreases front.len(),
{
    if front.len() == 0 {
        assert(front + back == back);
        assert(encode_utf8(front) + encode_utf8(back) == encode_utf8(back));
    } else {
        assert((front + back).drop_first() == front.drop_first() + back);
        lemma_encode_concat(front.drop_first(), back);
        assert(encode_utf8(front + back) == vstd::utf8::encode_scalar(front[0] as u32) + (encode_utf8(
            front.drop_first(),
        ) + encode_utf8(back)));
    }
}

/// Where valid UTF-8 starts with a valid piece of UTF-8, a character ends where the
/// piece ends.
proof fn lemma_prefix_boundary(bytes: Seq<u8>, piece: Seq<u8>)
    requires
        valid_utf8(bytes),
        valid_utf8(piece),
        piece.len() <= bytes.len(),
        bytes.subrange(0, piece.len() as int) == piece,
    ensures
        is_char_boundary(bytes, piece.len() as int),
    decreases piece.len(),
{
    if piece.len() > 0 {
        assert(bytes[0] == piece[0]);
        let width = length_of_first_scalar(piece);
        assert(length_of_first_scalar(bytes) == width);
        assert(1 <= width <= piece.len());
        let rest = pop_first_scalar(bytes);
        let piece_rest = pop_first_scalar(piece);
        assert(rest.subrange(0, piece_rest.len() as int) == piece_rest) by {
            assert forall|i: int| 0 <= i < piece_rest.len() implies rest.subrange(0, piece_rest.len() as int)[i]
                == piece_rest[i] by {
                assert(bytes.subrange(0, piece.len() as int)[width + i] == piece[width + i]);
            }
            assert(rest.subrange(0, piece_rest.len() as int) =~= piece_rest);
        }
        lemma_prefix_boundary(rest, piece_rest);
    }
}

/// A piece of valid UTF-8 that stands in valid UTF-8 starts where a character starts.
proof fn lemma_piece_starts_character(bytes: Seq<u8>, piece: Seq<u8>, at: int)
    requires
        valid_utf8(bytes),
        valid_utf8(piece),
        piece.len() > 0,
        occurs_at(bytes, piece, at),
    ensures
        is_char_boundary(bytes, at),
{
    assert(bytes[at] == piece[0]) by {
        assert(bytes.subrange(at, at + piece.len())[0] == piece[0]);
    }
    vstd::utf8::is_char_boundary_start_end_of_seq(piece);
    vstd::utf8::is_char_boundary_iff_not_is_continuation_byte(piece, 0);
    vstd::utf8::is_char_boundary_iff_not_is_continuation_byte(bytes, at);
}

/// Valid UTF-8 in which a valid piece stands reads as what comes before the piece, then
/// the piece, then what comes after it.
proof fn lemma_decode_around(bytes: Seq<u8>, piece: Seq<u8>, at: int)
    requires
        valid_utf8(bytes),
        valid_utf8(piece),
        piece.len() > 0,
        occurs_at(bytes, piece, at),
    ensures
        valid_utf8(bytes.subrange(0, at)),
        decode_utf8(bytes) == decode_utf8(bytes.subrange(0, at)) + (decode_utf8(piece) + decode_utf8(
            bytes.subrange(at + piece.len(), bytes.len() as int),
        )),
{
    lemma_piece_starts_character(bytes, piece, at);
    let from = bytes.subrange(at, bytes.len() as int);
    vstd::utf8::valid_utf8_split(bytes, at);
    vstd::utf8::decode_utf8_split(bytes, at);
    assert(from.subrange(0, piece.len() as int) == piece) by {
        assert(from.subrange(0, piece.len() as int) =~= bytes.subrange(at, at + piece.len()));
    }
    lemma_prefix_boundary(from, piece);
    vstd::utf8::decode_utf8_split(from, piece.len() as int);
    assert(from.subrange(piece.len() as int, from.len() as int) == bytes.subrange(
        at + piece.len(),
        bytes.len() as int,
    )) by {
        assert(from.subrange(piece.len() as int, from.len() as int) =~= bytes.subrange(
            at + piece.len(),
            bytes.len() as int,
        ));
    }
}

/// A word that stands in a text at a byte offset stands there among its characters: the
/// offset is the byte length of the text before the character at which the word starts.
proof fn lemma_found_among_characters(text: Seq<char>, word: Seq<char>, at: int) -> (j: int)
    requires
        word.len() > 0,
        occurs_at(encode_utf8(text), encode_utf8(word), at),
    ensures
        stands_in(text, word, j),
        at == byte_len(text.take(j)),
{
    let hay = encode_utf8(text);
    let needle = encode_utf8(word);
    vstd::utf8::encode_utf8_valid_utf8(text);
    vstd::utf8::encode_utf8_valid_utf8(word);
    vstd::utf8::encode_utf8_decode_utf8(text);
    vstd::utf8::encode_utf8_decode_utf8(word);
    assert(needle.len() > 0) by {
        lemma_byte_len_encoded(word);
        assert(word.drop_last().push(word.last()) == word);
    }
    lemma_decode_around(hay, needle, at);
    let before = hay.subrange(0, at);
    let head = decode_utf8(before);
    let tail = decode_utf8(hay.subrange(at + needle.len(), hay.len() as int));
    let j = head.len() as int;
    assert(text == head + (word + tail));
    assert(text.subrange(j, j + word.len()) == word) by {
        assert(text.subrange(j, j + word.len()) =~= word);
    }
    assert(text.take(j) == head) by {
        assert(text.take(j) =~= head);
    }
    assert(byte_len(head) == at) by {
        vstd::utf8::decode_utf8_encode_utf8(before);
        lemma_byte_len_encoded(head);
    }
    j
}

/// A word that stands among the characters of a text stands in its UTF-8 form, at the
/// byte length of the text before it.
proof fn lemma_found_among_bytes(text: Seq<char>, word: Seq<char>, j: int)
    requires
        stands_in(text, word, j),
    ensures
        occurs_at(encode_utf8(text), encode_utf8(word), byte_len(text.take(j)) as int),
{
    let head = text.take(j);
    let tail = text.skip(j + word.len());
    assert(text == head + (word + tail)) by {
        assert(text =~= head + (word + tail));
    }
    lemma_encode_concat(head, word + tail);
    lemma_encode_concat(word, tail);
    lemma_byte_len_encoded(head);
    let at = byte_len(head) as int;
    let hay = encode_utf8(text);
    let needle = encode_utf8(word);
    assert(hay.subrange(at, at + needle.len()) == needle) by {
        assert(hay.subrange(at, at + needle.len()) =~= needle);
    }
}

/// A word of at least one character stands in a text at a byte offset exactly where it
/// stands among the characters of the text: the offset is the byte length of the text
/// before that character.
pub proof fn lemma_occurrence_on_characters(text: Seq<char>, word: Seq<char>, at: int)
    requires
        word.len() > 0,
    ensures
        occurs_at(encode_utf8(text), encode_utf8(word), at) <==> exists|j: int|
            #[trigger] stands_in(text, word, j) && at == byte_len(text.take(j)),
{
    if occurs_at(encode_utf8(text), encode_utf8(word), at) {
        let j = lemma_found_among_characters(text, word, at);
        assert(stands_in(text, word, j) && at == byte_len(text.take(j)));
    }
    if exists|j: int| #[trigger] stands_in(text, word, j) && at == byte_len(text.take(j)) {
        let j = choose|j: int| #[trigger] stands_in(text, word, j) && at == byte_len(text.take(j));
        lemma_found_among_bytes(text, word, j);
    }
}

/// A word stands somewhere in the UTF-8 form of a text exactly if it stands somewhere
/// among the characters of the text.
pub proof fn lemma_contains_on_characters(text: Seq<char>, word: Seq<char>)
    ensures
        contains_bytes(encode_utf8(text), encode_utf8(word)) <==> exists|j: int|
            #[trigger] stands_in(text, word, j),
{
    if word.len() == 0 {
        assert(encode_utf8(word) == Seq::<u8>::empty());
        assert(encode_utf8(text).subrange(0, 0) == Seq::<u8>::empty());
        assert(occurs_at(encode_utf8(text), encode_utf8(word), 0));
        assert(text.subrange(0, 0) == word);
        assert(stands_in(text, word, 0));
    } else {
        if contains_bytes(encode_utf8(text), encode_utf8(word)) {
            let at = choose|at: int| occurs_at(encode_utf8(text), encode_utf8(word), at);
            lemma_occurrence_on_characters(text, word, at);
        }
        if exists|j: int| #[trigger] stands_in(text, word, j) {
            let j = choose|j: int| #[trigger] stands_in(text, word, j);
            lemma_occurrence_on_characters(text, word, byte_len(text.take(j)) as int);
            assert(occurs_at(encode_utf8(text), encode_utf8(word), byte_len(text.take(j)) as int));
        }
    }
}

} // verus!
