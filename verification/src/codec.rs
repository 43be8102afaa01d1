//! The sentence codec: from the bytes of a token to a sentence of a profile,
//! and from a sentence back to the bytes.

use crate::bits::{bits_bytes, bytes_bits, de_partition, lemma_bytes_bits_shape, lemma_bytes_round_trip};
use crate::lexicon::Lexicon;
use crate::numeral::{
    decimal, is_numeral, lemma_decimal_reads_back, numeral_value, parse_number, render_number,
};
use crate::profile::{Layout, Piece, Profile, Slot};
use crate::segments::{
    assemble_bits, fits, lemma_segment_values_fit, lemma_segments_round_trip, lemma_width_bound,
    partition, segment_bits, segment_values, total_width,
};
use crate::sentence::{all_no_space, join, join_words, lemma_split_join, split, split_words};
use crate::words::{lemma_index_of_word_at, no_space, texts};
use vstd::arithmetic::power2::*;
use vstd::prelude::*;
use vstd::string::*;

verus! {

/// Why a sentence could not be read.
#[derive(Clone, Copy, Debug, PartialEq, Eq, Structural)]
pub enum DecodeError {
    /// The sentence has fewer tokens than the profile's template.
    TooFewTokens,
    /// The token at this place of the sentence is not a word that its segment
    /// can stand for.
    UnknownWord(usize),
    /// The token at this place of the sentence is not a number that its
    /// segment can hold.
    MalformedNumeral(usize),
}

/// What a segment of the given value is written as.
pub open spec fn slot_text(lexicon: &Lexicon, slot: Slot, value: u16) -> Seq<char> {
    match slot {
        Slot::Word(id) => lexicon.words(id)[value as int],
        Slot::Number => decimal(value as nat),
    }
}

/// The tokens of the sentence for the given segment values: the connectives
/// as they are, and for each segment its word or number.
pub open spec fn sentence_tokens(lexicon: &Lexicon, layout: Layout, values: Seq<u16>) -> Seq<
    Seq<char>,
> {
    Seq::new(
        layout.template.len(),
        |t: int|
            match layout.template[t] {
                Piece::Connective(text) => text@,
                Piece::Slot(k) => slot_text(lexicon, layout.slots[k as int], values[k as int]),
            },
    )
}

/// The sentence of a token's bytes.
pub open spec fn sentence_of(lexicon: &Lexicon, layout: Layout, bytes: Seq<u8>) -> Seq<char> {
    join(sentence_tokens(lexicon, layout, segment_values(layout.widths, bytes_bits(bytes))))
}

/// The value that a token stands for in a segment of the given width: the
/// index of the word in the category, or the value of the numeral, if that is
/// below two to the power of the width.
pub open spec fn reading(lexicon: &Lexicon, slot: Slot, width: u8, token: Seq<char>) -> Option<
    u16,
> {
    match slot {
        Slot::Word(id) => match lexicon.words(id).index_of_first(token) {
            Some(index) => if index < pow2(width as nat) {
                Some(index as u16)
            } else {
                None
            },
            None => None,
        },
        Slot::Number => if is_numeral(token) && numeral_value(token) < pow2(width as nat) {
            Some(numeral_value(token) as u16)
        } else {
            None
        },
    }
}

/// What each segment reads from its place among the tokens.
pub open spec fn readings(lexicon: &Lexicon, layout: Layout, tokens: Seq<Seq<char>>) -> Seq<
    Option<u16>,
> {
    Seq::new(
        layout.slots.len(),
        |k: int|
            reading(lexicon, layout.slots[k], layout.widths[k], tokens[layout.positions[k] as int]),
    )
}

/// Segment `k` is the first that could not be read.
pub open spec fn unread_first(read: Seq<Option<u16>>, k: int) -> bool {
    &&& 0 <= k < read.len()
    &&& read[k] is None
    &&& forall|j: int| 0 <= j < k ==> read[j] is Some
}

/// Every segment could be read.
pub open spec fn all_read(read: Seq<Option<u16>>) -> bool {
    forall|k: int| 0 <= k < read.len() ==> read[k] is Some
}

/// The values that were read.
pub open spec fn read_values(read: Seq<Option<u16>>) -> Seq<u16> {
    Seq::new(read.len(), |k: int| read[k]->Some_0)
}

/// The error for a segment that could not be read.
pub open spec fn slot_error(layout: Layout, k: int) -> DecodeError {
    match layout.slots[k] {
        Slot::Word(_) => DecodeError::UnknownWord(layout.positions[k]),
        Slot::Number => DecodeError::MalformedNumeral(layout.positions[k]),
    }
}

/// What reading a sentence gives. The sentence is cut at its spaces. With
/// fewer tokens than the template it is refused. Then each segment reads the
/// token at its place; connectives and tokens after the template are not
/// looked at. The first segment that cannot be read decides the error. If all
/// can be read, the values are written at their widths and packed into bytes.
pub open spec fn decoded(lexicon: &Lexicon, layout: Layout, sentence: Seq<char>) -> Result<
    Seq<u8>,
    DecodeError,
> {
    let tokens = split(sentence);
    let read = readings(lexicon, layout, tokens);
    if tokens.len() < layout.template.len() {
        Err(DecodeError::TooFewTokens)
    } else if all_read(read) {
        Ok(bits_bytes(segment_bits(layout.widths, read_values(read))))
    } else {
        Err(slot_error(layout, choose|k: int| unread_first(read, k)))
    }
}

/// Only one segment can be the first that could not be read.
pub proof fn lemma_unread_first_unique(read: Seq<Option<u16>>, k: int)
    requires
        unread_first(read, k),
    ensures
        !all_read(read),
        (choose|j: int| unread_first(read, j)) == k,
{
    let chosen = choose|j: int| unread_first(read, j);
    assert(unread_first(read, chosen));
    if chosen < k {
        assert(read[chosen] is Some);
    } else if k < chosen {
        assert(read[k] is Some);
    }
}

/// Reading the sentence of a token gives the token, for every profile that
/// covers the whole token and every lexicon that serves it.
pub proof fn lemma_decode_encode(lexicon: &Lexicon, layout: Layout, bytes: Seq<u8>)
    requires
        lexicon.wf(),
        layout.wf(),
        layout.covers_token(),
        layout.served_by(lexicon),
        bytes.len() == 16,
    ensures
        decoded(lexicon, layout, sentence_of(lexicon, layout, bytes)) == Ok::<
            Seq<u8>,
            DecodeError,
        >(bytes),
{
    let bits = bytes_bits(bytes);
    let values = segment_values(layout.widths, bits);
    let tokens = sentence_tokens(lexicon, layout, values);
    lemma_bytes_bits_shape(bytes);
    lemma_segment_values_fit(layout.widths, bits);
    lemma_tokens_no_space(lexicon, layout, values);
    assert(layout.widths.len() > 0) by {
        if layout.widths.len() == 0 {
            assert(total_width(layout.widths) == 0);
        }
    }
    assert(layout.positions[0] < layout.template.len());
    lemma_split_join(tokens);
    let read = readings(lexicon, layout, tokens);
    assert forall|k: int| 0 <= k < read.len() implies read[k] == Some(values[k]) by {
        lemma_reading_of_slot_text(lexicon, layout, values, k);
    }
    assert(read_values(read) =~= values);
    lemma_segments_round_trip(layout.widths, bits);
    assert(bits.take(128) =~= bits);
    lemma_bytes_round_trip(bytes);
}

/// No token of a written sentence holds a space.
pub proof fn lemma_tokens_no_space(lexicon: &Lexicon, layout: Layout, values: Seq<u16>)
    requires
        lexicon.wf(),
        layout.wf(),
        layout.served_by(lexicon),
        fits(layout.widths, values),
        values.len() == layout.widths.len(),
    ensures
        all_no_space(sentence_tokens(lexicon, layout, values)),
{
    let tokens = sentence_tokens(lexicon, layout, values);
    assert forall|t: int| 0 <= t < tokens.len() implies no_space(#[trigger] tokens[t]) by {
        match layout.template[t] {
            Piece::Connective(text) => {},
            Piece::Slot(k) => {
                lemma_slot_text(lexicon, layout, values, k as int);
            },
        }
    }
}

/// What a segment is written as holds no space, and a word stands in its
/// category at the segment's value.
pub proof fn lemma_slot_text(lexicon: &Lexicon, layout: Layout, values: Seq<u16>, k: int)
    requires
        lexicon.wf(),
        layout.wf(),
        layout.served_by(lexicon),
        fits(layout.widths, values),
        values.len() == layout.widths.len(),
        0 <= k < layout.slots.len(),
    ensures
        no_space(slot_text(lexicon, layout.slots[k], values[k])),
        match layout.slots[k] {
            Slot::Word(id) => values[k] < lexicon.words(id).len(),
            Slot::Number => true,
        },
{
    assert((values[k] as nat) < pow2(layout.widths[k] as nat));
    match layout.slots[k] {
        Slot::Word(id) => {
            let list = lexicon.words(id);
            assert(no_space(list[values[k] as int]));
        },
        Slot::Number => {
            lemma_decimal_reads_back(values[k] as nat);
            let text = decimal(values[k] as nat);
            assert forall|i: int| 0 <= i < text.len() implies #[trigger] text[i] != ' ' by {
                assert(text.contains(text[i]));
            }
        },
    }
}

/// A segment reads its own value from what it was written as.
pub proof fn lemma_reading_of_slot_text(
    lexicon: &Lexicon,
    layout: Layout,
    values: Seq<u16>,
    k: int,
)
    requires
        lexicon.wf(),
        layout.wf(),
        layout.served_by(lexicon),
        fits(layout.widths, values),
        values.len() == layout.widths.len(),
        0 <= k < layout.slots.len(),
    ensures
        readings(lexicon, layout, sentence_tokens(lexicon, layout, values))[k] == Some(values[k]),
{
    let tokens = sentence_tokens(lexicon, layout, values);
    let at = layout.positions[k] as int;
    assert(layout.template[at] matches Piece::Slot(j) && j == k);
    assert(tokens[at] == slot_text(lexicon, layout.slots[k], values[k]));
    lemma_slot_text(lexicon, layout, values, k);
    assert((values[k] as nat) < pow2(layout.widths[k] as nat));
    match layout.slots[k] {
        Slot::Word(id) => {
            lemma_index_of_word_at(lexicon.words(id), values[k] as int);
        },
        Slot::Number => {
            lemma_decimal_reads_back(values[k] as nat);
        },
    }
}

/// Two to the power of a segment's width.
pub fn two_to(width: u8) -> (n: u32)
    requires
        width <= 16,
    ensures
        n == pow2(width as nat),
{
    let mut n: u32 = 1;
    let mut i: u8 = 0;
    proof {
        lemma2_to64();
    }
    while i < width
        invariant
            i <= width <= 16,
            n == pow2(i as nat),
        decreases width - i,
    {
        proof {
            lemma_pow2_unfold((i + 1) as nat);
            lemma_pow2_strictly_increases(i as nat, 16);
            lemma2_to64();
        }
        n = 2 * n;
        i = i + 1;
    }
    n
}

/// Writes the sentence of a token under a profile.
pub fn encode(lexicon: &Lexicon, profile: &Profile, bytes: &[u8; 16]) -> (sentence: String)
    requires
        lexicon.wf(),
        profile@.wf(),
        profile@.served_by(lexicon),
    ensures
        sentence@ == sentence_of(lexicon, profile@, bytes@),
{
    let values = partition(profile.widths().as_slice(), bytes.as_slice());
    let template = profile.template();
    let slots = profile.slots();
    let ghost wanted = sentence_tokens(lexicon, profile@, values@);
    let mut tokens: Vec<String> = Vec::with_capacity(template.len());
    let mut t: usize = 0;
    while t < template.len()
        invariant
            t <= template@.len(),
            template@ == profile@.template,
            slots@ == profile@.slots,
            lexicon.wf(),
            profile@.wf(),
            profile@.served_by(lexicon),
            fits(profile@.widths, values@),
            values@.len() == profile@.widths.len(),
            wanted == sentence_tokens(lexicon, profile@, values@),
            texts(tokens@) == wanted.take(t as int),
        decreases template@.len() - t,
    {
        let ghost before = texts(tokens@);
        let token = match template[t] {
            Piece::Connective(text) => String::from_str(text),
            Piece::Slot(k) => {
                proof {
                    lemma_slot_text(lexicon, profile@, values@, k as int);
                }
                match slots[k] {
                    Slot::Word(id) => String::from_str(
                        lexicon.category(id).word_at(values[k] as usize),
                    ),
                    Slot::Number => render_number(values[k]),
                }
            },
        };
        tokens.push(token);
        proof {
            assert(texts(tokens@) =~= before.push(wanted[t as int]));
            assert(before.push(wanted[t as int]) =~= wanted.take(t + 1));
        }
        t = t + 1;
    }
    proof {
        assert(wanted.take(t as int) =~= wanted);
    }
    join_words(&tokens)
}

/// Reads a sentence of a profile that covers the whole token back into the
/// token's bytes.
pub fn decode(lexicon: &Lexicon, profile: &Profile, sentence: &str) -> (token: Result<
    [u8; 16],
    DecodeError,
>)
    requires
        profile@.wf(),
        profile@.covers_token(),
    ensures
        match token {
            Ok(bytes) => decoded(lexicon, profile@, sentence@) == Ok::<Seq<u8>, DecodeError>(
                bytes@,
            ),
            Err(error) => decoded(lexicon, profile@, sentence@) == Err::<Seq<u8>, DecodeError>(
                error,
            ),
        },
{
    let tokens = split_words(sentence);
    let widths = profile.widths();
    let slots = profile.slots();
    let positions = profile.positions();
    if tokens.len() < profile.template().len() {
        return Err(DecodeError::TooFewTokens);
    }
    let ghost read = readings(lexicon, profile@, split(sentence@));
    let mut values: Vec<u16> = Vec::with_capacity(slots.len());
    let mut k: usize = 0;
    while k < slots.len()
        invariant
            k <= slots@.len(),
            widths@ == profile@.widths,
            slots@ == profile@.slots,
            positions@ == profile@.positions,
            profile@.wf(),
            texts(tokens@) == split(sentence@),
            tokens@.len() >= profile@.template.len(),
            read == readings(lexicon, profile@, split(sentence@)),
            values@.len() == k,
            forall|j: int| 0 <= j < k ==> #[trigger] read[j] == Some(values@[j]),
            forall|j: int|
                0 <= j < k ==> (#[trigger] values@[j] as nat) < pow2(profile@.widths[j] as nat),
        decreases slots@.len() - k,
    {
        let at = positions[k];
        assert(at < profile@.template.len());
        assert(texts(tokens@)[at as int] == tokens@[at as int]@);
        let token = tokens[at].as_str();
        proof {
            assert(widths@[k as int] <= 16);
            lemma_width_bound(widths@[k as int] as nat);
        }
        let bound = two_to(widths[k]);
        let value = match slots[k] {
            Slot::Word(id) => match lexicon.category(id).index_of(token) {
                Some(index) => if index < bound as usize {
                    Some(index as u16)
                } else {
                    None
                },
                None => None,
            },
            Slot::Number => parse_number(token, bound),
        };
        proof {
            assert(value == read[k as int]);
        }
        match value {
            Some(v) => {
                values.push(v);
            },
            None => {
                proof {
                    lemma_unread_first_unique(read, k as int);
                }
                return Err(
                    match slots[k] {
                        Slot::Word(_) => DecodeError::UnknownWord(at),
                        Slot::Number => DecodeError::MalformedNumeral(at),
                    },
                );
            },
        }
        k = k + 1;
    }
    proof {
        assert(all_read(read));
        assert(values@ =~= read_values(read));
    }
    let bits = assemble_bits(widths.as_slice(), values.as_slice());
    Ok(de_partition(bits.as_slice()))
}

} // verus!
