//! What holds of the long and the short sentence of every token.

use crate::bits::{bytes_bits, lemma_bytes_bits_prefix, lemma_bytes_bits_shape};
use crate::codec::{decoded, lemma_decode_encode, readings, sentence_of, DecodeError};
use crate::lexicon::Lexicon;
use crate::profile::{
    lemma_capacity, lemma_normal_layout, lemma_short_layout, normal_layout, short_layout, Layout,
    Slot,
};
use crate::segments::lemma_segment_values_prefix;
use crate::sentence::split;
use crate::token::uuid_octets;
use uuid::Uuid;
use vstd::prelude::*;

verus! {

/// Reading the long sentence of a token gives the token: for every sixteen
/// bytes and every well-formed lexicon, the long sentence of the bytes reads
/// back as these bytes, without an error.
pub proof fn lemma_long_sentence_reads_back(lexicon: &Lexicon, bytes: Seq<u8>)
    requires
        lexicon.wf(),
        bytes.len() == 16,
    ensures
        decoded(lexicon, normal_layout(), sentence_of(lexicon, normal_layout(), bytes)) == Ok::<
            Seq<u8>,
            DecodeError,
        >(bytes),
{
    lemma_normal_layout();
    lemma_capacity(lexicon);
    lemma_decode_encode(lexicon, normal_layout(), bytes);
}

/// Two tokens with the same long sentence are the same token.
pub proof fn lemma_long_sentence_injective(lexicon: &Lexicon, a: Seq<u8>, b: Seq<u8>)
    requires
        lexicon.wf(),
        a.len() == 16,
        b.len() == 16,
        sentence_of(lexicon, normal_layout(), a) == sentence_of(lexicon, normal_layout(), b),
    ensures
        a == b,
{
    lemma_long_sentence_reads_back(lexicon, a);
    lemma_long_sentence_reads_back(lexicon, b);
}

/// The short sentence depends on the leading 32 bits of a token only: two
/// tokens that agree on them have the same short sentence.
pub proof fn lemma_short_sentence_reads_32_bits(lexicon: &Lexicon, a: Seq<u8>, b: Seq<u8>)
    requires
        a.len() == 16,
        b.len() == 16,
        bytes_bits(a).take(32) == bytes_bits(b).take(32),
    ensures
        sentence_of(lexicon, short_layout(), a) == sentence_of(lexicon, short_layout(), b),
{
    lemma_short_layout();
    lemma_bytes_bits_shape(a);
    lemma_bytes_bits_shape(b);
    lemma_segment_values_prefix(short_layout().widths, bytes_bits(a), bytes_bits(b));
}

/// Two tokens that agree on their first four bytes have the same short
/// sentence.
pub proof fn lemma_short_sentence_reads_4_bytes(lexicon: &Lexicon, a: Seq<u8>, b: Seq<u8>)
    requires
        a.len() == 16,
        b.len() == 16,
        a.take(4) == b.take(4),
    ensures
        sentence_of(lexicon, short_layout(), a) == sentence_of(lexicon, short_layout(), b),
{
    lemma_bytes_bits_prefix(a, 4);
    lemma_bytes_bits_prefix(b, 4);
    lemma_short_sentence_reads_32_bits(lexicon, a, b);
}

/// The sentences of a UUID depend on its bytes and the lexicon, and on
/// nothing else: two UUIDs of the same bytes have the same long sentence and
/// the same short sentence.
pub proof fn lemma_same_octets_same_sentence(lexicon: &Lexicon, a: Uuid, b: Uuid)
    requires
        uuid_octets(a) == uuid_octets(b),
    ensures
        sentence_of(lexicon, normal_layout(), uuid_octets(a)) == sentence_of(
            lexicon,
            normal_layout(),
            uuid_octets(b),
        ),
        sentence_of(lexicon, short_layout(), uuid_octets(a)) == sentence_of(
            lexicon,
            short_layout(),
            uuid_octets(b),
        ),
{
}

/// A sentence with fewer tokens than the template is refused as too short,
/// whatever its tokens are.
pub proof fn lemma_short_of_tokens_is_refused(lexicon: &Lexicon, layout: Layout, sentence: Seq<char>)
    requires
        split(sentence).len() < layout.template.len(),
    ensures
        decoded(lexicon, layout, sentence) == Err::<Seq<u8>, DecodeError>(
            DecodeError::TooFewTokens,
        ),
{
}

/// A sentence is refused if the token at the place of a word segment is not
/// a word of the segment's category.
pub proof fn lemma_absent_word_is_refused(
    lexicon: &Lexicon,
    layout: Layout,
    sentence: Seq<char>,
    k: int,
)
    requires
        0 <= k < layout.slots.len(),
        layout.slots[k] matches Slot::Word(id) && !lexicon.words(id).contains(
            split(sentence)[layout.positions[k] as int],
        ),
    ensures
        decoded(lexicon, layout, sentence) is Err,
{
    let tokens = split(sentence);
    let read = readings(lexicon, layout, tokens);
    match layout.slots[k] {
        Slot::Word(id) => {
            lexicon.words(id).index_of_first_ensures(tokens[layout.positions[k] as int]);
        },
        Slot::Number => {},
    }
    assert(read[k] is None);
}

} // verus!
