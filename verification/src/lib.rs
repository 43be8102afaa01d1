//! Human-readable sentences for 128-bit tokens.
//!
//! A token is cut into segments of fixed bit widths; each segment picks a word
//! from a word list, or is written as a decimal number, and the words are laid
//! out in a fixed sentence. The long form uses all 128 bits and can be read
//! back into the token; the short form uses the leading 32 bits only.
//!
//! The word lists are not part of this crate: the caller brings them as a
//! [`lexicon::Lexicon`], which is checked once when it is made.

use crate::codec::{decode, decoded, encode, sentence_of, DecodeError};
use crate::lexicon::Lexicon;
use crate::profile::{
    lemma_capacity, lemma_normal_layout, lemma_short_layout, normal_layout, short_layout, Profile,
};
use crate::token::uuid_octets;
use uuid::Uuid;
use vstd::pervasive::unreached;
use vstd::prelude::*;

pub mod bits;
pub mod codec;
pub mod laws;
pub mod lexicon;
pub mod numeral;
pub mod profile;
pub mod segments;
pub mod sentence;
pub mod token;
pub mod words;

verus! {

/// Writes the long sentence of a new random UUID.
pub fn generate(lexicon: &Lexicon) -> (sentence: String)
    requires
        lexicon.wf(),
    ensures
        exists|uuid: Uuid|
            uuid_octets(uuid).len() == 16 && sentence@ == sentence_of(
                lexicon,
                normal_layout(),
                uuid_octets(uuid),
            ),
{
    let uuid = Uuid::new_v4();
    generate_from(lexicon, uuid)
}

/// Writes the long sentence of a UUID: twelve segments of its 128 bits.
pub fn generate_from(lexicon: &Lexicon, uuid: Uuid) -> (sentence: String)
    requires
        lexicon.wf(),
    ensures
        sentence@ == sentence_of(lexicon, normal_layout(), uuid_octets(uuid)),
        uuid_octets(uuid).len() == 16,
{
    proof {
        lemma_normal_layout();
        lemma_capacity(lexicon);
    }
    encode(lexicon, &Profile::normal(), uuid.as_bytes())
}

/// Reads a long sentence back into its UUID.
pub fn generate_inverse(lexicon: &Lexicon, sentence: &str) -> (uuid: Result<Uuid, DecodeError>)
    ensures
        match uuid {
            Ok(uuid) => decoded(lexicon, normal_layout(), sentence@) == Ok::<
                Seq<u8>,
                DecodeError,
            >(uuid_octets(uuid)),
            Err(error) => decoded(lexicon, normal_layout(), sentence@) == Err::<
                Seq<u8>,
                DecodeError,
            >(error),
        },
{
    proof {
        lemma_normal_layout();
    }
    match decode(lexicon, &Profile::normal(), sentence) {
        Ok(bytes) => match Uuid::from_slice(bytes.as_slice()) {
            Ok(uuid) => Ok(uuid),
            Err(_) => unreached(),
        },
        Err(error) => Err(error),
    }
}

/// Writes the short sentence of a new random UUID.
pub fn short(lexicon: &Lexicon) -> (sentence: String)
    requires
        lexicon.wf(),
    ensures
        exists|uuid: Uuid|
            uuid_octets(uuid).len() == 16 && sentence@ == sentence_of(
                lexicon,
                short_layout(),
                uuid_octets(uuid),
            ),
{
    let uuid = Uuid::new_v4();
    short_from(lexicon, uuid)
}

/// Writes the short sentence of a UUID: five segments of its leading 32 bits.
pub fn short_from(lexicon: &Lexicon, uuid: Uuid) -> (sentence: String)
    requires
        lexicon.wf(),
    ensures
        sentence@ == sentence_of(lexicon, short_layout(), uuid_octets(uuid)),
        uuid_octets(uuid).len() == 16,
{
    proof {
        lemma_short_layout();
        lemma_capacity(lexicon);
    }
    encode(lexicon, &Profile::short(), uuid.as_bytes())
}

} // verus!
