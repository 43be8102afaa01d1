//! Profiles: how a token is cut into segments, what each segment turns into,
//! and where it stands in the sentence.
//!
//! The long profile spends all 128 bits of a token on twelve segments. The
//! short profile spends the leading 32 bits on five segments; its sentence
//! has the word `by` between the verb and the number.

use crate::lexicon::{min_words, CategoryId, Lexicon};
use crate::bits::is_bits;
use crate::segments::{assemble_bits, fits, offset, segment_bits, total_width, widths_ok};
use crate::words::no_space;
use vstd::arithmetic::power2::*;
use vstd::prelude::*;

verus! {

/// What a segment turns into.
#[derive(Clone, Copy, Debug, PartialEq, Eq, Structural)]
pub enum Slot {
    /// The word of the given category at the index that the segment holds.
    Word(CategoryId),
    /// The segment's value as a decimal number.
    Number,
}

/// One token of a sentence template.
#[derive(Clone, Copy, Debug)]
pub enum Piece {
    /// A fixed word, the same in every sentence.
    Connective(&'static str),
    /// The place of the segment with the given number.
    Slot(usize),
}

/// The content of a profile: the widths of the segments, what each segment
/// turns into, the tokens of the sentence, and for each segment the place of
/// its token.
pub struct Layout {
    pub widths: Seq<u8>,
    pub slots: Seq<Slot>,
    pub template: Seq<Piece>,
    pub positions: Seq<usize>,
}

impl Layout {
    /// Widths, slots and positions go together one to one; the segments fit
    /// the value type and the token; connectives are single tokens; and each
    /// segment has one place in the template, which `positions` gives.
    pub open spec fn wf(self) -> bool {
        &&& self.widths.len() == self.slots.len()
        &&& self.widths.len() == self.positions.len()
        &&& widths_ok(self.widths)
        &&& total_width(self.widths) <= 128
        &&& forall|t: int|
            0 <= t < self.template.len() ==> match #[trigger] self.template[t] {
                Piece::Connective(text) => no_space(text@),
                Piece::Slot(k) => k < self.slots.len(),
            }
        &&& forall|k: int|
            0 <= k < self.positions.len() ==> {
                &&& (#[trigger] self.positions[k]) < self.template.len()
                &&& self.template[self.positions[k] as int] matches Piece::Slot(j) && j == k
            }
    }

    /// The segments cover the whole token, so a sentence can be read back.
    pub open spec fn covers_token(self) -> bool {
        total_width(self.widths) == 128
    }

    /// Every category has a word for every value of each segment that is
    /// looked up in it.
    pub open spec fn served_by(self, lexicon: &Lexicon) -> bool {
        forall|k: int|
            0 <= k < self.slots.len() ==> match #[trigger] self.slots[k] {
                Slot::Word(id) => lexicon.words(id).len() >= pow2(self.widths[k] as nat),
                Slot::Number => true,
            }
    }
}

/// The long profile: three names, `the`, a personal noun, `of`, a place, a
/// verb, three names, `and`, a number, an adjective, an animal.
pub open spec fn normal_layout() -> Layout {
    Layout {
        widths: seq![12u8, 11u8, 14u8, 13u8, 13u8, 10u8, 12u8, 11u8, 14u8, 5u8, 6u8, 7u8],
        slots: seq![
            Slot::Word(CategoryId::Names),
            Slot::Word(CategoryId::Names),
            Slot::Word(CategoryId::Names),
            Slot::Word(CategoryId::PersonalNouns),
            Slot::Word(CategoryId::Places),
            Slot::Word(CategoryId::Verbs),
            Slot::Word(CategoryId::Names),
            Slot::Word(CategoryId::Names),
            Slot::Word(CategoryId::Names),
            Slot::Number,
            Slot::Word(CategoryId::Adjectives),
            Slot::Word(CategoryId::Animals),
        ],
        template: seq![
            Piece::Slot(0),
            Piece::Slot(1),
            Piece::Slot(2),
            Piece::Connective("the"),
            Piece::Slot(3),
            Piece::Connective("of"),
            Piece::Slot(4),
            Piece::Slot(5),
            Piece::Slot(6),
            Piece::Slot(7),
            Piece::Slot(8),
            Piece::Connective("and"),
            Piece::Slot(9),
            Piece::Slot(10),
            Piece::Slot(11),
        ],
        positions: seq![
            0usize,
            1usize,
            2usize,
            4usize,
            6usize,
            7usize,
            8usize,
            9usize,
            10usize,
            12usize,
            13usize,
            14usize,
        ],
    }
}

/// The short profile: a name, a verb, `by`, a number, an adjective, an
/// animal.
pub open spec fn short_layout() -> Layout {
    Layout {
        widths: seq![6u8, 6u8, 7u8, 8u8, 5u8],
        slots: seq![
            Slot::Word(CategoryId::Names),
            Slot::Word(CategoryId::Verbs),
            Slot::Number,
            Slot::Word(CategoryId::Adjectives),
            Slot::Word(CategoryId::Animals),
        ],
        template: seq![
            Piece::Slot(0),
            Piece::Slot(1),
            Piece::Connective("by"),
            Piece::Slot(2),
            Piece::Slot(3),
            Piece::Slot(4),
        ],
        positions: seq![0usize, 1usize, 3usize, 4usize, 5usize],
    }
}

/// The long profile is well formed and covers the 128 bits of a token.
pub proof fn lemma_normal_layout()
    ensures
        normal_layout().wf(),
        normal_layout().covers_token(),
{
    let layout = normal_layout();
    reveal_strlit("the");
    reveal_strlit("of");
    reveal_strlit("and");
    reveal_with_fuel(offset, 14);
    assert(total_width(layout.widths) == 128);
}

/// The short profile is well formed and covers the leading 32 bits of a
/// token.
pub proof fn lemma_short_layout()
    ensures
        short_layout().wf(),
        total_width(short_layout().widths) == 32,
{
    let layout = short_layout();
    reveal_strlit("by");
    reveal_with_fuel(offset, 7);
    assert(total_width(layout.widths) == 32);
}

/// A well-formed lexicon has, for each segment of the long and of the short
/// profile that is bound to a category, at least two to the power of the
/// segment's width words in that category.
pub proof fn lemma_capacity(lexicon: &Lexicon)
    requires
        lexicon.wf(),
    ensures
        normal_layout().served_by(lexicon),
        short_layout().served_by(lexicon),
{
    lemma2_to64();
    let long = normal_layout();
    assert forall|k: int| 0 <= k < long.slots.len() implies match #[trigger] long.slots[k] {
        Slot::Word(id) => lexicon.words(id).len() >= pow2(long.widths[k] as nat),
        Slot::Number => true,
    } by {
        match long.slots[k] {
            Slot::Word(id) => {
                assert(lexicon.words(id).len() >= min_words(id));
            },
            Slot::Number => {},
        }
    }
    let brief = short_layout();
    assert forall|k: int| 0 <= k < brief.slots.len() implies match #[trigger] brief.slots[k] {
        Slot::Word(id) => lexicon.words(id).len() >= pow2(brief.widths[k] as nat),
        Slot::Number => true,
    } by {
        match brief.slots[k] {
            Slot::Word(id) => {
                assert(lexicon.words(id).len() >= min_words(id));
            },
            Slot::Number => {},
        }
    }
}

/// A profile: the layout of one kind of sentence.
pub struct Profile {
    widths: Vec<u8>,
    slots: Vec<Slot>,
    template: Vec<Piece>,
    positions: Vec<usize>,
}

impl View for Profile {
    type V = Layout;

    closed spec fn view(&self) -> Layout {
        Layout {
            widths: self.widths@,
            slots: self.slots@,
            template: self.template@,
            positions: self.positions@,
        }
    }
}

impl Profile {
    /// The long profile.
    pub fn normal() -> (profile: Profile)
        ensures
            profile@ == normal_layout(),
    {
        let profile = Profile {
            widths: vec![12u8, 11u8, 14u8, 13u8, 13u8, 10u8, 12u8, 11u8, 14u8, 5u8, 6u8, 7u8],
            slots: vec![
                Slot::Word(CategoryId::Names),
                Slot::Word(CategoryId::Names),
                Slot::Word(CategoryId::Names),
                Slot::Word(CategoryId::PersonalNouns),
                Slot::Word(CategoryId::Places),
                Slot::Word(CategoryId::Verbs),
                Slot::Word(CategoryId::Names),
                Slot::Word(CategoryId::Names),
                Slot::Word(CategoryId::Names),
                Slot::Number,
                Slot::Word(CategoryId::Adjectives),
                Slot::Word(CategoryId::Animals),
            ],
            template: vec![
                Piece::Slot(0),
                Piece::Slot(1),
                Piece::Slot(2),
                Piece::Connective("the"),
                Piece::Slot(3),
                Piece::Connective("of"),
                Piece::Slot(4),
                Piece::Slot(5),
                Piece::Slot(6),
                Piece::Slot(7),
                Piece::Slot(8),
                Piece::Connective("and"),
                Piece::Slot(9),
                Piece::Slot(10),
                Piece::Slot(11),
            ],
            positions: vec![
                0usize,
                1usize,
                2usize,
                4usize,
                6usize,
                7usize,
                8usize,
                9usize,
                10usize,
                12usize,
                13usize,
                14usize,
            ],
        };
        assert(profile@.widths =~= normal_layout().widths);
        assert(profile@.slots =~= normal_layout().slots);
        assert(profile@.template =~= normal_layout().template);
        assert(profile@.positions =~= normal_layout().positions);
        profile
    }

    /// The short profile.
    pub fn short() -> (profile: Profile)
        ensures
            profile@ == short_layout(),
    {
        let profile = Profile {
            widths: vec![6u8, 6u8, 7u8, 8u8, 5u8],
            slots: vec![
                Slot::Word(CategoryId::Names),
                Slot::Word(CategoryId::Verbs),
                Slot::Number,
                Slot::Word(CategoryId::Adjectives),
                Slot::Word(CategoryId::Animals),
            ],
            template: vec![
                Piece::Slot(0),
                Piece::Slot(1),
                Piece::Connective("by"),
                Piece::Slot(2),
                Piece::Slot(3),
                Piece::Slot(4),
            ],
            positions: vec![0usize, 1usize, 3usize, 4usize, 5usize],
        };
        assert(profile@.widths =~= short_layout().widths);
        assert(profile@.slots =~= short_layout().slots);
        assert(profile@.template =~= short_layout().template);
        assert(profile@.positions =~= short_layout().positions);
        profile
    }

    /// The widths of the segments.
    pub fn widths(&self) -> (widths: &Vec<u8>)
        ensures
            widths@ == self@.widths,
    {
        &self.widths
    }

    /// What each segment turns into.
    pub fn slots(&self) -> (slots: &Vec<Slot>)
        ensures
            slots@ == self@.slots,
    {
        &self.slots
    }

    /// The tokens of the sentence.
    pub fn template(&self) -> (template: &Vec<Piece>)
        ensures
            template@ == self@.template,
    {
        &self.template
    }

    /// The place of each segment's token in the sentence.
    pub fn positions(&self) -> (positions: &Vec<usize>)
        ensures
            positions@ == self@.positions,
    {
        &self.positions
    }
}

/// Writes the segment values of the long profile as bits: each value at the
/// width of its segment, most significant bit first, one after another.
pub fn to_bits_parted(bytes: &[u16]) -> (bits: Vec<u8>)
    requires
        fits(normal_layout().widths, bytes@),
    ensures
        bits@ == segment_bits(normal_layout().widths, bytes@),
        bits@.len() == offset(normal_layout().widths, bytes@.len() as int),
        is_bits(bits@),
{
    let profile = Profile::normal();
    assemble_bits(profile.widths().as_slice(), bytes)
}

} // verus!
