//! The lexicon: the six word categories that sentences draw their words
//! from, each long enough for the widest segment that is looked up in it.

use crate::words::{texts, valid_words, Category};
use vstd::prelude::*;

verus! {

/// The name of a word category.
#[derive(Clone, Copy, Debug, PartialEq, Eq, Structural)]
pub enum CategoryId {
    Names,
    PersonalNouns,
    Places,
    Verbs,
    Adjectives,
    Animals,
}

/// Why a set of word lists was not accepted.
#[derive(Clone, Copy, Debug, PartialEq, Eq, Structural)]
pub enum LexiconError {
    /// The list has fewer words than the category needs.
    TooFew(CategoryId),
    /// The list holds a word twice, or a word with a space in it.
    Invalid(CategoryId),
}

/// The number of words that a category must hold at least: two to the power
/// of the widest segment that is looked up in it, so that every segment value
/// finds a word.
pub open spec fn min_words(id: CategoryId) -> nat {
    match id {
        CategoryId::Names => 16384,
        CategoryId::PersonalNouns => 8192,
        CategoryId::Places => 8192,
        CategoryId::Verbs => 1024,
        CategoryId::Adjectives => 256,
        CategoryId::Animals => 128,
    }
}

/// What is wrong with a word list offered for a category, if anything.
pub open spec fn list_fault(id: CategoryId, list: Seq<Seq<char>>) -> Option<LexiconError> {
    if list.len() < min_words(id) {
        Some(LexiconError::TooFew(id))
    } else if !valid_words(list) {
        Some(LexiconError::Invalid(id))
    } else {
        None
    }
}

/// The first of two faults.
pub open spec fn or_else(first: Option<LexiconError>, second: Option<LexiconError>) -> Option<
    LexiconError,
> {
    if first is Some {
        first
    } else {
        second
    }
}

/// The least number of words of a category.
pub fn required_words(id: CategoryId) -> (n: usize)
    ensures
        n == min_words(id),
{
    match id {
        CategoryId::Names => 16384,
        CategoryId::PersonalNouns => 8192,
        CategoryId::Places => 8192,
        CategoryId::Verbs => 1024,
        CategoryId::Adjectives => 256,
        CategoryId::Animals => 128,
    }
}

/// Makes the category `id` of a word list, or says what is wrong with the
/// list.
pub fn make_category(id: CategoryId, words: Vec<String>) -> (made: Result<Category, LexiconError>)
    ensures
        made is Err <==> list_fault(id, texts(words@)) is Some,
        made is Err ==> Some(made->Err_0) == list_fault(id, texts(words@)),
        made is Ok ==> made->Ok_0@ == texts(words@) && made->Ok_0.wf(),
{
    if words.len() < required_words(id) {
        return Err(LexiconError::TooFew(id));
    }
    match Category::new(words) {
        Some(category) => Ok(category),
        None => Err(LexiconError::Invalid(id)),
    }
}

/// The six word categories.
pub struct Lexicon {
    names: Category,
    personal_nouns: Category,
    places: Category,
    verbs: Category,
    adjectives: Category,
    animals: Category,
}

impl Lexicon {
    /// The words of a category, in order.
    pub closed spec fn words(&self, id: CategoryId) -> Seq<Seq<char>> {
        match id {
            CategoryId::Names => self.names@,
            CategoryId::PersonalNouns => self.personal_nouns@,
            CategoryId::Places => self.places@,
            CategoryId::Verbs => self.verbs@,
            CategoryId::Adjectives => self.adjectives@,
            CategoryId::Animals => self.animals@,
        }
    }

    /// Every category is duplicate-free, has no word with a space, and holds
    /// at least `min_words` words.
    pub open spec fn wf(&self) -> bool {
        forall|id: CategoryId|
            valid_words(#[trigger] self.words(id)) && self.words(id).len() >= min_words(id)
    }

    /// Makes a lexicon of six word lists. The lists are examined in the order
    /// of the parameters, and the first fault found is returned.
    pub fn new(
        names: Vec<String>,
        personal_nouns: Vec<String>,
        places: Vec<String>,
        verbs: Vec<String>,
        adjectives: Vec<String>,
        animals: Vec<String>,
    ) -> (made: Result<Lexicon, LexiconError>)
        ensures
            made is Err ==> Some(made->Err_0) == or_else(
                list_fault(CategoryId::Names, texts(names@)),
                or_else(
                    list_fault(CategoryId::PersonalNouns, texts(personal_nouns@)),
                    or_else(
                        list_fault(CategoryId::Places, texts(places@)),
                        or_else(
                            list_fault(CategoryId::Verbs, texts(verbs@)),
                            or_else(
                                list_fault(CategoryId::Adjectives, texts(adjectives@)),
                                list_fault(CategoryId::Animals, texts(animals@)),
                            ),
                        ),
                    ),
                ),
            ),
            made is Ok <==> {
                &&& list_fault(CategoryId::Names, texts(names@)) is None
                &&& list_fault(CategoryId::PersonalNouns, texts(personal_nouns@)) is None
                &&& list_fault(CategoryId::Places, texts(places@)) is None
                &&& list_fault(CategoryId::Verbs, texts(verbs@)) is None
                &&& list_fault(CategoryId::Adjectives, texts(adjectives@)) is None
                &&& list_fault(CategoryId::Animals, texts(animals@)) is None
            },
            made is Ok ==> {
                &&& made->Ok_0.wf()
                &&& made->Ok_0.words(CategoryId::Names) == texts(names@)
                &&& made->Ok_0.words(CategoryId::PersonalNouns) == texts(personal_nouns@)
                &&& made->Ok_0.words(CategoryId::Places) == texts(places@)
                &&& made->Ok_0.words(CategoryId::Verbs) == texts(verbs@)
                &&& made->Ok_0.words(CategoryId::Adjectives) == texts(adjectives@)
                &&& made->Ok_0.words(CategoryId::Animals) == texts(animals@)
            },
    {
        let names = match make_category(CategoryId::Names, names) {
            Ok(category) => category,
            Err(fault) => {
                return Err(fault);
            },
        };
        let personal_nouns = match make_category(CategoryId::PersonalNouns, personal_nouns) {
            Ok(category) => category,
            Err(fault) => {
                return Err(fault);
            },
        };
        let places = match make_category(CategoryId::Places, places) {
            Ok(category) => category,
            Err(fault) => {
                return Err(fault);
            },
        };
        let verbs = match make_category(CategoryId::Verbs, verbs) {
            Ok(category) => category,
            Err(fault) => {
                return Err(fault);
            },
        };
        let adjectives = match make_category(CategoryId::Adjectives, adjectives) {
            Ok(category) => category,
            Err(fault) => {
                return Err(fault);
            },
        };
        let animals = match make_category(CategoryId::Animals, animals) {
            Ok(category) => category,
            Err(fault) => {
                return Err(fault);
            },
        };
        Ok(Lexicon { names, personal_nouns, places, verbs, adjectives, animals })
    }

    /// The category of the given name.
    pub fn category(&self, id: CategoryId) -> (category: &Category)
        ensures
            category@ == self.words(id),
    {
        match id {
            CategoryId::Names => &self.names,
            CategoryId::PersonalNouns => &self.personal_nouns,
            CategoryId::Places => &self.places,
            CategoryId::Verbs => &self.verbs,
            CategoryId::Adjectives => &self.adjectives,
            CategoryId::Animals => &self.animals,
        }
    }
}

} // verus!
