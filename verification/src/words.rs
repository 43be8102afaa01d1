//! Word categories: ordered lists of distinct words, looked up by index when
//! a sentence is written and by word when it is read.

use vstd::prelude::*;
use vstd::std_specs::iter::IteratorSpec;
use vstd::string::*;

verus! {

/// The word has no space in it, so it stays one token of a sentence.
pub open spec fn no_space(word: Seq<char>) -> bool {
    forall|i: int| 0 <= i < word.len() ==> #[trigger] word[i] != ' '
}

/// No word occurs twice.
pub open spec fn distinct(words: Seq<Seq<char>>) -> bool {
    forall|i: int, j: int| 0 <= i < j < words.len() ==> words[i] != words[j]
}

/// What a word list must satisfy to serve as a category: no word twice, no
/// space inside a word.
pub open spec fn valid_words(words: Seq<Seq<char>>) -> bool {
    &&& distinct(words)
    &&& forall|i: int| 0 <= i < words.len() ==> no_space(#[trigger] words[i])
}

/// The characters of each string of a list.
pub open spec fn texts(list: Seq<String>) -> Seq<Seq<char>> {
    Seq::new(list.len(), |i: int| list[i]@)
}

/// Tells whether a word holds a space.
pub fn has_space(word: &str) -> (found: bool)
    ensures
        found == !no_space(word@),
{
    broadcast use {axiom_spec_iter, next_postcondition};

    let mut it = word.chars();
    let ghost mut seen: Seq<char> = Seq::empty();
    loop
        invariant
            seen + it.remaining() == word@,
            no_space(seen),
            it.obeys_prophetic_iter_laws(),
            it.decrease() is Some,
        decreases it.decrease()->0,
    {
        let ghost before = it;
        match it.next() {
            None => {
                assert(seen =~= word@);
                return false;
            },
            Some(c) => {
                assert(word@[seen.len() as int] == c);
                if c == ' ' {
                    return true;
                }
                proof {
                    assert(seen.push(c) + it.remaining() =~= seen + before.remaining());
                    seen = seen.push(c);
                }
            },
        }
    }
}

/// An ordered list of distinct words without spaces.
pub struct Category {
    words: Vec<String>,
}

impl View for Category {
    type V = Seq<Seq<char>>;

    closed spec fn view(&self) -> Seq<Seq<char>> {
        texts(self.words@)
    }
}

impl Category {
    /// The list is duplicate-free and no word holds a space.
    pub open spec fn wf(&self) -> bool {
        valid_words(self@)
    }

    /// Makes a category of `words`, in their order, if no word occurs twice
    /// and none holds a space.
    pub fn new(words: Vec<String>) -> (made: Option<Category>)
        ensures
            made is Some <==> valid_words(texts(words@)),
            made is Some ==> made->Some_0@ == texts(words@) && made->Some_0.wf(),
    {
        let ghost list = texts(words@);
        let mut i: usize = 0;
        while i < words.len()
            invariant
                i <= words@.len(),
                list == texts(words@),
                valid_words(list.take(i as int)),
            decreases words@.len() - i,
        {
            assert(list[i as int] == words@[i as int]@);
            if has_space(words[i].as_str()) {
                return None;
            }
            let mut j: usize = 0;
            while j < i
                invariant
                    j <= i < words@.len(),
                    list == texts(words@),
                    forall|k: int| 0 <= k < j ==> list[k] != list[i as int],
                decreases i - j,
            {
                assert(list[j as int] == words@[j as int]@);
                if words[j] == words[i] {
                    assert(list[j as int] == list[i as int]);
                    return None;
                }
                j = j + 1;
            }
            proof {
                let longer = list.take(i + 1);
                assert forall|a: int, b: int| 0 <= a < b < longer.len() implies longer[a]
                    != longer[b] by {
                    if b < i {
                        assert(list.take(i as int)[a] != list.take(i as int)[b]);
                    }
                }
                assert forall|a: int| 0 <= a < longer.len() implies no_space(
                    #[trigger] longer[a],
                ) by {
                    if a < i {
                        assert(no_space(list.take(i as int)[a]));
                    }
                }
            }
            i = i + 1;
        }
        proof {
            assert(list.take(i as int) =~= list);
        }
        Some(Category { words })
    }

    /// The number of words.
    pub fn len(&self) -> (n: usize)
        ensures
            n == self@.len(),
    {
        self.words.len()
    }

    /// The word at `index`.
    pub fn word_at(&self, index: usize) -> (word: &str)
        requires
            index < self@.len(),
        ensures
            word@ == self@[index as int],
    {
        self.words[index].as_str()
    }

    /// The index of `word`, if the category holds it: the first one at which
    /// it stands, which in a well-formed category is the only one.
    pub fn index_of(&self, word: &str) -> (found: Option<usize>)
        ensures
            found is Some <==> self@.contains(word@),
            self@.index_of_first(word@) == match found {
                Some(index) => Some(index as int),
                None => None::<int>,
            },
            found is Some ==> found->Some_0 < self@.len() && self@[found->Some_0 as int] == word@,
    {
        let wanted = String::from_str(word);
        let mut i: usize = 0;
        while i < self.words.len()
            invariant
                i <= self@.len(),
                self@.len() == self.words@.len(),
                wanted@ == word@,
                forall|k: int| 0 <= k < i ==> self@[k] != word@,
            decreases self@.len() - i,
        {
            assert(self@[i as int] == self.words@[i as int]@);
            if self.words[i] == wanted {
                proof {
                    self@.index_of_first_ensures(word@);
                    assert(self@.contains(word@));
                    let first = self@.index_of_first(word@)->Some_0;
                    if first > i {
                        assert(self@[i as int] != word@);
                    } else if first < i {
                        assert(self@[first] != word@);
                    }
                }
                return Some(i);
            }
            i = i + 1;
        }
        proof {
            self@.index_of_first_ensures(word@);
        }
        None
    }
}

/// Looking up the word that stands at an index of a duplicate-free list
/// gives that index.
pub proof fn lemma_index_of_word_at(words: Seq<Seq<char>>, index: int)
    requires
        distinct(words),
        0 <= index < words.len(),
    ensures
        words.index_of_first(words[index]) == Some(index),
{
    let word = words[index];
    words.index_of_first_ensures(word);
    assert(words.contains(word));
    lemma_distinct_index(words, words.index_of_first(word)->Some_0, index);
}

/// In a duplicate-free list a word stands at one index only.
pub proof fn lemma_distinct_index(words: Seq<Seq<char>>, i: int, j: int)
    requires
        distinct(words),
        0 <= i < words.len(),
        0 <= j < words.len(),
        words[i] == words[j],
    ensures
        i == j,
{
    if i < j {
        assert(words[i] != words[j]);
    } else if j < i {
        assert(words[j] != words[i]);
    }
}

} // verus!
