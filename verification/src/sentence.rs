//! Sentences as token lists: tokens joined by single spaces, and a sentence
//! cut at every space.

use crate::words::{no_space, texts};
use vstd::prelude::*;
use vstd::std_specs::iter::IteratorSpec;
use vstd::string::*;

verus! {

/// The tokens one after another, with one space between neighbours.
pub open spec fn join(tokens: Seq<Seq<char>>) -> Seq<char>
    decreases tokens.len(),
{
    if tokens.len() == 0 {
        Seq::empty()
    } else if tokens.len() == 1 {
        tokens[0]
    } else {
        join(tokens.drop_last()) + seq![' '] + tokens.last()
    }
}

/// The tokens of a sentence: the runs of characters between its spaces. Every
/// space ends one token and starts the next, so two spaces in a row hold an
/// empty token between them, and the empty sentence is one empty token.
pub open spec fn split(sentence: Seq<char>) -> Seq<Seq<char>>
    decreases sentence.len(),
{
    if sentence.len() == 0 {
        seq![Seq::empty()]
    } else {
        let front = split(sentence.drop_last());
        if sentence.last() == ' ' {
            front.push(Seq::empty())
        } else {
            front.drop_last().push(front.last().push(sentence.last()))
        }
    }
}

/// None of the tokens holds a space.
pub open spec fn all_no_space(tokens: Seq<Seq<char>>) -> bool {
    forall|i: int| 0 <= i < tokens.len() ==> no_space(#[trigger] tokens[i])
}

/// A sentence has at least one token, no token holds a space, and the tokens
/// joined give the sentence: `split` is the one way to cut a sentence into
/// space-free tokens.
pub proof fn lemma_split_shape(sentence: Seq<char>)
    ensures
        split(sentence).len() >= 1,
        all_no_space(split(sentence)),
        join(split(sentence)) == sentence,
    decreases sentence.len(),
{
    let tokens = split(sentence);
    if sentence.len() == 0 {
        assert(join(tokens) =~= sentence);
    } else {
        let shorter = sentence.drop_last();
        let front = split(shorter);
        let c = sentence.last();
        lemma_split_shape(shorter);
        if c == ' ' {
            assert(tokens.drop_last() =~= front);
            assert(join(tokens) =~= shorter.push(c));
            assert forall|i: int| 0 <= i < tokens.len() implies no_space(#[trigger] tokens[i]) by {
                if i < front.len() {
                    assert(no_space(front[i]));
                }
            }
        } else {
            let grown = front.last().push(c);
            assert(no_space(front[front.len() - 1]));
            assert(no_space(grown));
            assert forall|i: int| 0 <= i < tokens.len() implies no_space(#[trigger] tokens[i]) by {
                if i < front.len() - 1 {
                    assert(no_space(front[i]));
                }
            }
            if front.len() == 1 {
                assert(join(tokens) =~= join(front).push(c));
            } else {
                assert(tokens.drop_last() =~= front.drop_last());
                assert(join(tokens) =~= join(front).push(c));
            }
            assert(shorter.push(c) =~= sentence);
        }
        assert(shorter.push(c) =~= sentence);
    }
}

/// A space-free word written after a sentence lengthens its last token.
pub proof fn lemma_split_append_word(sentence: Seq<char>, word: Seq<char>)
    requires
        no_space(word),
    ensures
        split(sentence + word) == split(sentence).drop_last().push(split(sentence).last() + word),
    decreases word.len(),
{
    lemma_split_shape(sentence);
    let before = split(sentence);
    if word.len() == 0 {
        assert(sentence + word =~= sentence);
        assert(before.drop_last().push(before.last() + word) =~= before);
    } else {
        let shorter = word.drop_last();
        let c = word.last();
        assert(word[word.len() - 1] != ' ');
        assert(no_space(shorter)) by {
            assert forall|i: int| 0 <= i < shorter.len() implies #[trigger] shorter[i] != ' ' by {
                assert(shorter[i] == word[i]);
            }
        }
        lemma_split_append_word(sentence, shorter);
        assert((sentence + word).drop_last() =~= sentence + shorter);
        let front = split(sentence + shorter);
        assert(front.drop_last() =~= before.drop_last());
        assert(front.last().push(c) =~= before.last() + word);
    }
}

/// Cutting the joined tokens gives the tokens back, if there is at least one
/// and none holds a space.
pub proof fn lemma_split_join(tokens: Seq<Seq<char>>)
    requires
        tokens.len() >= 1,
        all_no_space(tokens),
    ensures
        split(join(tokens)) == tokens,
    decreases tokens.len(),
{
    let last = tokens.last();
    assert(no_space(tokens[tokens.len() - 1]));
    if tokens.len() == 1 {
        let nothing = Seq::<char>::empty();
        lemma_split_append_word(nothing, last);
        assert(nothing + last =~= last);
        assert(split(nothing) =~= seq![nothing]);
        assert(split(nothing).drop_last().push(split(nothing).last() + last) =~= tokens);
    } else {
        let front = tokens.drop_last();
        assert(all_no_space(front)) by {
            assert forall|i: int| 0 <= i < front.len() implies no_space(#[trigger] front[i]) by {
                assert(front[i] == tokens[i]);
            }
        }
        lemma_split_join(front);
        let spaced = join(front) + seq![' '];
        assert(spaced.drop_last() =~= join(front));
        assert(split(spaced) == front.push(Seq::empty()));
        lemma_split_append_word(spaced, last);
        assert(split(spaced).drop_last().push(split(spaced).last() + last) =~= tokens);
    }
}

/// `String::push`: the string is lengthened by the one character.
#[verifier::external_body]
fn push_char(text: &mut String, c: char)
    ensures
        final(text)@ == old(text)@.push(c),
{
    text.push(c)
}

/// Joins the tokens with single spaces.
pub fn join_words(tokens: &Vec<String>) -> (sentence: String)
    ensures
        sentence@ == join(texts(tokens@)),
{
    let ghost list = texts(tokens@);
    let mut sentence = String::new();
    let mut i: usize = 0;
    while i < tokens.len()
        invariant
            i <= tokens@.len(),
            list == texts(tokens@),
            sentence@ == join(list.take(i as int)),
        decreases tokens@.len() - i,
    {
        proof {
            reveal_strlit(" ");
            assert(list.take(i + 1).drop_last() =~= list.take(i as int));
            assert(list.take(i + 1).last() == tokens@[i as int]@);
            assert(" "@ =~= seq![' ']);
            if i == 0 {
                assert(Seq::<char>::empty() + list[0] =~= list[0]);
            }
        }
        if i > 0 {
            sentence.append(" ");
        }
        sentence.append(tokens[i].as_str());
        i = i + 1;
    }
    proof {
        assert(list.take(i as int) =~= list);
    }
    sentence
}

/// Cuts a sentence at every space.
pub fn split_words(sentence: &str) -> (tokens: Vec<String>)
    ensures
        texts(tokens@) == split(sentence@),
{
    broadcast use {axiom_spec_iter, next_postcondition};

    let mut tokens: Vec<String> = Vec::new();
    let mut current = String::new();
    let mut it = sentence.chars();
    let ghost mut seen: Seq<char> = Seq::empty();
    proof {
        assert(texts(tokens@).push(current@) =~= split(seen));
    }
    loop
        invariant
            seen + it.remaining() == sentence@,
            texts(tokens@).push(current@) == split(seen),
            it.obeys_prophetic_iter_laws(),
            it.decrease() is Some,
        decreases it.decrease()->0,
    {
        let ghost before = it;
        let ghost done = texts(tokens@);
        let ghost word = current@;
        match it.next() {
            None => {
                tokens.push(current);
                proof {
                    assert(seen =~= sentence@);
                    assert(texts(tokens@) =~= done.push(word));
                }
                return tokens;
            },
            Some(c) => {
                proof {
                    assert(seen.push(c) + it.remaining() =~= seen + before.remaining());
                    assert(seen.push(c).drop_last() =~= seen);
                }
                if c == ' ' {
                    tokens.push(current);
                    current = String::new();
                    proof {
                        assert(texts(tokens@) =~= done.push(word));
                    }
                } else {
                    push_char(&mut current, c);
                    proof {
                        assert(done.push(word).drop_last() =~= done);
                    }
                }
                proof {
                    seen = seen.push(c);
                }
            },
        }
    }
}

} // verus!
