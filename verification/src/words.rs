//! Cutting a line of text into words at spaces.

use vstd::prelude::*;
use vstd::string::StrSliceExecFns;

verus! {

/// Number of characters of `text` that come before its first space, or its
/// length where it holds no space.
pub open spec fn run_length(text: Seq<char>) -> int
    decreases text.len(),
{
    if text.len() == 0 || text[0] == ' ' {
        0
    } else {
        1 + run_length(text.skip(1))
    }
}

/// The words of `text`, in order: its longest runs of characters other than
/// the space. Spaces only separate words, so none of the words is empty.
pub open spec fn words_of(text: Seq<char>) -> Seq<Seq<char>>
    decreases text.len(),
    via words_of_terminates
{
    if text.len() == 0 {
        Seq::empty()
    } else if text[0] == ' ' {
        words_of(text.skip(1))
    } else {
        seq![text.take(run_length(text))] + words_of(text.skip(run_length(text)))
    }
}

#[via_fn]
proof fn words_of_terminates(text: Seq<char>) {
    lemma_run_length(text);
}

/// Whether `word` can be a word of a text: it is not empty and holds no
/// space.
pub open spec fn is_word(word: Seq<char>) -> bool {
    word.len() > 0 && forall|i: int| 0 <= i < word.len() ==> #[trigger] word[i] != ' '
}

/// The text of each word of a vector of string slices.
pub open spec fn word_texts(words: Seq<&str>) -> Seq<Seq<char>> {
    Seq::new(words.len(), |i: int| words[i]@)
}

/// `run_length` stops at the first space or at the end, and passes no space
/// on its way.
pub proof fn lemma_run_length(text: Seq<char>)
    ensures
        0 <= run_length(text) <= text.len(),
        text.len() > 0 && text[0] != ' ' ==> run_length(text) >= 1,
        run_length(text) < text.len() ==> text[run_length(text)] == ' ',
        forall|i: int| 0 <= i < run_length(text) ==> #[trigger] text[i] != ' ',
    decreases text.len(),
{
    if text.len() == 0 || text[0] == ' ' {
    } else {
        let rest = text.skip(1);
        lemma_run_length(rest);
        assert forall|i: int| 0 <= i < run_length(text) implies #[trigger] text[i] != ' ' by {
            if i > 0 {
                assert(text[i] == rest[i - 1]);
            }
        }
    }
}

/// A stretch free of spaces that ends at a space, or at the end of the
/// text, is the run that `run_length` measures.
pub proof fn lemma_run_length_is(text: Seq<char>, length: int)
    requires
        0 <= length <= text.len(),
        length < text.len() ==> text[length] == ' ',
        forall|i: int| 0 <= i < length ==> #[trigger] text[i] != ' ',
    ensures
        run_length(text) == length,
    decreases length,
{
    if length > 0 {
        let rest = text.skip(1);
        assert(text[0] != ' ');
        assert forall|i: int| 0 <= i < length - 1 implies #[trigger] rest[i] != ' ' by {
            assert(rest[i] == text[i + 1]);
        }
        lemma_run_length_is(rest, length - 1);
    }
}

/// Where a stretch free of spaces begins at `start` and ends at `end`, on a
/// space or on the end of the text, the words from `start` on are that
/// stretch, unless it is empty, and then the words behind the space.
pub proof fn lemma_words_after_run(text: Seq<char>, start: int, end: int)
    requires
        0 <= start <= end <= text.len(),
        end < text.len() ==> text[end] == ' ',
        forall|i: int| start <= i < end ==> #[trigger] text[i] != ' ',
    ensures
        words_of(text.skip(start)) == (if start < end {
            seq![text.subrange(start, end)]
        } else {
            Seq::empty()
        }) + (if end < text.len() {
            words_of(text.skip(end + 1))
        } else {
            Seq::empty()
        }),
{
    let tail = text.skip(start);
    let behind = if end < text.len() {
        words_of(text.skip(end + 1))
    } else {
        Seq::empty()
    };
    assert forall|i: int| 0 <= i < end - start implies #[trigger] tail[i] != ' ' by {
        assert(tail[i] == text[start + i]);
    }
    lemma_run_length_is(tail, end - start);
    assert(tail.skip(end - start) =~= text.skip(end));
    assert(tail.take(end - start) =~= text.subrange(start, end));
    assert(words_of(text.skip(end)) == behind) by {
        if end < text.len() {
            assert(text.skip(end).skip(1) =~= text.skip(end + 1));
            assert(text.skip(end)[0] == ' ');
        }
    }
    if start < end {
        assert(tail[0] != ' ');
    } else {
        assert(Seq::<Seq<char>>::empty() + behind =~= behind);
    }
}

/// A word followed by a space comes first among the words of a text, and
/// the words of what stands behind the space follow.
pub proof fn lemma_words_of_joined(word: Seq<char>, rest: Seq<char>)
    requires
        is_word(word),
    ensures
        words_of(word + seq![' '] + rest) == seq![word] + words_of(rest),
{
    let text = word + seq![' '] + rest;
    assert forall|i: int| 0 <= i < word.len() implies #[trigger] text[i] != ' ' by {
        assert(text[i] == word[i]);
    }
    lemma_words_after_run(text, 0, word.len() as int);
    assert(text.skip(0) =~= text);
    assert(text.subrange(0, word.len() as int) =~= word);
    assert(text.skip(word.len() as int + 1) =~= rest);
}

/// A word is the one word of itself.
pub proof fn lemma_words_of_single(word: Seq<char>)
    requires
        is_word(word),
    ensures
        words_of(word) == seq![word],
{
    lemma_words_after_run(word, 0, word.len() as int);
    assert(word.skip(0) =~= word);
    assert(word.subrange(0, word.len() as int) =~= word);
    assert(seq![word] + Seq::<Seq<char>>::empty() =~= seq![word]);
}

/// Every word of a text is a word: none is empty, none holds a space.
pub proof fn lemma_words_are_words(text: Seq<char>)
    ensures
        forall|k: int| 0 <= k < words_of(text).len() ==> is_word(#[trigger] words_of(text)[k]),
    decreases text.len(),
{
    if text.len() == 0 {
    } else if text[0] == ' ' {
        lemma_words_are_words(text.skip(1));
        assert(words_of(text) == words_of(text.skip(1)));
    } else {
        let length = run_length(text);
        let first = text.take(length);
        let others = words_of(text.skip(length));
        lemma_run_length(text);
        lemma_words_are_words(text.skip(length));
        assert(is_word(first)) by {
            assert forall|i: int| 0 <= i < first.len() implies #[trigger] first[i] != ' ' by {
                assert(first[i] == text[i]);
            }
        }
        assert(words_of(text) == seq![first] + others);
        assert forall|k: int| 0 <= k < words_of(text).len() implies is_word(
            #[trigger] words_of(text)[k],
        ) by {
            if k > 0 {
                assert(words_of(text)[k] == others[k - 1]);
            }
        }
    }
}

/// The part of `text` between the character indices `from` and `to`.
fn slice_between<'a>(text: &'a str, from: usize, to: usize, ascii: bool) -> (part: &'a str)
    requires
        from <= to <= text@.len(),
        ascii == text.is_ascii(),
    ensures
        part@ == text@.subrange(from as int, to as int),
{
    if ascii {
        text.substring_ascii(from, to)
    } else {
        text.substring_char(from, to)
    }
}

/// Cuts `equation` into its words, in one pass over its characters. A word
/// of ASCII text is sliced out in constant time; elsewhere the slice has to
/// count characters from the start of the text.
pub fn split_words(equation: &str) -> (words: Vec<&str>)
    ensures
        word_texts(words@) == words_of(equation@),
{
    let ascii: bool = equation.is_ascii();
    // Bounds the character indices below; free where the text is ASCII.
    let total: usize = if ascii {
        broadcast use vstd::string::is_ascii_spec_bytes;

        equation.as_bytes().len()
    } else {
        equation.unicode_len()
    };
    let mut words: Vec<&str> = Vec::new();
    let mut start: usize = 0;
    let mut at: usize = 0;
    assert(equation@.skip(0) =~= equation@);
    assert(word_texts(words@) =~= Seq::<Seq<char>>::empty());
    for c in it: equation.chars()
        invariant
            it.seq() == equation@,
            total == equation@.len(),
            ascii == equation.is_ascii(),
            at == it.index(),
            start <= at,
            forall|i: int| start <= i < at ==> #[trigger] equation@[i] != ' ',
            word_texts(words@) + words_of(equation@.skip(start as int)) == words_of(equation@),
    {
        if c == ' ' {
            proof {
                lemma_words_after_run(equation@, start as int, at as int);
            }
            if start < at {
                let ghost before = word_texts(words@);
                words.push(slice_between(equation, start, at, ascii));
                assert(word_texts(words@) =~= before.push(
                    equation@.subrange(start as int, at as int),
                ));
            }
            start = at + 1;
        }
        at = at + 1;
    }
    proof {
        lemma_words_after_run(equation@, start as int, at as int);
    }
    if start < at {
        let ghost before = word_texts(words@);
        words.push(slice_between(equation, start, at, ascii));
        assert(word_texts(words@) =~= before.push(equation@.subrange(start as int, at as int)));
    }
    assert(word_texts(words@) =~= words_of(equation@));
    words
}

} // verus!
