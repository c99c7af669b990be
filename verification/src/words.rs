//! Lines and their words.

use crate::store::NodeName;
use vstd::prelude::*;

verus! {

/// Whether `c` is white space: the answer of `char::is_whitespace` for it.
pub uninterp spec fn white(c: char) -> bool;

/// Calls `char::is_whitespace`, which tells whether a character has the
/// Unicode property `White_Space`. The contract gives that answer its name
/// and claims nothing else of it.
#[verifier::external_body]
fn is_white(c: char) -> (answer: bool)
    ensures
        answer == white(c),
{
    c.is_whitespace()
}

/// Calls `String::push`, which appends one character to the end of a string.
#[verifier::external_body]
fn push_char(word: &mut String, c: char)
    ensures
        final(word)@ == old(word)@.push(c),
{
    word.push(c)
}

/// The words `found`, and after them the open word `word` if it has any
/// character.
pub open spec fn closed(found: Seq<Seq<char>>, word: Seq<char>) -> Seq<Seq<char>> {
    if word.len() > 0 {
        found.push(word)
    } else {
        found
    }
}

/// What one more character does to the words found so far and to the open
/// word: white space closes the open word, any other character joins it.
pub open spec fn step(found: Seq<Seq<char>>, word: Seq<char>, c: char, space: bool) -> (
    Seq<Seq<char>>,
    Seq<char>,
) {
    if space {
        (closed(found, word), Seq::empty())
    } else {
        (found, word.push(c))
    }
}

/// The words that end within `line`, and the characters of the word that is
/// open at its end (none if `line` is empty or ends in white space).
pub open spec fn scan(line: Seq<char>) -> (Seq<Seq<char>>, Seq<char>)
    decreases line.len(),
{
    if line.len() == 0 {
        (Seq::empty(), Seq::empty())
    } else {
        let (found, word) = scan(line.drop_last());
        step(found, word, line.last(), white(line.last()))
    }
}

/// The words of `line`: its longest runs of characters that are not white
/// space, in order.
pub open spec fn words(line: Seq<char>) -> Seq<Seq<char>> {
    closed(scan(line).0, scan(line).1)
}

/// Whether none of `chars` is white space.
pub open spec fn solid(chars: Seq<char>) -> bool {
    forall|j: int| 0 <= j < chars.len() ==> !white(#[trigger] chars[j])
}

/// No word is empty and none holds white space.
pub proof fn lemma_words_are_solid(line: Seq<char>)
    ensures
        forall|i: int|
            0 <= i < words(line).len() ==> (#[trigger] words(line)[i]).len() > 0 && solid(
                words(line)[i],
            ),
{
    lemma_scan_is_solid(line);
}

/// What a scan has found are words, and what it holds open is part of one.
proof fn lemma_scan_is_solid(line: Seq<char>)
    ensures
        forall|i: int|
            0 <= i < scan(line).0.len() ==> (#[trigger] scan(line).0[i]).len() > 0 && solid(
                scan(line).0[i],
            ),
        solid(scan(line).1),
    decreases line.len(),
{
    if line.len() > 0 {
        lemma_scan_is_solid(line.drop_last());
        let (found, word) = scan(line.drop_last());
        if white(line.last()) {
            assert forall|i: int| 0 <= i < closed(found, word).len() implies (#[trigger] closed(
                found,
                word,
            )[i]).len() > 0 && solid(closed(found, word)[i]) by {
                if i < found.len() {
                    assert(closed(found, word)[i] == found[i]);
                }
            }
        } else {
            assert forall|j: int| 0 <= j < word.push(line.last()).len() implies !white(
                #[trigger] word.push(line.last())[j],
            ) by {
                if j < word.len() {
                    assert(word.push(line.last())[j] == word[j]);
                }
            }
        }
    }
}

/// A line without white space is one word, unless it is empty.
pub proof fn lemma_one_word(line: Seq<char>)
    requires
        line.len() > 0,
        solid(line),
    ensures
        words(line) == seq![line],
{
    lemma_scan_of_word(line);
}

/// A scan of characters that are not white space holds them all open.
proof fn lemma_scan_of_word(line: Seq<char>)
    requires
        solid(line),
    ensures
        scan(line) == (Seq::<Seq<char>>::empty(), line),
    decreases line.len(),
{
    if line.len() > 0 {
        lemma_scan_of_word(line.drop_last());
        assert(line.drop_last().push(line.last()) =~= line);
    } else {
        assert(line =~= Seq::empty());
    }
}

/// White space separates: the words of two lines joined by a character of
/// white space are the words of the first and then those of the second.
pub proof fn lemma_words_split_at_space(head: Seq<char>, space: char, tail: Seq<char>)
    requires
        white(space),
    ensures
        words(head.push(space) + tail) == words(head) + words(tail),
{
    lemma_scan_after_space(head, space, tail);
    let (found, word) = scan(tail);
    if word.len() > 0 {
        assert((words(head) + found).push(word) =~= words(head) + found.push(word));
    }
}

/// After white space a scan goes on as from the start of a line, with the
/// words before it found.
proof fn lemma_scan_after_space(head: Seq<char>, space: char, tail: Seq<char>)
    requires
        white(space),
    ensures
        scan(head.push(space) + tail) == (words(head) + scan(tail).0, scan(tail).1),
    decreases tail.len(),
{
    let line = head.push(space) + tail;
    if tail.len() == 0 {
        assert(line =~= head.push(space));
        assert(line.drop_last() =~= head);
        assert(words(head) + scan(tail).0 =~= words(head));
    } else {
        lemma_scan_after_space(head, space, tail.drop_last());
        assert(line.drop_last() =~= head.push(space) + tail.drop_last());
        assert(line.last() == tail.last());
        let (found, word) = scan(tail.drop_last());
        if white(tail.last()) && word.len() > 0 {
            assert((words(head) + found).push(word) =~= words(head) + found.push(word));
        }
    }
}

/// Moves the open word to the words found, if it has any character.
fn close_word(found: &mut Vec<NodeName>, word: &mut String)
    ensures
        final(found).deep_view() == closed(old(found).deep_view(), old(word)@),
        final(word)@.len() == 0,
{
    let ghost before = found.deep_view();
    let ghost open = word@;
    if !word.as_str().is_empty() {
        let mut taken = String::new();
        std::mem::swap(word, &mut taken);
        found.push(taken);
        assert(found.deep_view() =~= before.push(open));
    }
}

/// Takes the character `c` into account, given whether it is white space:
/// see [`step`].
pub fn take_char(found: &mut Vec<NodeName>, word: &mut String, c: char, space: bool)
    ensures
        (final(found).deep_view(), final(word)@) == step(
            old(found).deep_view(),
            old(word)@,
            c,
            space,
        ),
{
    if space {
        close_word(found, word);
        assert(word@ =~= Seq::<char>::empty());
    } else {
        push_char(word, c);
    }
}

/// Splits a line into its words.
pub fn split_words(line: &str) -> (found: Vec<NodeName>)
    ensures
        found.deep_view() == words(line@),
{
    let mut found: Vec<NodeName> = Vec::new();
    let mut word = String::new();
    for c in it: line.chars()
        invariant
            it.seq() == line@,
            (found.deep_view(), word@) == scan(line@.take(it.index() as int)),
    {
        assert(line@.take(it.index() + 1).drop_last() =~= line@.take(it.index() as int));
        let space = is_white(c);
        take_char(&mut found, &mut word, c, space);
    }
    assert(line@.take(line@.len() as int) =~= line@);
    close_word(&mut found, &mut word);
    found
}

} // verus!
