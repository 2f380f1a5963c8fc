//! Reading a dictionary: one word on each line of a text, taken in upper
//! case.

use crate::board::{word_views, Board};
use crate::chars::{push_char, to_upper, uppercase_of};
use vstd::prelude::*;
use vstd::std_specs::iter::IteratorSpec;

verus! {

/// A line without the carriage return that may stand at its end.
pub open spec fn without_return(line: Seq<char>) -> Seq<char> {
    if line.len() > 0 && line.last() == '\r' {
        line.drop_last()
    } else {
        line
    }
}

/// The lines that a text has completed, and the characters of the line that
/// it has begun. A line feed completes a line; a carriage return right before
/// it belongs to the line ending.
pub open spec fn scan_lines(text: Seq<char>) -> (Seq<Seq<char>>, Seq<char>)
    decreases text.len(),
{
    if text.len() == 0 {
        (Seq::empty(), Seq::empty())
    } else {
        let (complete, begun) = scan_lines(text.drop_last());
        if text.last() == '\n' {
            (complete.push(without_return(begun)), Seq::empty())
        } else {
            (complete, begun.push(text.last()))
        }
    }
}

/// The lines of a text. The last line need not end in a line feed; a text
/// that ends in one has no further, empty line after it.
pub open spec fn lines_of(text: Seq<char>) -> Seq<Seq<char>> {
    let (complete, begun) = scan_lines(text);
    if begun.len() > 0 {
        complete.push(begun)
    } else {
        complete
    }
}

/// The dictionary that a text holds: its lines, each in upper case.
pub open spec fn dictionary_of(text: Seq<char>) -> Seq<Seq<char>> {
    lines_of(text).map_values(|line: Seq<char>| uppercase_of(line))
}

/// A line as a string.
fn line_text(line: &Vec<char>) -> (text: String)
    ensures
        text@ == line@,
{
    let mut text = String::new();
    let mut i: usize = 0;
    while i < line.len()
        invariant
            i <= line.len(),
            text@ == line@.take(i as int),
        decreases line.len() - i,
    {
        push_char(&mut text, line[i]);
        assert(line@.take(i + 1) =~= line@.take(i as int).push(line@[i as int]));
        i += 1;
    }
    assert(line@.take(i as int) =~= line@);
    text
}

/// The lines of a text, without their line endings, in order.
pub fn split_lines(text: &str) -> (lines: Vec<String>)
    ensures
        word_views(lines@) == lines_of(text@),
{
    let mut lines: Vec<String> = Vec::new();
    let mut line: Vec<char> = Vec::new();
    let mut chars = text.chars();
    let ghost mut read: Seq<char> = Seq::empty();
    assert(word_views(lines@) =~= Seq::<Seq<char>>::empty());
    loop
        invariant
            text@ == read + chars.remaining(),
            chars.obeys_prophetic_iter_laws(),
            chars.decrease() is Some,
            word_views(lines@) == scan_lines(read).0,
            line@ == scan_lines(read).1,
        ensures
            read == text@,
            word_views(lines@) == scan_lines(read).0,
            line@ == scan_lines(read).1,
        decreases chars.decrease()->0,
    {
        let ghost before = chars;
        let ghost complete = word_views(lines@);
        match chars.next() {
            None => {
                assert(read + Seq::<char>::empty() =~= read);
                break ;
            },
            Some(c) => {
                proof {
                    let now = read.push(c);
                    assert(now.drop_last() =~= read);
                    assert(now + chars.remaining() =~= read + before.remaining());
                    read = now;
                }
                if c == '\n' {
                    if line.len() > 0 && line[line.len() - 1] == '\r' {
                        line.pop();
                    }
                    let ended = line_text(&line);
                    lines.push(ended);
                    line = Vec::new();
                    assert(word_views(lines@) =~= complete.push(ended@));
                } else {
                    line.push(c);
                }
            },
        }
    }
    if line.len() > 0 {
        let ghost complete = word_views(lines@);
        let begun = line_text(&line);
        lines.push(begun);
        assert(word_views(lines@) =~= complete.push(begun@));
    }
    lines
}

impl Board {
    /// The words of a dictionary text: one for each line, in upper case, in the
    /// order of the lines.
    pub fn prepare_dictionary(text: &str) -> (words: Vec<String>)
        ensures
            word_views(words@) == dictionary_of(text@),
    {
        let lines = split_lines(text);
        let ghost plain = word_views(lines@);
        let mut words: Vec<String> = Vec::new();
        let mut i: usize = 0;
        assert(word_views(words@) =~= plain.take(0).map_values(
            |line: Seq<char>| uppercase_of(line),
        ));
        while i < lines.len()
            invariant
                i <= lines.len(),
                plain == word_views(lines@),
                word_views(words@) == plain.take(i as int).map_values(
                    |line: Seq<char>| uppercase_of(line),
                ),
            decreases lines.len() - i,
        {
            let ghost upper = word_views(words@);
            let word = to_upper(lines[i].as_str());
            words.push(word);
            proof {
                assert(plain[i as int] == lines@[i as int]@);
                assert(word_views(words@) =~= upper.push(word@));
                assert(plain.take(i + 1) =~= plain.take(i as int).push(plain[i as int]));
                assert(plain.take(i + 1).map_values(|line: Seq<char>| uppercase_of(line))
                    =~= upper.push(word@));
            }
            i += 1;
        }
        assert(plain.take(i as int) =~= plain);
        words
    }
}

} // verus!
