//! The lines of a dictionary file.
//!
//! Each line holds one entry: a pattern and its payload, two tokens with
//! white space between them, before them or behind them. A line with fewer
//! or more tokens makes the whole dictionary invalid.

use vstd::prelude::*;
use vstd::std_specs::iter::IteratorSpec;
use vstd::string::{next_postcondition, StrSliceExecFns};

verus! {

/// Whether `c` is white space: what `char::is_whitespace` answers.
pub uninterp spec fn white_space(c: char) -> bool;

/// Calls `char::is_whitespace`, which tells whether a character has the
/// Unicode property White_Space. Nothing is claimed of which characters
/// have it, only that the answer depends on the character alone.
#[verifier::external_body]
fn is_whitespace(c: char) -> (white: bool)
    ensures
        white == white_space(c),
{
    c.is_whitespace()
}

/// The tokens of a line: its longest runs of characters that are not white
/// space, from left to right.
pub open spec fn tokens(line: Seq<char>) -> Seq<Seq<char>>
    decreases line.len(),
{
    if line.len() == 0 {
        Seq::empty()
    } else {
        let before = tokens(line.drop_last());
        if white_space(line.last()) {
            before
        } else if line.len() >= 2 && !white_space(line[line.len() - 2]) && before.len() > 0 {
            before.update(before.len() - 1, before.last().push(line.last()))
        } else {
            before.push(seq![line.last()])
        }
    }
}

/// Why a dictionary was refused.
#[derive(Debug, Clone, Copy, PartialEq, Eq)]
pub enum DictError {
    /// A line does not hold exactly two tokens.
    InvalidLine,
}

impl DictError {
    /// The error in words.
    pub fn message(&self) -> (text: &'static str)
        ensures
            text@ == "Invalid dict file"@,
    {
        "Invalid dict file"
    }
}

/// What is known of the first `i` characters of `line`: how many tokens
/// they hold, where the first two of them lie, and whether the last of the
/// characters belongs to a token.
spec fn scanned(
    line: Seq<char>,
    i: int,
    count: int,
    first: (usize, usize),
    second: (usize, usize),
    inside: bool,
) -> bool {
    let found = tokens(line.take(i));
    &&& found.len() == count
    &&& inside == (i > 0 && !white_space(line[i - 1]))
    &&& inside ==> count >= 1
    &&& count >= 1 ==> first.0 <= first.1 <= i && found[0] == line.subrange(
        first.0 as int,
        first.1 as int,
    )
    &&& count >= 2 ==> second.0 <= second.1 <= i && found[1] == line.subrange(
        second.0 as int,
        second.1 as int,
    )
    &&& inside && count == 1 ==> first.1 == i
    &&& inside && count == 2 ==> second.1 == i
}

/// The pattern and the payload of a line of the dictionary.
pub fn parse_line(line: &str) -> (entry: Result<(&str, &str), DictError>)
    ensures
        match entry {
            Ok((key, value)) => tokens(line@) == seq![key@, value@],
            Err(error) => tokens(line@).len() != 2 && error == DictError::InvalidLine,
        },
{
    broadcast use next_postcondition;

    let n = line.unicode_len();
    let mut count: usize = 0;
    let mut first: (usize, usize) = (0, 0);
    let mut second: (usize, usize) = (0, 0);
    let mut inside = false;
    let mut i: usize = 0;
    let mut it = line.chars();
    proof {
        assert(line@.skip(0) =~= line@);
        assert(line@.take(0) =~= Seq::<char>::empty());
    }
    while i < n
        invariant
            n == line@.len(),
            i <= n,
            count <= i,
            it.remaining() == line@.skip(i as int),
            scanned(line@, i as int, count as int, first, second, inside),
        decreases n - i,
    {
        let ghost before = tokens(line@.take(i as int));
        let c = it.next().unwrap();
        proof {
            assert(c == line@[i as int]);
            assert(line@.skip(i as int).drop_first() =~= line@.skip(i + 1));
            assert(line@.take(i + 1).drop_last() =~= line@.take(i as int));
            assert(line@.take(i + 1).last() == c);
        }
        if is_whitespace(c) {
            inside = false;
        } else if inside {
            if count == 1 {
                first = (first.0, i + 1);
            } else if count == 2 {
                second = (second.0, i + 1);
            }
            proof {
                let after = tokens(line@.take(i + 1));
                assert(after == before.update(before.len() - 1, before.last().push(c)));
                if count == 1 {
                    assert(after[0] =~= line@.subrange(first.0 as int, first.1 as int));
                }
                if count == 2 {
                    assert(after[1] =~= line@.subrange(second.0 as int, second.1 as int));
                }
            }
        } else {
            count += 1;
            if count == 1 {
                first = (i, i + 1);
            } else if count == 2 {
                second = (i, i + 1);
            }
            inside = true;
            proof {
                let after = tokens(line@.take(i + 1));
                assert(after == before.push(seq![c]));
                assert(seq![c] =~= line@.subrange(i as int, i + 1));
            }
        }
        i += 1;
    }
    proof {
        assert(line@.take(n as int) =~= line@);
    }
    if count == 2 {
        let key = line.substring_char(first.0, first.1);
        let value = line.substring_char(second.0, second.1);
        proof {
            assert(tokens(line@) =~= seq![key@, value@]);
        }
        Ok((key, value))
    } else {
        Err(DictError::InvalidLine)
    }
}

} // verus!
