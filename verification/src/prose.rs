//! Telling what an agent said from what its tools printed.
//!
//! A line of a pane is prose when it reads as a sentence: it has more than one word, it ends the
//! way a sentence ends, and it does not open with the marks that begin a command line, a diff
//! line, a quotation or markup. Tool output, command lines and diffs fail at least one of these,
//! and they are most of what a pane shows.

use vstd::prelude::*;

verus! {

/// A character that ends a sentence.
pub open spec fn ends_a_sentence(c: char) -> bool {
    c == '.' || c == '!' || c == '?' || c == ':'
}

/// A character that opens a line of code, a command, a diff or markup rather than a sentence.
pub open spec fn opens_code(c: char) -> bool {
    c == '$' || c == '+' || c == '-' || c == '>' || c == '#' || c == '|' || c == '`' || c == '@'
        || c == '<' || c == '/' || c == '\\' || c == '{' || c == '}' || c == '[' || c == ']'
        || c == '(' || c == ')' || c == '=' || c == ';'
}

/// Whether a trimmed line reads as something an agent said.
pub open spec fn looks_like_prose(t: Seq<char>) -> bool {
    &&& t.len() > 0
    &&& !opens_code(t[0])
    &&& ends_a_sentence(t.last())
    &&& exists|i: int| 0 <= i < t.len() && t[i] == ' '
}

/// [`looks_like_prose`] of `v[from..to]`.
pub fn is_prose(v: &Vec<char>, from: usize, to: usize) -> (b: bool)
    requires
        from <= to <= v@.len(),
    ensures
        b == looks_like_prose(v@.subrange(from as int, to as int)),
{
    let ghost t = v@.subrange(from as int, to as int);
    if from == to {
        return false;
    }
    let first = v[from];
    let last = v[to - 1];
    assert(t[0] == first && t.last() == last);
    if first == '$' || first == '+' || first == '-' || first == '>' || first == '#' || first
        == '|' || first == '`' || first == '@' || first == '<' || first == '/' || first == '\\'
        || first == '{' || first == '}' || first == '[' || first == ']' || first == '('
        || first == ')' || first == '=' || first == ';' {
        return false;
    }
    if !(last == '.' || last == '!' || last == '?' || last == ':') {
        return false;
    }
    let mut i = from;
    while i < to
        invariant
            from <= i <= to <= v@.len(),
            t == v@.subrange(from as int, to as int),
            t.len() > 0,
            !opens_code(t[0]),
            ends_a_sentence(t.last()),
            forall|j: int| 0 <= j < i - from ==> t[j] != ' ',
        decreases to - i,
    {
        if v[i] == ' ' {
            assert(0 <= i - from < t.len() && t[i - from] == ' ');
            return true;
        }
        i = i + 1;
    }
    false
}

} // verus!
