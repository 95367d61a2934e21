//! What is counted in a sequence of characters: line terminators, words and
//! the width of the widest line.

use vstd::prelude::*;

verus! {

/// The number of columns a tab takes: its own and seven of alignment.
pub const TAB_WIDTH: usize = 8;

/// True for the characters that separate words: those that Unicode gives
/// the property White_Space.
pub open spec fn is_whitespace_code(code: u32) -> bool {
    ||| 0x09 <= code <= 0x0D
    ||| code == 0x20
    ||| code == 0x85
    ||| code == 0xA0
    ||| code == 0x1680
    ||| 0x2000 <= code <= 0x200A
    ||| code == 0x2028
    ||| code == 0x2029
    ||| code == 0x202F
    ||| code == 0x205F
    ||| code == 0x3000
}

/// True when `c` separates words.
pub open spec fn spec_is_whitespace(c: char) -> bool {
    is_whitespace_code(c as u32)
}

/// True when `c` separates words.
#[verifier::when_used_as_spec(spec_is_whitespace)]
pub fn is_whitespace(c: char) -> (r: bool)
    ensures
        r == spec_is_whitespace(c),
{
    code_is_whitespace(c as u32)
}

/// True when the character with the scalar value `code` separates words.
pub fn code_is_whitespace(code: u32) -> (r: bool)
    ensures
        r == is_whitespace_code(code),
{
    if code < 0x80 {
        (0x09 <= code && code <= 0x0D) || code == 0x20
    } else if code < 0x2000 {
        code == 0x85 || code == 0xA0 || code == 0x1680
    } else {
        code <= 0x200A || code == 0x2028 || code == 0x2029 || code == 0x202F || code == 0x205F
            || code == 0x3000
    }
}

/// The columns by which `c` lengthens the line it stands in. A line feed
/// ends the line and has no width of its own.
pub open spec fn columns(c: char) -> nat {
    if c == '\n' {
        0
    } else if c == '\t' {
        TAB_WIDTH as nat
    } else {
        1
    }
}

/// The number of line feeds in `cs`.
pub open spec fn line_count(cs: Seq<char>) -> nat
    decreases cs.len(),
{
    if cs.len() == 0 {
        0
    } else {
        line_count(cs.drop_last()) + if cs.last() == '\n' {
            1nat
        } else {
            0nat
        }
    }
}

/// True when a word begins at index `i` of `cs`: the character there is no
/// separator, and it is the first of `cs` or follows a separator.
pub open spec fn starts_word(cs: Seq<char>, i: int) -> bool {
    &&& 0 <= i < cs.len()
    &&& !is_whitespace(cs[i])
    &&& (i == 0 || is_whitespace(cs[i - 1]))
}

/// The number of words in `cs`: of maximal runs of characters that are no
/// separators. Each run is counted where it begins.
pub open spec fn word_count(cs: Seq<char>) -> nat
    decreases cs.len(),
{
    if cs.len() == 0 {
        0
    } else {
        word_count(cs.drop_last()) + if starts_word(cs, cs.len() - 1) {
            1nat
        } else {
            0nat
        }
    }
}

/// The width of the line that `cs` ends in: the columns of the characters
/// after the last line feed.
pub open spec fn line_width(cs: Seq<char>) -> nat
    decreases cs.len(),
{
    if cs.len() == 0 || cs.last() == '\n' {
        0
    } else {
        line_width(cs.drop_last()) + columns(cs.last())
    }
}

/// The width of the widest line of `cs`, the last one included whether or
/// not a line feed ends it.
pub open spec fn max_line_width(cs: Seq<char>) -> nat
    decreases cs.len(),
{
    if cs.len() == 0 {
        0
    } else {
        let before = max_line_width(cs.drop_last());
        if line_width(cs) > before {
            line_width(cs)
        } else {
            before
        }
    }
}

/// True when `cs` ends inside a word.
pub open spec fn ends_in_word(cs: Seq<char>) -> bool {
    cs.len() > 0 && !is_whitespace(cs.last())
}

/// A tab at the start of a line makes the line eight columns wide.
pub proof fn lemma_tab_at_line_start(cs: Seq<char>)
    requires
        line_width(cs) == 0,
    ensures
        line_width(cs.push('\t')) == 8,
        max_line_width(cs.push('\t')) >= 8,
{
    assert(cs.push('\t').drop_last() =~= cs);
}

/// No line is wider than eight columns for each of its characters, and
/// neither lines nor words outnumber the characters.
pub proof fn lemma_counts_bounded(cs: Seq<char>)
    ensures
        line_count(cs) <= cs.len(),
        word_count(cs) <= cs.len(),
        line_width(cs) <= max_line_width(cs) <= 8 * cs.len(),
    decreases cs.len(),
{
    if cs.len() > 0 {
        lemma_counts_bounded(cs.drop_last());
    }
}

} // verus!
