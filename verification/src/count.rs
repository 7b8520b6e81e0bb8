//! Line, word, character and byte counts of a text, as a line-by-line
//! reader of it would report them.

use vstd::prelude::*;
use vstd::utf8::encode_utf8;

use crate::extract::chars_of_str;

verus! {

/// The character has the Unicode `White_Space` property: it separates
/// words and contributes to no word.
pub open spec fn is_space(c: char) -> bool {
    let u = c as u32;
    (9 <= u && u <= 13) || u == 32 || u == 0x85 || u == 0xa0 || u == 0x1680 || (0x2000 <= u && u
        <= 0x200a) || u == 0x2028 || u == 0x2029 || u == 0x202f || u == 0x205f || u == 0x3000
}

pub(crate) fn is_space_char(c: char) -> (b: bool)
    ensures
        b == is_space(c),
{
    let u = c as u32;
    (9 <= u && u <= 13) || u == 32 || u == 0x85 || u == 0xa0 || u == 0x1680 || (0x2000 <= u && u
        <= 0x200a) || u == 0x2028 || u == 0x2029 || u == 0x202f || u == 0x205f || u == 0x3000
}

/// How often the character occurs in the text.
pub open spec fn count_char(s: Seq<char>, c: char) -> nat
    decreases s.len(),
{
    if s.len() == 0 {
        0
    } else {
        count_char(s.drop_last(), c) + if s.last() == c {
            1nat
        } else {
            0nat
        }
    }
}

/// A character occurs at most once per position.
proof fn lemma_count_char_le(s: Seq<char>, c: char)
    ensures
        count_char(s, c) <= s.len(),
    decreases s.len(),
{
    if s.len() > 0 {
        lemma_count_char_le(s.drop_last(), c);
    }
}

/// The number of lines a line-by-line reader sees: one per line
/// terminator, and one more for a final fragment without one.
pub open spec fn line_count(s: Seq<char>) -> nat {
    count_char(s, '\n') + if s.len() > 0 && s.last() != '\n' {
        1nat
    } else {
        0nat
    }
}

/// The number of words from position `i` on, where `in_word` says
/// whether position `i` continues a word begun just before it. A word
/// is a maximal run of non-whitespace characters.
pub open spec fn word_count_from(s: Seq<char>, i: int, in_word: bool) -> nat
    decreases s.len() - i,
{
    if i < 0 || i >= s.len() {
        0
    } else {
        (if !is_space(s[i]) && !in_word {
            1nat
        } else {
            0nat
        }) + word_count_from(s, i + 1, !is_space(s[i]))
    }
}

/// The number of words of the text: its maximal whitespace-free runs.
pub open spec fn word_count(s: Seq<char>) -> nat {
    word_count_from(s, 0, false)
}

/// The counts of one text.
#[derive(Clone, Copy, Debug, PartialEq, Eq, Structural)]
pub struct FileInfo {
    pub num_lines: usize,
    pub num_words: usize,
    pub num_bytes: usize,
    pub num_chars: usize,
}

/// Counts the lines, words, characters and bytes of a text: bytes of
/// its UTF-8 form, characters as Unicode scalars, words as maximal
/// whitespace-free runs, and lines as a line-by-line reader counts
/// them (a final fragment without a terminator is a line of its own).
pub fn count(text: &str) -> (info: FileInfo)
    ensures
        info.num_lines == line_count(text@),
        info.num_words == word_count(text@),
        info.num_chars == text@.len(),
        info.num_bytes == encode_utf8(text@).len(),
{
    let num_bytes = text.as_bytes().len();
    let chars = chars_of_str(text);
    let num_chars = chars.len();
    let mut newlines: usize = 0;
    let mut words: usize = 0;
    let mut in_word = false;
    let mut i: usize = 0;
    proof {
        assert(text@.take(0) =~= Seq::<char>::empty());
    }
    while i < num_chars
        invariant
            chars@ == text@,
            num_chars == text@.len(),
            i <= num_chars,
            newlines <= i,
            words <= i,
            newlines == count_char(text@.take(i as int), '\n'),
            words + word_count_from(text@, i as int, in_word) == word_count(text@),
        decreases num_chars - i,
    {
        let c = chars[i];
        proof {
            assert(text@.take(i as int + 1).drop_last() =~= text@.take(i as int));
            assert(text@.take(i as int + 1).last() == c);
        }
        if c == '\n' {
            newlines = newlines + 1;
        }
        if is_space_char(c) {
            in_word = false;
        } else {
            if !in_word {
                words = words + 1;
            }
            in_word = true;
        }
        i += 1;
    }
    proof {
        assert(text@.take(num_chars as int) =~= text@);
        lemma_count_char_le(text@, '\n');
    }
    let num_lines = if num_chars > 0 && chars[num_chars - 1] != '\n' {
        proof {
            assert(text@.last() != '\n');
            assert(count_char(text@.drop_last(), '\n') <= text@.len() - 1) by {
                lemma_count_char_le(text@.drop_last(), '\n');
            }
        }
        newlines + 1
    } else {
        newlines
    };
    FileInfo { num_lines, num_words: words, num_bytes, num_chars }
}

} // verus!
