//! Output-line rendering and line comparison: right-aligned numeric
//! columns for numbered and counted output, and the trailing-whitespace
//! insensitive comparison used when collapsing repeated lines.

use vstd::prelude::*;
use vstd::string::{StrSliceExecFns, StringExecFns};

use crate::count::{is_space, is_space_char, FileInfo};
use crate::extract::chars_of_str;
use crate::numbers::{dec_digits, dec_string};
use crate::text::push_char;

verus! {

/// The text right-aligned in a column of the given width: spaces up to
/// the width, then the text; text already as wide stays whole.
pub open spec fn pad_left_spec(s: Seq<char>, width: nat) -> Seq<char> {
    Seq::new(
        if s.len() < width {
            (width - s.len()) as nat
        } else {
            0
        },
        |i: int| ' ',
    ) + s
}

fn pad_left(s: &str, width: usize) -> (r: String)
    ensures
        r@ == pad_left_spec(s@, width as nat),
{
    let n = s.unicode_len();
    let pad: usize = if n < width {
        width - n
    } else {
        0
    };
    let mut out = String::new();
    let mut i: usize = 0;
    proof {
        assert(out@ =~= Seq::new(0, |j: int| ' '));
    }
    while i < pad
        invariant
            i <= pad,
            out@ == Seq::new(i as nat, |j: int| ' '),
        decreases pad - i,
    {
        push_char(&mut out, ' ');
        proof {
            assert(out@ =~= Seq::new(i as nat + 1, |j: int| ' '));
        }
        i += 1;
    }
    out.append(s);
    proof {
        assert(out@ =~= pad_left_spec(s@, width as nat));
    }
    out
}

/// The line is numbered: always, or only when it is not blank.
pub open spec fn line_is_numbered(number_lines: bool, non_blank: bool, line: Seq<char>) -> bool {
    number_lines || (non_blank && line.len() > 0)
}

/// One output line of line-numbered catenation: when the flags number
/// this line, its 1-based number stands right-aligned in six columns
/// before a tab and the line; otherwise the line is unchanged.
pub fn cat_line(number_lines: bool, non_blank: bool, num: usize, line: &str) -> (r: String)
    ensures
        line_is_numbered(number_lines, non_blank, line@) ==> r@ == pad_left_spec(
            dec_digits(num as nat),
            6,
        ) + seq!['\t'] + line@,
        !line_is_numbered(number_lines, non_blank, line@) ==> r@ == line@,
{
    if number_lines || (non_blank && !line.is_empty()) {
        let digits = dec_string(num);
        let mut out = pad_left(digits.as_str(), 6);
        push_char(&mut out, '\t');
        out.append(line);
        proof {
            assert(out@ =~= pad_left_spec(dec_digits(num as nat), 6) + seq!['\t'] + line@);
        }
        out
    } else {
        String::from_str(line)
    }
}

/// One per-file output line of the counting report: the line, word and
/// byte counts each right-aligned in eight columns, then a space and
/// the file name.
pub fn count_line(info: &FileInfo, name: &str) -> (r: String)
    ensures
        r@ == pad_left_spec(dec_digits(info.num_lines as nat), 8) + pad_left_spec(
            dec_digits(info.num_words as nat),
            8,
        ) + pad_left_spec(dec_digits(info.num_bytes as nat), 8) + seq![' '] + name@,
{
    let lines_digits = dec_string(info.num_lines);
    let words_digits = dec_string(info.num_words);
    let bytes_digits = dec_string(info.num_bytes);
    let mut out = pad_left(lines_digits.as_str(), 8);
    let words_col = pad_left(words_digits.as_str(), 8);
    out.append(words_col.as_str());
    let bytes_col = pad_left(bytes_digits.as_str(), 8);
    out.append(bytes_col.as_str());
    push_char(&mut out, ' ');
    out.append(name);
    proof {
        assert(out@ =~= pad_left_spec(dec_digits(info.num_lines as nat), 8) + pad_left_spec(
            dec_digits(info.num_words as nat),
            8,
        ) + pad_left_spec(dec_digits(info.num_bytes as nat), 8) + seq![' '] + name@);
    }
    out
}

/// The length of the text once trailing whitespace is stripped.
pub open spec fn trimmed_len(s: Seq<char>) -> nat
    decreases s.len(),
{
    if s.len() == 0 {
        0
    } else if is_space(s.last()) {
        trimmed_len(s.drop_last())
    } else {
        s.len()
    }
}

/// The text without its trailing whitespace.
pub open spec fn trim_end_spec(s: Seq<char>) -> Seq<char> {
    s.take(trimmed_len(s) as int)
}

/// The stripped text is a prefix.
proof fn lemma_trimmed_len_le(s: Seq<char>)
    ensures
        trimmed_len(s) <= s.len(),
    decreases s.len(),
{
    if s.len() > 0 && is_space(s.last()) {
        lemma_trimmed_len_le(s.drop_last());
    }
}

fn trimmed_len_exec(chars: &Vec<char>) -> (k: usize)
    ensures
        k == trimmed_len(chars@),
{
    let mut k = chars.len();
    let mut done = false;
    proof {
        assert(chars@.take(chars@.len() as int) =~= chars@);
    }
    while !done && k > 0
        invariant
            k <= chars@.len(),
            trimmed_len(chars@) == trimmed_len(chars@.take(k as int)),
            done ==> (k > 0 && !is_space(chars@[k as int - 1])),
        decreases k + if done {
            0int
        } else {
            1int
        },
    {
        if is_space_char(chars[k - 1]) {
            proof {
                assert(chars@.take(k as int).last() == chars@[k as int - 1]);
                assert(chars@.take(k as int).drop_last() =~= chars@.take(k as int - 1));
            }
            k = k - 1;
        } else {
            done = true;
        }
    }
    proof {
        if k > 0 {
            assert(chars@.take(k as int).last() == chars@[k as int - 1]);
            assert(trimmed_len(chars@.take(k as int)) == k);
        }
    }
    k
}

/// Whether two lines read the same once trailing whitespace is
/// stripped from both: the notion of a repeated line when collapsing
/// duplicates.
pub fn same_trimmed(a: &str, b: &str) -> (r: bool)
    ensures
        r == (trim_end_spec(a@) == trim_end_spec(b@)),
{
    let xa = chars_of_str(a);
    let xb = chars_of_str(b);
    let la = trimmed_len_exec(&xa);
    let lb = trimmed_len_exec(&xb);
    proof {
        lemma_trimmed_len_le(a@);
        lemma_trimmed_len_le(b@);
    }
    if la != lb {
        proof {
            assert(trim_end_spec(a@).len() != trim_end_spec(b@).len());
        }
        return false;
    }
    let mut i: usize = 0;
    while i < la
        invariant
            la == lb,
            la == trimmed_len(a@),
            lb == trimmed_len(b@),
            la <= a@.len(),
            lb <= b@.len(),
            xa@ == a@,
            xb@ == b@,
            i <= la,
            forall|j: int| 0 <= j < i ==> a@[j] == b@[j],
        decreases la - i,
    {
        if xa[i] != xb[i] {
            proof {
                assert(trim_end_spec(a@)[i as int] != trim_end_spec(b@)[i as int]);
            }
            return false;
        }
        i += 1;
    }
    proof {
        assert(trim_end_spec(a@) =~= trim_end_spec(b@));
    }
    true
}

/// One output line of duplicate collapsing for a finished group: with
/// counts shown, the group's count stands right-aligned in four columns
/// and a space before the text; otherwise the text alone.
pub fn counted_line(group: usize, show_count: bool, text: &str) -> (r: String)
    ensures
        show_count ==> r@ == pad_left_spec(dec_digits(group as nat), 4) + seq![' '] + text@,
        !show_count ==> r@ == text@,
{
    if show_count {
        let digits = dec_string(group);
        let mut out = pad_left(digits.as_str(), 4);
        push_char(&mut out, ' ');
        out.append(text);
        proof {
            assert(out@ =~= pad_left_spec(dec_digits(group as nat), 4) + seq![' '] + text@);
        }
        out
    } else {
        String::from_str(text)
    }
}

} // verus!
