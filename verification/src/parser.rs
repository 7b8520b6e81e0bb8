//! The selector parser: turns a comma-separated, 1-based selection
//! specification such as `"1,7,3-5"` into an ordered list of half-open,
//! 0-based ranges.
//!
//! A token is either a single positive integer `n`, standing for the range
//! `[n-1, n)`, or `<digits>-<digits>` with the first number strictly below
//! the second. A token is illegal when it is empty, starts with `+`,
//! contains a non-digit, or has the value zero; the error quotes the
//! offending token verbatim. The first failing token wins and no partial
//! list is returned.

use vstd::prelude::*;
use vstd::string::{StrSliceExecFns, StringExecFns};

use crate::numbers::{all_digits, char_to_digit, dec_digits, dec_val, dec_string, is_digit};
use crate::position::{pos_list_wf, PosRange};
use crate::text::push_char;

verus! {

/// An error in the selection specification, fatal at startup.
#[derive(Debug)]
pub struct SpecError {
    msg: String,
}

impl View for SpecError {
    type V = Seq<char>;

    closed spec fn view(&self) -> Seq<char> {
        self.msg@
    }
}

impl SpecError {
    pub(crate) fn from_message(msg: String) -> (e: SpecError)
        ensures
            e@ == msg@,
    {
        SpecError { msg }
    }

    /// The error's wording, exactly as the parser produced it.
    pub fn message(&self) -> (m: &str)
        ensures
            m@ == self@,
    {
        self.msg.as_str()
    }
}

/// Splitting `s` on `sep`, with `cur` the part of the current token read
/// so far. Splitting keeps empty tokens: a separator at either end or two
/// in a row yield an empty token.
pub open spec fn split_on_from(s: Seq<char>, sep: char, cur: Seq<char>) -> Seq<Seq<char>>
    decreases s.len(),
{
    if s.len() == 0 {
        seq![cur]
    } else if s[0] == sep {
        seq![cur] + split_on_from(s.drop_first(), sep, Seq::empty())
    } else {
        split_on_from(s.drop_first(), sep, cur.push(s[0]))
    }
}

/// The tokens of `s` split on `sep`; always at least one token.
pub open spec fn split_on(s: Seq<char>, sep: char) -> Seq<Seq<char>> {
    split_on_from(s, sep, Seq::empty())
}

/// The wording for an illegal token, quoting the token verbatim.
pub open spec fn illegal_msg(tok: Seq<char>) -> Seq<char> {
    "illegal list value \""@ + tok + "\""@
}

/// The wording for a range whose first number is not below its second,
/// displaying both as the 1-based values the user wrote.
pub open spec fn range_msg(first: nat, second: nat) -> Seq<char> {
    "First number in range ("@ + dec_digits(first) + ") must be lower than second number ("@
        + dec_digits(second) + ")"@
}

/// The wording for a delimiter that is not exactly one byte.
pub open spec fn delim_msg(delim: Seq<char>) -> Seq<char> {
    "--delim \""@ + delim + "\" must be a single byte"@
}

/// A token that denotes a single 1-based index: all digits, value at
/// least one, and small enough for the machine.
pub open spec fn valid_index_token(tok: Seq<char>) -> bool {
    all_digits(tok) && 1 <= dec_val(tok) <= usize::MAX
}

/// A token of the two-number range form `<digits>-<digits>`.
pub open spec fn range_shaped(tok: Seq<char>) -> bool {
    let parts = split_on(tok, '-');
    parts.len() == 2 && all_digits(parts[0]) && all_digits(parts[1])
}

/// What one token of the selection specification denotes: a range, or an
/// error message. A single index is tried first; only a token of the
/// exact two-number range form is then read as a range.
pub open spec fn token_result(tok: Seq<char>) -> Result<PosRange, Seq<char>> {
    if valid_index_token(tok) {
        Ok(PosRange { start: (dec_val(tok) - 1) as usize, end: dec_val(tok) as usize })
    } else if range_shaped(tok) {
        let first = split_on(tok, '-')[0];
        let second = split_on(tok, '-')[1];
        if !(1 <= dec_val(first) <= usize::MAX) {
            Err(illegal_msg(first))
        } else if !(1 <= dec_val(second) <= usize::MAX) {
            Err(illegal_msg(second))
        } else if dec_val(first) >= dec_val(second) {
            Err(range_msg(dec_val(first), dec_val(second)))
        } else {
            Ok(PosRange { start: (dec_val(first) - 1) as usize, end: dec_val(second) as usize })
        }
    } else {
        Err(illegal_msg(tok))
    }
}

/// What a token list denotes: the ranges in the order written, or the
/// first token's error.
pub open spec fn tokens_result(toks: Seq<Seq<char>>) -> Result<Seq<PosRange>, Seq<char>>
    decreases toks.len(),
{
    if toks.len() == 0 {
        Ok(Seq::empty())
    } else {
        match token_result(toks[0]) {
            Ok(range) => match tokens_result(toks.drop_first()) {
                Ok(rest) => Ok(seq![range] + rest),
                Err(m) => Err(m),
            },
            Err(m) => Err(m),
        }
    }
}

/// What a whole selection specification denotes.
pub open spec fn parse_pos_spec(s: Seq<char>) -> Result<Seq<PosRange>, Seq<char>> {
    tokens_result(split_on(s, ','))
}

/// Splits a string on a separator character, keeping empty tokens.
pub(crate) fn split_on_char(s: &str, sep: char) -> (toks: Vec<String>)
    ensures
        toks.deep_view() == split_on(s@, sep),
        toks.len() >= 1,
{
    let n = s.unicode_len();
    let mut toks: Vec<String> = Vec::new();
    let mut cur = String::new();
    let mut i: usize = 0;
    proof {
        assert(s@.subrange(0, n as int) =~= s@);
        assert(toks.deep_view() + split_on_from(s@, sep, cur@) =~= split_on_from(
            s@,
            sep,
            Seq::empty(),
        ));
    }
    while i < n
        invariant
            n == s@.len(),
            i <= n,
            toks.deep_view() + split_on_from(s@.subrange(i as int, n as int), sep, cur@)
                == split_on(s@, sep),
        decreases n - i,
    {
        let ghost suffix = s@.subrange(i as int, n as int);
        let c = s.get_char(i);
        proof {
            assert(suffix[0] == c);
            assert(suffix.drop_first() =~= s@.subrange(i as int + 1, n as int));
        }
        if c == sep {
            let ghost old_deep = toks.deep_view();
            let ghost old_cur = cur@;
            toks.push(cur);
            cur = String::new();
            proof {
                assert(toks.deep_view() =~= old_deep.push(old_cur));
                assert(split_on_from(suffix, sep, old_cur) == seq![old_cur] + split_on_from(
                    suffix.drop_first(),
                    sep,
                    Seq::empty(),
                ));
                assert(old_deep.push(old_cur) + split_on_from(
                    suffix.drop_first(),
                    sep,
                    Seq::empty(),
                ) =~= old_deep + split_on_from(suffix, sep, old_cur));
            }
        } else {
            push_char(&mut cur, c);
        }
        i += 1;
    }
    proof {
        assert(s@.subrange(n as int, n as int) =~= Seq::<char>::empty());
    }
    let ghost old_toks = toks.deep_view();
    let ghost last = cur@;
    toks.push(cur);
    proof {
        assert(toks.deep_view() =~= old_toks.push(last));
        assert(old_toks.push(last) =~= old_toks + seq![last]);
    }
    toks
}

fn illegal_error(tok: &str) -> (e: SpecError)
    ensures
        e@ == illegal_msg(tok@),
{
    let mut m = String::from_str("illegal list value \"");
    m.append(tok);
    m.append("\"");
    SpecError::from_message(m)
}

fn range_error(first: usize, second: usize) -> (e: SpecError)
    requires
        first < usize::MAX,
        second < usize::MAX,
    ensures
        e@ == range_msg((first + 1) as nat, (second + 1) as nat),
{
    let mut m = String::from_str("First number in range (");
    let first_digits = dec_string(first + 1);
    m.append(first_digits.as_str());
    m.append(") must be lower than second number (");
    let second_digits = dec_string(second + 1);
    m.append(second_digits.as_str());
    m.append(")");
    SpecError::from_message(m)
}

fn is_digits_str(s: &str) -> (b: bool)
    ensures
        b == all_digits(s@),
{
    let n = s.unicode_len();
    if n == 0 {
        return false;
    }
    let mut i: usize = 0;
    while i < n
        invariant
            n == s@.len(),
            i <= n,
            forall|j: int| 0 <= j < i ==> is_digit(#[trigger] s@[j]),
        decreases n - i,
    {
        let c = s.get_char(i);
        let u = c as u32;
        if u < 48 || u > 57 {
            return false;
        }
        i += 1;
    }
    true
}

/// Parses one 1-based index token to its 0-based value. The token is
/// illegal when it is empty, holds any non-digit (a leading `+` or `-`
/// included), or has the value zero; the error quotes it verbatim.
pub fn parse_index(idx: &str) -> (r: Result<usize, SpecError>)
    ensures
        valid_index_token(idx@) ==> (r matches Ok(n) && n == dec_val(idx@) - 1),
        !valid_index_token(idx@) ==> (r matches Err(e) && e@ == illegal_msg(idx@)),
{
    if !is_digits_str(idx) {
        return Err(illegal_error(idx));
    }
    let n = idx.unicode_len();
    let mut val: usize = 0;
    let mut i: usize = 0;
    proof {
        assert(idx@.take(0) =~= Seq::<char>::empty());
    }
    while i < n
        invariant
            n == idx@.len(),
            i <= n,
            all_digits(idx@),
            val == dec_val(idx@.take(i as int)),
        decreases n - i,
    {
        let c = idx.get_char(i);
        let d = char_to_digit(c);
        proof {
            assert(idx@.take(i as int + 1).drop_last() =~= idx@.take(i as int));
            assert(idx@.take(i as int + 1).last() == c);
        }
        let next = match val.checked_mul(10) {
            Some(ten_times) => ten_times.checked_add(d),
            None => None,
        };
        match next {
            Some(v) => {
                val = v;
            },
            None => {
                proof {
                    assert(dec_val(idx@.take(i as int + 1)) > usize::MAX);
                    crate::numbers::lemma_dec_val_prefix(idx@, i as int + 1);
                }
                return Err(illegal_error(idx));
            },
        }
        i += 1;
    }
    proof {
        assert(idx@.take(n as int) =~= idx@);
    }
    if val == 0 {
        Err(illegal_error(idx))
    } else {
        Ok(val - 1)
    }
}

fn parse_token(tok: &str) -> (r: Result<PosRange, SpecError>)
    ensures
        token_result(tok@) matches Ok(range) ==> (r matches Ok(p) && p == range),
        token_result(tok@) matches Err(m) ==> (r matches Err(e) && e@ == m),
{
    match parse_index(tok) {
        Ok(n) => Ok(PosRange { start: n, end: n + 1 }),
        Err(e) => {
            let parts = split_on_char(tok, '-');
            if parts.len() == 2 {
                proof {
                    assert(parts.deep_view()[0] == parts@[0]@);
                    assert(parts.deep_view()[1] == parts@[1]@);
                }
                if is_digits_str(parts[0].as_str()) && is_digits_str(parts[1].as_str()) {
                    let first = match parse_index(parts[0].as_str()) {
                        Ok(v) => v,
                        Err(e1) => {
                            return Err(e1);
                        },
                    };
                    let second = match parse_index(parts[1].as_str()) {
                        Ok(v) => v,
                        Err(e2) => {
                            return Err(e2);
                        },
                    };
                    if first >= second {
                        return Err(range_error(first, second));
                    }
                    return Ok(PosRange { start: first, end: second + 1 });
                }
            }
            Err(e)
        },
    }
}

/// Parses a whole selection specification into its ordered range list.
/// On success every range selects at least one index; on failure the
/// error carries the exact wording for the first failing token.
pub fn parse_pos(list: &str) -> (r: Result<Vec<PosRange>, SpecError>)
    ensures
        parse_pos_spec(list@) matches Ok(ranges) ==> (r matches Ok(v) && v@ == ranges),
        parse_pos_spec(list@) matches Err(m) ==> (r matches Err(e) && e@ == m),
        r matches Ok(v) ==> pos_list_wf(v@),
{
    let toks = split_on_char(list, ',');
    let ghost all = toks.deep_view();
    let mut out: Vec<PosRange> = Vec::new();
    let mut k: usize = 0;
    let n = toks.len();
    proof {
        assert(all.subrange(0, all.len() as int) =~= all);
    }
    while k < n
        invariant
            n == toks.len(),
            k <= n,
            all == toks.deep_view(),
            all == split_on(list@, ','),
            all.len() == n,
            pos_list_wf(out@),
            tokens_result(all.subrange(k as int, n as int)) matches Ok(rest) ==> tokens_result(
                all,
            ) == Ok::<Seq<PosRange>, Seq<char>>(out@ + rest),
            tokens_result(all.subrange(k as int, n as int)) matches Err(m) ==> tokens_result(all)
                == Err::<Seq<PosRange>, Seq<char>>(m),
        decreases n - k,
    {
        let ghost suffix = all.subrange(k as int, n as int);
        proof {
            assert(suffix[0] == all[k as int]);
            assert(suffix.drop_first() =~= all.subrange(k as int + 1, n as int));
            assert(toks@[k as int]@ == all[k as int]);
        }
        match parse_token(toks[k].as_str()) {
            Ok(p) => {
                let ghost old_out = out@;
                out.push(p);
                proof {
                    assert(p.wf());
                    assert(out@ =~= old_out.push(p));
                    if tokens_result(suffix.drop_first()) is Ok {
                        let rest = tokens_result(suffix.drop_first())->Ok_0;
                        assert(old_out + (seq![p] + rest) =~= out@ + rest);
                    }
                }
            },
            Err(e) => {
                proof {
                    assert(token_result(suffix[0]) == Err::<PosRange, Seq<char>>(e@));
                    assert(tokens_result(suffix) == Err::<Seq<PosRange>, Seq<char>>(e@));
                    assert(tokens_result(all) == Err::<Seq<PosRange>, Seq<char>>(e@));
                }
                return Err(e);
            },
        }
        k += 1;
    }
    proof {
        assert(all.subrange(n as int, n as int) =~= Seq::<Seq<char>>::empty());
        assert(out@ + Seq::<PosRange>::empty() =~= out@);
    }
    Ok(out)
}

/// The delimiter string is exactly one byte: a single character whose
/// UTF-8 encoding has one byte.
pub open spec fn single_byte_delim(s: Seq<char>) -> bool {
    s.len() == 1 && (s[0] as u32) < 128
}

/// Validates the configured field delimiter: it must be exactly one
/// byte, that is a single character below 128.
pub fn parse_delim(delim: &str) -> (r: Result<u8, SpecError>)
    ensures
        single_byte_delim(delim@) ==> (r matches Ok(b) && b < 128 && b as char == delim@[0]),
        !single_byte_delim(delim@) ==> (r matches Err(e) && e@ == delim_msg(delim@)),
{
    if delim.unicode_len() == 1 {
        let c = delim.get_char(0);
        let u = c as u32;
        if u < 128 {
            let b: u8 = u as u8;
            proof {
                assert(b as u32 == u);
                vstd::utf8::char_u32_cast(c, u);
                vstd::utf8::char_u32_cast(b as char, b as u32);
            }
            return Ok(b);
        }
    }
    let mut m = String::from_str("--delim \"");
    m.append(delim);
    m.append("\" must be a single byte");
    Err(SpecError::from_message(m))
}

} // verus!
