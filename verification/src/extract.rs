//! The extraction engine for bytes and characters: applies an ordered
//! list of ranges to one line of input.
//!
//! Ranges are walked strictly in the order given, never merged, sorted or
//! de-duplicated; an index beyond the end of the line is silently
//! skipped, never padded and never an error.

use vstd::math::min;
use vstd::prelude::*;
use vstd::string::StrSliceExecFns;
use vstd::utf8::{decode_utf8, encode_utf8, valid_utf8};

use crate::position::PosRange;
use crate::text::{lossy_string, push_char, utf8_lossy};

verus! {

/// The items of `s` at the in-bounds indices of `[lo, hi)`, in index
/// order; out-of-bounds indices contribute nothing.
pub open spec fn range_select<T>(s: Seq<T>, lo: int, hi: int) -> Seq<T>
    decreases hi - lo,
{
    if lo >= hi {
        Seq::empty()
    } else if 0 <= hi - 1 < s.len() {
        range_select(s, lo, hi - 1).push(s[hi - 1])
    } else {
        range_select(s, lo, hi - 1)
    }
}

/// Everything the ranges select from `s`, one range after the other, in
/// the order the ranges were given.
pub open spec fn select_ranges<T>(s: Seq<T>, pos: Seq<PosRange>) -> Seq<T>
    decreases pos.len(),
{
    if pos.len() == 0 {
        Seq::empty()
    } else {
        range_select(s, pos[0].start as int, pos[0].end as int) + select_ranges(
            s,
            pos.drop_first(),
        )
    }
}

/// Indices beyond the end are silently omitted, never padded: one range
/// selects exactly the subrange of `s` it covers, both bounds clipped to
/// the length of `s`.
pub proof fn lemma_range_select_clips<T>(s: Seq<T>, lo: int, hi: int)
    requires
        0 <= lo <= hi,
    ensures
        range_select(s, lo, hi) == s.subrange(min(lo, s.len() as int), min(hi, s.len() as int)),
    decreases hi - lo,
{
    let len = s.len() as int;
    if lo >= hi {
        assert(s.subrange(min(lo, len), min(hi, len)) =~= Seq::<T>::empty());
    } else {
        lemma_range_select_clips(s, lo, hi - 1);
        if hi - 1 < len {
            assert(s.subrange(min(lo, len), hi - 1).push(s[hi - 1]) =~= s.subrange(
                min(lo, len),
                hi,
            ));
        } else {
            assert(s.subrange(min(lo, len), min(hi - 1, len)) =~= s.subrange(
                min(lo, len),
                min(hi, len),
            ));
        }
    }
}

/// Ranges are applied strictly in the order given, and a range that
/// appears twice selects its part of the line twice: selecting with one
/// range list after another concatenates the two selections.
pub proof fn lemma_select_ranges_append<T>(s: Seq<T>, pos1: Seq<PosRange>, pos2: Seq<PosRange>)
    ensures
        select_ranges(s, pos1 + pos2) == select_ranges(s, pos1) + select_ranges(s, pos2),
    decreases pos1.len(),
{
    if pos1.len() == 0 {
        assert(pos1 + pos2 =~= pos2);
        assert(select_ranges(s, pos1) + select_ranges(s, pos2) =~= select_ranges(s, pos2));
    } else {
        assert((pos1 + pos2).drop_first() =~= pos1.drop_first() + pos2);
        assert((pos1 + pos2)[0] == pos1[0]);
        assert((pos1 + pos2).len() > 0);
        lemma_select_ranges_append(s, pos1.drop_first(), pos2);
        let head = range_select(s, pos1[0].start as int, pos1[0].end as int);
        assert(head + (select_ranges(s, pos1.drop_first()) + select_ranges(s, pos2)) =~= (head
            + select_ranges(s, pos1.drop_first())) + select_ranges(s, pos2));
    }
}

/// Extending the range list by one range appends that range's selection.
pub proof fn lemma_select_ranges_push<T>(s: Seq<T>, pos: Seq<PosRange>, r: PosRange)
    ensures
        select_ranges(s, pos.push(r)) == select_ranges(s, pos) + range_select(
            s,
            r.start as int,
            r.end as int,
        ),
{
    assert(pos.push(r) =~= pos + seq![r]);
    lemma_select_ranges_append(s, pos, seq![r]);
    assert(seq![r].drop_first() =~= Seq::<PosRange>::empty());
    assert(select_ranges(s, Seq::<PosRange>::empty()) =~= Seq::<T>::empty());
    assert(select_ranges(s, seq![r]) == range_select(s, r.start as int, r.end as int)
        + select_ranges(s, Seq::<PosRange>::empty()));
    assert(range_select(s, r.start as int, r.end as int) + Seq::<T>::empty() =~= range_select(
        s,
        r.start as int,
        r.end as int,
    ));
}

/// Applies the ranges to a vector of plain items.
fn select_copy<T: Copy>(items: &Vec<T>, pos: &Vec<PosRange>) -> (r: Vec<T>)
    ensures
        r@ == select_ranges(items@, pos@),
{
    let n = items.len();
    let mut out: Vec<T> = Vec::new();
    let mut k: usize = 0;
    proof {
        assert(pos@.take(0) =~= Seq::<PosRange>::empty());
        assert(out@ =~= select_ranges(items@, pos@.take(0)));
    }
    while k < pos.len()
        invariant
            n == items@.len(),
            k <= pos@.len(),
            out@ == select_ranges(items@, pos@.take(k as int)),
        decreases pos@.len() - k,
    {
        let r = pos[k];
        let ghost prev = out@;
        let mut i = r.start;
        proof {
            assert(range_select(items@, r.start as int, r.start as int) =~= Seq::<T>::empty());
            assert(out@ =~= prev + range_select(items@, r.start as int, r.start as int));
        }
        while i < r.end
            invariant
                n == items@.len(),
                r.start <= i,
                i <= r.end || i == r.start,
                out@ == prev + range_select(items@, r.start as int, i as int),
            decreases r.end - i,
        {
            if i < n {
                out.push(items[i]);
            }
            proof {
                assert(out@ =~= prev + range_select(items@, r.start as int, i as int + 1));
            }
            i += 1;
        }
        proof {
            if r.end <= r.start {
                assert(range_select(items@, r.start as int, r.end as int) =~= Seq::<T>::empty());
                assert(range_select(items@, r.start as int, i as int) =~= Seq::<T>::empty());
            }
            assert(out@ == prev + range_select(items@, r.start as int, r.end as int));
            lemma_select_ranges_push(items@, pos@.take(k as int), pos@[k as int]);
            assert(pos@.take(k as int).push(pos@[k as int]) =~= pos@.take(k as int + 1));
        }
        k += 1;
    }
    proof {
        assert(pos@.take(pos@.len() as int) =~= pos@);
    }
    out
}

/// The characters of `s`, as a vector.
pub(crate) fn chars_of_str(s: &str) -> (r: Vec<char>)
    ensures
        r@ == s@,
{
    let n = s.unicode_len();
    let mut chars: Vec<char> = Vec::new();
    let mut i: usize = 0;
    proof {
        assert(chars@ =~= s@.take(0));
    }
    while i < n
        invariant
            n == s@.len(),
            i <= n,
            chars@ == s@.take(i as int),
        decreases n - i,
    {
        chars.push(s.get_char(i));
        proof {
            assert(s@.take(i as int + 1) =~= s@.take(i as int).push(s@[i as int]));
        }
        i += 1;
    }
    proof {
        assert(s@.take(n as int) =~= s@);
    }
    chars
}

/// A string holding exactly the given characters.
pub(crate) fn string_of_chars(chars: &Vec<char>) -> (r: String)
    ensures
        r@ == chars@,
{
    let mut out = String::new();
    let mut i: usize = 0;
    proof {
        assert(out@ =~= chars@.take(0));
    }
    while i < chars.len()
        invariant
            i <= chars@.len(),
            out@ == chars@.take(i as int),
        decreases chars@.len() - i,
    {
        push_char(&mut out, chars[i]);
        proof {
            assert(chars@.take(i as int + 1) =~= chars@.take(i as int).push(chars@[i as int]));
        }
        i += 1;
    }
    proof {
        assert(chars@.take(chars@.len() as int) =~= chars@);
    }
    out
}

/// Picks the selected characters out of one line, in range order,
/// skipping indices past the line's last character.
pub fn extract_chars(line: &str, char_pos: &Vec<PosRange>) -> (r: String)
    ensures
        r@ == select_ranges(line@, char_pos@),
{
    let chars = chars_of_str(line);
    let selected = select_copy(&chars, char_pos);
    string_of_chars(&selected)
}

/// Picks the selected bytes out of one line's UTF-8 encoding, in range
/// order, then decodes the result as text again; a byte selection that
/// is not valid UTF-8 (a range boundary can split a multi-byte
/// character) is decoded with replacement markers instead of failing.
pub fn extract_bytes(line: &str, byte_pos: &Vec<PosRange>) -> (r: String)
    ensures
        r@ == utf8_lossy(select_ranges(encode_utf8(line@), byte_pos@)),
        valid_utf8(select_ranges(encode_utf8(line@), byte_pos@)) ==> r@ == decode_utf8(
            select_ranges(encode_utf8(line@), byte_pos@),
        ),
{
    let bytes = line.as_bytes_vec();
    let selected = select_copy(&bytes, byte_pos);
    lossy_string(selected.as_slice())
}

/// Picks the selected fields out of a record's field list, in range
/// order; an index past the record's last field is skipped. A field
/// whose index appears in more than one range is repeated.
pub fn extract_fields(fields: &Vec<String>, field_pos: &Vec<PosRange>) -> (r: Vec<String>)
    ensures
        r.deep_view() == select_ranges(fields.deep_view(), field_pos@),
{
    let ghost items = fields.deep_view();
    let n = fields.len();
    let mut out: Vec<String> = Vec::new();
    let mut k: usize = 0;
    proof {
        assert(items.len() == n);
        assert(field_pos@.take(0) =~= Seq::<PosRange>::empty());
        assert(out.deep_view() =~= select_ranges(items, field_pos@.take(0)));
    }
    while k < field_pos.len()
        invariant
            n == fields@.len(),
            items == fields.deep_view(),
            items.len() == n,
            k <= field_pos@.len(),
            out.deep_view() == select_ranges(items, field_pos@.take(k as int)),
        decreases field_pos@.len() - k,
    {
        let r = field_pos[k];
        let ghost prev = out.deep_view();
        let mut i = r.start;
        proof {
            assert(range_select(items, r.start as int, r.start as int) =~= Seq::<Seq<char>>::empty());
            assert(out.deep_view() =~= prev + range_select(items, r.start as int, r.start as int));
        }
        while i < r.end
            invariant
                n == fields@.len(),
                items == fields.deep_view(),
                items.len() == n,
                r.start <= i,
                i <= r.end || i == r.start,
                out.deep_view() == prev + range_select(items, r.start as int, i as int),
            decreases r.end - i,
        {
            if i < n {
                let ghost old_deep = out.deep_view();
                out.push(fields[i].clone());
                proof {
                    assert(out.deep_view() =~= old_deep.push(items[i as int]));
                }
            }
            proof {
                assert(out.deep_view() =~= prev + range_select(items, r.start as int, i as int + 1));
            }
            i += 1;
        }
        proof {
            if r.end <= r.start {
                assert(range_select(items, r.start as int, r.end as int) =~= Seq::<
                    Seq<char>,
                >::empty());
                assert(range_select(items, r.start as int, i as int) =~= Seq::<Seq<char>>::empty());
            }
            assert(out.deep_view() == prev + range_select(items, r.start as int, r.end as int));
            lemma_select_ranges_push(items, field_pos@.take(k as int), field_pos@[k as int]);
            assert(field_pos@.take(k as int).push(field_pos@[k as int]) =~= field_pos@.take(
                k as int + 1,
            ));
        }
        k += 1;
    }
    proof {
        assert(field_pos@.take(field_pos@.len() as int) =~= field_pos@);
    }
    out
}

} // verus!
