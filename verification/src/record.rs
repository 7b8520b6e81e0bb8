//! The record adapter: splits a delimited record into its fields and
//! serialises a field list back into one record.
//!
//! Fields are separated by a single delimiter character. A field may be
//! wrapped in double quotes; inside the quotes, delimiters and line
//! breaks are taken literally and a doubled quote stands for one literal
//! quote character. The closing quote must be followed by the delimiter
//! or the end of the record. When serialising, a field is wrapped in
//! quotes exactly when it contains the delimiter, a quote, or a line
//! break.

use vstd::prelude::*;

use crate::extract::chars_of_str;
use crate::parser::split_on_from;
use crate::text::push_char;

verus! {

/// A structurally malformed record, found while splitting it.
#[derive(Clone, Copy, Debug, PartialEq, Eq, Structural)]
pub enum RecordError {
    /// The record ended inside a quoted field.
    UnterminatedQuote,
    /// A closing quote was followed by something other than the
    /// delimiter or the end of the record.
    StrayQuote,
}

impl RecordError {
    /// A short description for diagnostics.
    pub fn message(&self) -> (m: &str)
        ensures
            *self is UnterminatedQuote ==> m@ == "unterminated quoted field"@,
            *self is StrayQuote ==> m@ == "quote not followed by delimiter"@,
    {
        match self {
            RecordError::UnterminatedQuote => "unterminated quoted field",
            RecordError::StrayQuote => "quote not followed by delimiter",
        }
    }
}

/// Where the splitter stands inside the record.
#[derive(Clone, Copy, Debug, PartialEq, Eq, Structural)]
pub enum SplitState {
    /// At the start of a field, nothing of it read yet.
    AtStart,
    /// Inside an unquoted field.
    Unquoted,
    /// Inside a quoted field, behind the opening quote.
    Quoted,
    /// Directly behind a quote read while inside a quoted field: either
    /// the closing quote, or the first half of a doubled one.
    AfterQuote,
}

/// The splitter's whole state: the finished fields, the current field so
/// far, and where in the record it stands.
pub struct SplitAcc {
    pub fields: Seq<Seq<char>>,
    pub cur: Seq<char>,
    pub st: SplitState,
}

/// The splitter's state at the start of a record.
pub open spec fn split_init() -> SplitAcc {
    SplitAcc { fields: Seq::empty(), cur: Seq::empty(), st: SplitState::AtStart }
}

/// One step of the splitter on one character; `None` is a malformed
/// record (a closing quote followed by something else).
pub open spec fn split_step(acc: SplitAcc, c: char, d: char) -> Option<SplitAcc> {
    match acc.st {
        SplitState::AtStart => {
            if c == '"' {
                Some(SplitAcc { fields: acc.fields, cur: acc.cur, st: SplitState::Quoted })
            } else if c == d {
                Some(
                    SplitAcc {
                        fields: acc.fields.push(acc.cur),
                        cur: Seq::empty(),
                        st: SplitState::AtStart,
                    },
                )
            } else {
                Some(SplitAcc { fields: acc.fields, cur: acc.cur.push(c), st: SplitState::Unquoted })
            }
        },
        SplitState::Unquoted => {
            if c == d {
                Some(
                    SplitAcc {
                        fields: acc.fields.push(acc.cur),
                        cur: Seq::empty(),
                        st: SplitState::AtStart,
                    },
                )
            } else {
                Some(SplitAcc { fields: acc.fields, cur: acc.cur.push(c), st: SplitState::Unquoted })
            }
        },
        SplitState::Quoted => {
            if c == '"' {
                Some(SplitAcc { fields: acc.fields, cur: acc.cur, st: SplitState::AfterQuote })
            } else {
                Some(SplitAcc { fields: acc.fields, cur: acc.cur.push(c), st: SplitState::Quoted })
            }
        },
        SplitState::AfterQuote => {
            if c == '"' {
                Some(SplitAcc { fields: acc.fields, cur: acc.cur.push('"'), st: SplitState::Quoted })
            } else if c == d {
                Some(
                    SplitAcc {
                        fields: acc.fields.push(acc.cur),
                        cur: Seq::empty(),
                        st: SplitState::AtStart,
                    },
                )
            } else {
                None
            }
        },
    }
}

/// Runs the splitter over the rest of the record. At the end of the
/// record the current field is closed; a record that ends inside a
/// quoted field is malformed.
pub open spec fn split_run(acc: SplitAcc, s: Seq<char>, d: char) -> Result<
    Seq<Seq<char>>,
    RecordError,
>
    decreases s.len(),
{
    if s.len() == 0 {
        if acc.st is Quoted {
            Err(RecordError::UnterminatedQuote)
        } else {
            Ok(acc.fields.push(acc.cur))
        }
    } else {
        match split_step(acc, s[0], d) {
            Some(next) => split_run(next, s.drop_first(), d),
            None => Err(RecordError::StrayQuote),
        }
    }
}

/// What splitting one record yields: its field list, or the malformed
/// shape it has. An empty record yields one empty field.
pub open spec fn split_spec(line: Seq<char>, d: char) -> Result<Seq<Seq<char>>, RecordError> {
    split_run(split_init(), line, d)
}

/// The character makes a field need quoting when serialised.
pub open spec fn is_special(c: char, d: char) -> bool {
    c == d || c == '"' || c == '\n' || c == '\r'
}

/// A serialised field must be wrapped in quotes: it contains the
/// delimiter, a quote, or a line break.
pub open spec fn needs_quote(f: Seq<char>, d: char) -> bool {
    exists|i: int| 0 <= i < f.len() && is_special(f[i], d)
}

/// The field's characters with every quote doubled.
pub open spec fn escape_quotes(f: Seq<char>) -> Seq<char>
    decreases f.len(),
{
    if f.len() == 0 {
        Seq::empty()
    } else if f[0] == '"' {
        seq!['"', '"'] + escape_quotes(f.drop_first())
    } else {
        seq![f[0]] + escape_quotes(f.drop_first())
    }
}

/// One field as it stands in a serialised record: wrapped in quotes,
/// with inner quotes doubled, exactly when it needs quoting.
pub open spec fn encode_field(f: Seq<char>, d: char) -> Seq<char> {
    if needs_quote(f, d) {
        seq!['"'] + escape_quotes(f) + seq!['"']
    } else {
        f
    }
}

/// A field list serialised as one record: the encoded fields, separated
/// by the delimiter.
pub open spec fn join_spec(fields: Seq<Seq<char>>, d: char) -> Seq<char>
    decreases fields.len(),
{
    if fields.len() == 0 {
        Seq::empty()
    } else if fields.len() == 1 {
        encode_field(fields[0], d)
    } else {
        encode_field(fields[0], d) + seq![d] + join_spec(fields.drop_first(), d)
    }
}

/// Splits one record into its fields, honouring quoting.
pub fn split_record(line: &str, delim: char) -> (r: Result<Vec<String>, RecordError>)
    ensures
        split_spec(line@, delim) matches Ok(fields) ==> (r matches Ok(v) && v.deep_view()
            == fields),
        split_spec(line@, delim) matches Err(e) ==> (r matches Err(e2) && e2 == e),
{
    let chars = chars_of_str(line);
    let n = chars.len();
    let mut fields: Vec<String> = Vec::new();
    let mut cur = String::new();
    let mut st = SplitState::AtStart;
    let mut i: usize = 0;
    proof {
        assert(line@.subrange(0, n as int) =~= line@);
        assert(fields.deep_view() =~= Seq::<Seq<char>>::empty());
        assert((SplitAcc { fields: fields.deep_view(), cur: cur@, st }) == split_init());
    }
    while i < n
        invariant
            n == chars@.len(),
            chars@ == line@,
            i <= n,
            split_spec(line@, delim) == split_run(
                SplitAcc { fields: fields.deep_view(), cur: cur@, st },
                line@.subrange(i as int, n as int),
                delim,
            ),
        decreases n - i,
    {
        let ghost suffix = line@.subrange(i as int, n as int);
        let ghost acc = SplitAcc { fields: fields.deep_view(), cur: cur@, st };
        let c = chars[i];
        proof {
            assert(suffix[0] == c);
            assert(suffix.drop_first() =~= line@.subrange(i as int + 1, n as int));
        }
        match st {
            SplitState::AtStart => {
                if c == '"' {
                    st = SplitState::Quoted;
                } else if c == delim {
                    let ghost old_deep = fields.deep_view();
                    fields.push(cur);
                    cur = String::new();
                    proof {
                        assert(fields.deep_view() =~= old_deep.push(acc.cur));
                    }
                } else {
                    push_char(&mut cur, c);
                    st = SplitState::Unquoted;
                }
            },
            SplitState::Unquoted => {
                if c == delim {
                    let ghost old_deep = fields.deep_view();
                    fields.push(cur);
                    cur = String::new();
                    st = SplitState::AtStart;
                    proof {
                        assert(fields.deep_view() =~= old_deep.push(acc.cur));
                    }
                } else {
                    push_char(&mut cur, c);
                }
            },
            SplitState::Quoted => {
                if c == '"' {
                    st = SplitState::AfterQuote;
                } else {
                    push_char(&mut cur, c);
                }
            },
            SplitState::AfterQuote => {
                if c == '"' {
                    push_char(&mut cur, '"');
                    st = SplitState::Quoted;
                } else if c == delim {
                    let ghost old_deep = fields.deep_view();
                    fields.push(cur);
                    cur = String::new();
                    st = SplitState::AtStart;
                    proof {
                        assert(fields.deep_view() =~= old_deep.push(acc.cur));
                    }
                } else {
                    proof {
                        assert(split_step(acc, c, delim) is None);
                        assert(split_run(acc, suffix, delim) == Err::<Seq<Seq<char>>, RecordError>(
                            RecordError::StrayQuote,
                        ));
                    }
                    return Err(RecordError::StrayQuote);
                }
            },
        }
        proof {
            let next = SplitAcc { fields: fields.deep_view(), cur: cur@, st };
            assert(split_step(acc, c, delim) == Some(next));
            assert(split_run(acc, suffix, delim) == split_run(next, suffix.drop_first(), delim));
        }
        i += 1;
    }
    proof {
        assert(line@.subrange(n as int, n as int) =~= Seq::<char>::empty());
    }
    match st {
        SplitState::Quoted => Err(RecordError::UnterminatedQuote),
        _ => {
            let ghost old_deep = fields.deep_view();
            let ghost last = cur@;
            fields.push(cur);
            proof {
                assert(fields.deep_view() =~= old_deep.push(last));
            }
            Ok(fields)
        },
    }
}

/// The field contains a character that forces quoting.
fn has_special(chars: &Vec<char>, delim: char) -> (b: bool)
    ensures
        b == needs_quote(chars@, delim),
{
    let mut i: usize = 0;
    while i < chars.len()
        invariant
            i <= chars@.len(),
            forall|j: int| 0 <= j < i ==> !is_special(#[trigger] chars@[j], delim),
        decreases chars@.len() - i,
    {
        let c = chars[i];
        if c == delim || c == '"' || c == '\n' || c == '\r' {
            return true;
        }
        i += 1;
    }
    false
}

/// One field, encoded as it stands in a serialised record.
fn encode_field_exec(field: &String, delim: char) -> (r: String)
    ensures
        r@ == encode_field(field@, delim),
{
    let chars = chars_of_str(field.as_str());
    if !has_special(&chars, delim) {
        return field.clone();
    }
    let mut out = String::new();
    push_char(&mut out, '"');
    let mut i: usize = 0;
    proof {
        assert(field@.take(0) =~= Seq::<char>::empty());
        assert(out@ =~= seq!['"'] + escape_quotes(field@.take(0)));
    }
    while i < chars.len()
        invariant
            chars@ == field@,
            i <= chars@.len(),
            out@ == seq!['"'] + escape_quotes(field@.take(i as int)),
        decreases chars@.len() - i,
    {
        let c = chars[i];
        if c == '"' {
            push_char(&mut out, '"');
            push_char(&mut out, '"');
        } else {
            push_char(&mut out, c);
        }
        proof {
            lemma_escape_push(field@.take(i as int), field@[i as int]);
            assert(field@.take(i as int).push(field@[i as int]) =~= field@.take(i as int + 1));
            if c == '"' {
                assert(out@ =~= seq!['"'] + (escape_quotes(field@.take(i as int)) + seq![
                    '"',
                    '"',
                ]));
            } else {
                assert(out@ =~= seq!['"'] + (escape_quotes(field@.take(i as int)) + seq![c]));
            }
        }
        i += 1;
    }
    push_char(&mut out, '"');
    proof {
        assert(field@.take(field@.len() as int) =~= field@);
        assert(out@ =~= seq!['"'] + escape_quotes(field@) + seq!['"']);
    }
    out
}

/// Escaping one more character appends its escape.
proof fn lemma_escape_push(s: Seq<char>, c: char)
    ensures
        c == '"' ==> escape_quotes(s.push(c)) == escape_quotes(s) + seq!['"', '"'],
        c != '"' ==> escape_quotes(s.push(c)) == escape_quotes(s) + seq![c],
    decreases s.len(),
{
    let e = if c == '"' {
        seq!['"', '"']
    } else {
        seq![c]
    };
    if s.len() == 0 {
        assert(s.push(c)[0] == c);
        assert(s.push(c).drop_first() =~= Seq::<char>::empty());
        assert(escape_quotes(Seq::<char>::empty()) =~= Seq::<char>::empty());
        assert(escape_quotes(s.push(c)) =~= e);
        assert(escape_quotes(s) + e =~= e);
    } else {
        assert(s.push(c)[0] == s[0]);
        assert(s.push(c).drop_first() =~= s.drop_first().push(c));
        lemma_escape_push(s.drop_first(), c);
        let head = if s[0] == '"' {
            seq!['"', '"']
        } else {
            seq![s[0]]
        };
        assert(escape_quotes(s.push(c)) == head + escape_quotes(s.drop_first().push(c)));
        assert(head + (escape_quotes(s.drop_first()) + e) =~= (head + escape_quotes(s.drop_first()))
            + e);
    }
}

/// Joining one more field appends the delimiter and its encoding.
proof fn lemma_join_push(fields: Seq<Seq<char>>, f: Seq<char>, d: char)
    requires
        fields.len() >= 1,
    ensures
        join_spec(fields.push(f), d) == join_spec(fields, d) + seq![d] + encode_field(f, d),
    decreases fields.len(),
{
    if fields.len() == 1 {
        assert(fields.push(f)[0] == fields[0]);
        assert(fields.push(f).drop_first() =~= seq![f]);
        assert(join_spec(seq![f], d) == encode_field(f, d));
    } else {
        assert(fields.push(f)[0] == fields[0]);
        assert(fields.push(f).drop_first() =~= fields.drop_first().push(f));
        lemma_join_push(fields.drop_first(), f, d);
        let head = encode_field(fields[0], d);
        assert(head + seq![d] + (join_spec(fields.drop_first(), d) + seq![d] + encode_field(f, d))
            =~= (head + seq![d] + join_spec(fields.drop_first(), d)) + seq![d] + encode_field(
            f,
            d,
        ));
    }
}

/// Serialises a field list into one record with the given delimiter.
pub fn join_record(fields: &Vec<String>, delim: char) -> (r: String)
    ensures
        r@ == join_spec(fields.deep_view(), delim),
{
    let ghost items = fields.deep_view();
    let mut out = String::new();
    let mut k: usize = 0;
    proof {
        assert(items.take(0) =~= Seq::<Seq<char>>::empty());
        assert(out@ =~= join_spec(items.take(0), delim));
    }
    while k < fields.len()
        invariant
            items == fields.deep_view(),
            items.len() == fields@.len(),
            k <= fields@.len(),
            out@ == join_spec(items.take(k as int), delim),
        decreases fields@.len() - k,
    {
        if k > 0 {
            push_char(&mut out, delim);
        }
        let encoded = encode_field_exec(&fields[k], delim);
        out.append(encoded.as_str());
        proof {
            assert(items.take(k as int).push(items[k as int]) =~= items.take(k as int + 1));
            if k == 0 {
                assert(items.take(1)[0] == items[0]);
                assert(items.take(1).len() == 1);
                assert(out@ =~= encode_field(items[0], delim));
                assert(join_spec(items.take(1), delim) == encode_field(items.take(1)[0], delim));
            } else {
                lemma_join_push(items.take(k as int), items[k as int], delim);
                assert(out@ =~= (join_spec(items.take(k as int), delim) + seq![delim])
                    + encode_field(items[k as int], delim));
                assert(join_spec(items.take(k as int), delim) + seq![delim] + encode_field(
                    items[k as int],
                    delim,
                ) =~= (join_spec(items.take(k as int), delim) + seq![delim]) + encode_field(
                    items[k as int],
                    delim,
                ));
            }
        }
        k += 1;
    }
    proof {
        assert(items.take(items.len() as int) =~= items);
    }
    out
}

/// Splitting always yields at least one token.
proof fn lemma_split_on_from_len(s: Seq<char>, sep: char, cur: Seq<char>)
    ensures
        split_on_from(s, sep, cur).len() >= 1,
    decreases s.len(),
{
    if s.len() == 0 {
    } else if s[0] == sep {
        lemma_split_on_from_len(s.drop_first(), sep, Seq::empty());
    } else {
        lemma_split_on_from_len(s.drop_first(), sep, cur.push(s[0]));
    }
}

/// Inside a quoted field, the splitter undoes the escaping: consuming
/// the escaped text appends the original text to the current field.
proof fn lemma_run_quoted(fields: Seq<Seq<char>>, cur: Seq<char>, f: Seq<char>, rest: Seq<char>, d: char)
    ensures
        split_run(SplitAcc { fields, cur, st: SplitState::Quoted }, escape_quotes(f) + rest, d)
            == split_run(SplitAcc { fields, cur: cur + f, st: SplitState::Quoted }, rest, d),
    decreases f.len(),
{
    let start = SplitAcc { fields, cur, st: SplitState::Quoted };
    if f.len() == 0 {
        assert(escape_quotes(f) =~= Seq::<char>::empty());
        assert(escape_quotes(f) + rest =~= rest);
        assert(cur + f =~= cur);
    } else if f[0] == '"' {
        assert(escape_quotes(f) == seq!['"', '"'] + escape_quotes(f.drop_first()));
        let s0 = escape_quotes(f) + rest;
        let s1 = seq!['"'] + (escape_quotes(f.drop_first()) + rest);
        let s2 = escape_quotes(f.drop_first()) + rest;
        assert(s0[0] == '"');
        assert(s0.drop_first() =~= s1);
        assert(s1[0] == '"');
        assert(s1.drop_first() =~= s2);
        let mid = SplitAcc { fields, cur, st: SplitState::AfterQuote };
        let back = SplitAcc { fields, cur: cur.push('"'), st: SplitState::Quoted };
        assert(split_run(start, s0, d) == split_run(mid, s1, d));
        assert(split_run(mid, s1, d) == split_run(back, s2, d));
        lemma_run_quoted(fields, cur.push('"'), f.drop_first(), rest, d);
        assert(cur.push('"') + f.drop_first() =~= cur + f);
    } else {
        assert(escape_quotes(f) == seq![f[0]] + escape_quotes(f.drop_first()));
        let s0 = escape_quotes(f) + rest;
        let s2 = escape_quotes(f.drop_first()) + rest;
        assert(s0[0] == f[0]);
        assert(s0.drop_first() =~= s2);
        let next = SplitAcc { fields, cur: cur.push(f[0]), st: SplitState::Quoted };
        assert(split_run(start, s0, d) == split_run(next, s2, d));
        lemma_run_quoted(fields, cur.push(f[0]), f.drop_first(), rest, d);
        assert(cur.push(f[0]) + f.drop_first() =~= cur + f);
    }
}

/// Inside an unquoted field, consuming delimiter-free text appends it
/// to the current field.
proof fn lemma_run_unquoted(
    fields: Seq<Seq<char>>,
    cur: Seq<char>,
    f: Seq<char>,
    rest: Seq<char>,
    d: char,
)
    requires
        forall|i: int| 0 <= i < f.len() ==> f[i] != d,
    ensures
        split_run(SplitAcc { fields, cur, st: SplitState::Unquoted }, f + rest, d) == split_run(
            SplitAcc { fields, cur: cur + f, st: SplitState::Unquoted },
            rest,
            d,
        ),
    decreases f.len(),
{
    if f.len() == 0 {
        assert(f + rest =~= rest);
        assert(cur + f =~= cur);
    } else {
        let start = SplitAcc { fields, cur, st: SplitState::Unquoted };
        let s0 = f + rest;
        let s2 = f.drop_first() + rest;
        assert(s0[0] == f[0]);
        assert(s0.drop_first() =~= s2);
        let next = SplitAcc { fields, cur: cur.push(f[0]), st: SplitState::Unquoted };
        assert(split_run(start, s0, d) == split_run(next, s2, d));
        lemma_run_unquoted(fields, cur.push(f[0]), f.drop_first(), rest, d);
        assert(cur.push(f[0]) + f.drop_first() =~= cur + f);
    }
}

/// At the start of the last field of a record, consuming its encoding
/// closes the record with exactly that field appended.
proof fn lemma_run_last_field(fields: Seq<Seq<char>>, f: Seq<char>, d: char)
    requires
        d != '"',
    ensures
        split_run(
            SplitAcc { fields, cur: Seq::empty(), st: SplitState::AtStart },
            encode_field(f, d),
            d,
        ) == Ok::<Seq<Seq<char>>, RecordError>(fields.push(f)),
{
    let start = SplitAcc { fields, cur: Seq::empty(), st: SplitState::AtStart };
    if needs_quote(f, d) {
        let s0 = encode_field(f, d);
        assert(s0 == seq!['"'] + escape_quotes(f) + seq!['"']);
        assert(s0[0] == '"');
        let s1 = escape_quotes(f) + seq!['"'];
        assert(s0.drop_first() =~= s1);
        let quoted = SplitAcc { fields, cur: Seq::empty(), st: SplitState::Quoted };
        assert(split_run(start, s0, d) == split_run(quoted, s1, d));
        lemma_run_quoted(fields, Seq::empty(), f, seq!['"'], d);
        assert(Seq::<char>::empty() + f =~= f);
        let full = SplitAcc { fields, cur: f, st: SplitState::Quoted };
        let s2 = seq!['"'];
        assert(s2[0] == '"');
        assert(s2.drop_first() =~= Seq::<char>::empty());
        let after = SplitAcc { fields, cur: f, st: SplitState::AfterQuote };
        assert(split_run(full, s2, d) == split_run(after, Seq::<char>::empty(), d));
        assert(split_run(after, Seq::<char>::empty(), d) == Ok::<Seq<Seq<char>>, RecordError>(
            fields.push(f),
        ));
    } else if f.len() == 0 {
        assert(encode_field(f, d) =~= Seq::<char>::empty());
        assert(split_run(start, Seq::<char>::empty(), d) == Ok::<Seq<Seq<char>>, RecordError>(
            fields.push(Seq::empty()),
        ));
        assert(f =~= Seq::<char>::empty());
    } else {
        let s0 = encode_field(f, d);
        assert(s0 == f);
        assert(f[0] != d && f[0] != '"');
        let s2 = f.drop_first() + Seq::<char>::empty();
        assert(s0.drop_first() =~= s2);
        assert(Seq::<char>::empty().push(f[0]) =~= seq![f[0]]);
        let inside = SplitAcc { fields, cur: seq![f[0]], st: SplitState::Unquoted };
        assert(split_run(start, s0, d) == split_run(inside, s2, d));
        lemma_run_unquoted(fields, seq![f[0]], f.drop_first(), Seq::empty(), d);
        assert(seq![f[0]] + f.drop_first() =~= f);
        let full = SplitAcc { fields, cur: f, st: SplitState::Unquoted };
        assert(split_run(full, Seq::<char>::empty(), d) == Ok::<Seq<Seq<char>>, RecordError>(
            fields.push(f),
        ));
    }
}

/// At the start of a field, consuming its encoding and the following
/// delimiter finishes that field and stands at the start of the next.
proof fn lemma_run_field_delim(fields: Seq<Seq<char>>, f: Seq<char>, rest: Seq<char>, d: char)
    requires
        d != '"',
    ensures
        split_run(
            SplitAcc { fields, cur: Seq::empty(), st: SplitState::AtStart },
            encode_field(f, d) + seq![d] + rest,
            d,
        ) == split_run(
            SplitAcc { fields: fields.push(f), cur: Seq::empty(), st: SplitState::AtStart },
            rest,
            d,
        ),
{
    let s0 = encode_field(f, d) + seq![d] + rest;
    let start = SplitAcc { fields, cur: Seq::empty(), st: SplitState::AtStart };
    let done = SplitAcc { fields: fields.push(f), cur: Seq::empty(), st: SplitState::AtStart };
    if needs_quote(f, d) {
        assert(encode_field(f, d) == seq!['"'] + escape_quotes(f) + seq!['"']);
        assert(s0[0] == '"');
        let s1 = escape_quotes(f) + (seq!['"', d] + rest);
        assert(s0.drop_first() =~= s1);
        let quoted = SplitAcc { fields, cur: Seq::empty(), st: SplitState::Quoted };
        assert(split_run(start, s0, d) == split_run(quoted, s1, d));
        lemma_run_quoted(fields, Seq::empty(), f, seq!['"', d] + rest, d);
        assert(Seq::<char>::empty() + f =~= f);
        let full = SplitAcc { fields, cur: f, st: SplitState::Quoted };
        let s2 = seq!['"', d] + rest;
        assert(s2[0] == '"');
        let s3 = seq![d] + rest;
        assert(s2.drop_first() =~= s3);
        let after = SplitAcc { fields, cur: f, st: SplitState::AfterQuote };
        assert(split_run(full, s2, d) == split_run(after, s3, d));
        assert(s3[0] == d);
        assert(s3.drop_first() =~= rest);
        assert(split_run(after, s3, d) == split_run(done, rest, d));
    } else if f.len() == 0 {
        assert(s0 =~= seq![d] + rest);
        assert(s0[0] == d);
        assert(s0.drop_first() =~= rest);
        assert(f =~= Seq::<char>::empty());
        assert(split_run(start, s0, d) == split_run(done, rest, d));
    } else {
        assert(encode_field(f, d) == f);
        assert(s0[0] == f[0]);
        assert(f[0] != d && f[0] != '"');
        let s2 = f.drop_first() + (seq![d] + rest);
        assert(s0.drop_first() =~= s2);
        assert(Seq::<char>::empty().push(f[0]) =~= seq![f[0]]);
        let inside = SplitAcc { fields, cur: seq![f[0]], st: SplitState::Unquoted };
        assert(split_run(start, s0, d) == split_run(inside, s2, d));
        lemma_run_unquoted(fields, seq![f[0]], f.drop_first(), seq![d] + rest, d);
        assert(seq![f[0]] + f.drop_first() =~= f);
        let full = SplitAcc { fields, cur: f, st: SplitState::Unquoted };
        let s3 = seq![d] + rest;
        assert(s3[0] == d);
        assert(s3.drop_first() =~= rest);
        assert(split_run(full, s3, d) == split_run(done, rest, d));
    }
}

/// From the start of a record, consuming a serialised non-empty field
/// list appends exactly those fields.
proof fn lemma_run_join(pre: Seq<Seq<char>>, fields: Seq<Seq<char>>, d: char)
    requires
        d != '"',
        fields.len() >= 1,
    ensures
        split_run(
            SplitAcc { fields: pre, cur: Seq::empty(), st: SplitState::AtStart },
            join_spec(fields, d),
            d,
        ) == Ok::<Seq<Seq<char>>, RecordError>(pre + fields),
    decreases fields.len(),
{
    if fields.len() == 1 {
        assert(join_spec(fields, d) == encode_field(fields[0], d));
        lemma_run_last_field(pre, fields[0], d);
        assert(pre.push(fields[0]) =~= pre + fields);
    } else {
        assert(join_spec(fields, d) == encode_field(fields[0], d) + seq![d] + join_spec(
            fields.drop_first(),
            d,
        ));
        lemma_run_field_delim(pre, fields[0], join_spec(fields.drop_first(), d), d);
        lemma_run_join(pre.push(fields[0]), fields.drop_first(), d);
        assert(pre.push(fields[0]) + fields.drop_first() =~= pre + fields);
    }
}

/// Round trip, fields first: serialising any non-empty field list and
/// splitting the result with the same delimiter yields exactly the
/// original field sequence, duplicates, order and empty fields
/// included.
pub proof fn lemma_split_join_roundtrip(fields: Seq<Seq<char>>, d: char)
    requires
        fields.len() >= 1,
        d != '"',
    ensures
        split_spec(join_spec(fields, d), d) == Ok::<Seq<Seq<char>>, RecordError>(fields),
{
    lemma_run_join(Seq::empty(), fields, d);
    assert(Seq::<Seq<char>>::empty() + fields =~= fields);
}

/// A record without quotes splits like a plain split on the delimiter,
/// and splitting never fails on it.
proof fn lemma_split_plain(
    fields: Seq<Seq<char>>,
    cur: Seq<char>,
    s: Seq<char>,
    d: char,
    st: SplitState,
)
    requires
        forall|i: int| 0 <= i < s.len() ==> s[i] != '"',
        st is Unquoted || (st is AtStart && cur == Seq::<char>::empty()),
    ensures
        split_run(SplitAcc { fields, cur, st }, s, d) == Ok::<Seq<Seq<char>>, RecordError>(
            fields + split_on_from(s, d, cur),
        ),
    decreases s.len(),
{
    if s.len() == 0 {
        assert(fields + seq![cur] =~= fields.push(cur));
    } else if s[0] == d {
        lemma_split_plain(fields.push(cur), Seq::empty(), s.drop_first(), d, SplitState::AtStart);
        assert(fields.push(cur) + split_on_from(s.drop_first(), d, Seq::empty()) =~= fields + (
        seq![cur] + split_on_from(s.drop_first(), d, Seq::empty())));
    } else {
        lemma_split_plain(fields, cur.push(s[0]), s.drop_first(), d, SplitState::Unquoted);
    }
}

/// Joining the plain split of quote-free, break-free text restores the
/// text.
proof fn lemma_join_plain(cur: Seq<char>, s: Seq<char>, d: char)
    requires
        forall|i: int| 0 <= i < s.len() ==> (s[i] != '"' && s[i] != '\n' && s[i] != '\r'),
        forall|i: int| 0 <= i < cur.len() ==> !is_special(#[trigger] cur[i], d),
    ensures
        join_spec(split_on_from(s, d, cur), d) == cur + s,
    decreases s.len(),
{
    if s.len() == 0 {
        assert(!needs_quote(cur, d));
        assert(join_spec(seq![cur], d) == encode_field(cur, d));
        assert(cur + s =~= cur);
    } else if s[0] == d {
        lemma_split_on_from_len(s.drop_first(), d, Seq::empty());
        lemma_join_plain(Seq::empty(), s.drop_first(), d);
        let x = split_on_from(s.drop_first(), d, Seq::empty());
        assert(split_on_from(s, d, cur) == seq![cur] + x);
        assert((seq![cur] + x)[0] == cur);
        assert((seq![cur] + x).drop_first() =~= x);
        assert((seq![cur] + x).len() >= 2);
        assert(!needs_quote(cur, d));
        assert(Seq::<char>::empty() + s.drop_first() =~= s.drop_first());
        assert(cur + seq![d] + s.drop_first() =~= cur + s);
    } else {
        lemma_join_plain(cur.push(s[0]), s.drop_first(), d);
        assert(cur.push(s[0]) + s.drop_first() =~= cur + s);
    }
}

/// Round trip, record first: a record holding no quote character and no
/// line break always splits cleanly, and serialising its fields again
/// with the same delimiter reproduces the record exactly.
pub proof fn lemma_join_split_roundtrip(line: Seq<char>, d: char)
    requires
        forall|i: int| 0 <= i < line.len() ==> (line[i] != '"' && line[i] != '\n' && line[i]
            != '\r'),
    ensures
        split_spec(line, d) is Ok,
        join_spec(split_spec(line, d)->Ok_0, d) == line,
{
    lemma_split_plain(Seq::empty(), Seq::empty(), line, d, SplitState::AtStart);
    assert(Seq::<Seq<char>>::empty() + split_on_from(line, d, Seq::empty()) =~= split_on_from(
        line,
        d,
        Seq::empty(),
    ));
    lemma_join_plain(Seq::empty(), line, d);
    assert(Seq::<char>::empty() + line =~= line);
}

} // verus!
