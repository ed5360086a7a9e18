//! Splitting a CSV line into fields.

use vstd::prelude::*;
use vstd::string::{StrSliceExecFns, StringExecFns};

verus! {

/// Unicode White_Space, the characters `str::trim` removes.
pub open spec fn is_white_space(c: char) -> bool {
    ('\u{9}' <= c <= '\u{d}') || c == ' ' || c == '\u{85}' || c == '\u{a0}' || c == '\u{1680}' || ('\u{2000}' <= c
        <= '\u{200a}') || c == '\u{2028}' || c == '\u{2029}' || c == '\u{202f}' || c == '\u{205f}' || c == '\u{3000}'
}

/// The first index `>= i` of `s` that is not white space, or the length.
pub open spec fn lead_end(s: Seq<char>, i: int) -> int
    decreases s.len() - i,
{
    if 0 <= i < s.len() && is_white_space(s[i]) {
        lead_end(s, i + 1)
    } else {
        i
    }
}

/// The end of `s[lo..j]` without its trailing white space.
pub open spec fn trail_start(s: Seq<char>, j: int, lo: int) -> int
    decreases j - lo,
{
    if lo < j <= s.len() && is_white_space(s[j - 1]) {
        trail_start(s, j - 1, lo)
    } else {
        j
    }
}

/// The text without leading and trailing white space, as `str::trim`
/// leaves it.
pub open spec fn trimmed(s: Seq<char>) -> Seq<char> {
    let start = lead_end(s, 0);
    s.subrange(start, trail_start(s, s.len() as int, start))
}

fn white_space(c: char) -> (r: bool)
    ensures
        r == is_white_space(c),
{
    ('\u{9}' <= c && c <= '\u{d}') || c == ' ' || c == '\u{85}' || c == '\u{a0}' || c == '\u{1680}' || ('\u{2000}' <= c
        && c <= '\u{200a}') || c == '\u{2028}' || c == '\u{2029}' || c == '\u{202f}' || c == '\u{205f}' || c == '\u{3000}'
}

/// The text without leading and trailing white space.
pub fn trim_to_string(s: &String) -> (r: String)
    ensures
        r@ == trimmed(s@),
{
    let text = s.as_str();
    let len = text.unicode_len();
    let mut start: usize = 0;
    while start < len && white_space(text.get_char(start))
        invariant
            len == s@.len(),
            text@ == s@,
            start <= len,
            lead_end(s@, 0) == lead_end(s@, start as int),
        decreases len - start,
    {
        start = start + 1;
    }
    let mut end: usize = len;
    while end > start && white_space(text.get_char(end - 1))
        invariant
            len == s@.len(),
            text@ == s@,
            start <= end <= len,
            start == lead_end(s@, 0),
            trail_start(s@, len as int, start as int) == trail_start(s@, end as int, start as int),
        decreases end - start,
    {
        end = end - 1;
    }
    String::from_str(text.substring_char(start, end))
}

/// Relies on `String::push`: appends one character.
#[verifier::external_body]
pub(crate) fn push_char(s: &mut String, c: char)
    ensures
        final(s)@ == old(s)@.push(c),
{
    s.push(c);
}

/// The fields of `s[i..]`, given the fields so far, the field being read
/// and whether a quoted part is open. A doubled quote inside quotes stands
/// for one quote; a comma outside quotes ends a field; fields are trimmed.
pub open spec fn csv_fields_from(s: Seq<char>, i: int, fields: Seq<Seq<char>>, current: Seq<char>, in_quotes: bool) -> Seq<
    Seq<char>,
>
    decreases s.len() - i,
{
    if i < 0 || i >= s.len() {
        fields.push(trimmed(current))
    } else {
        let c = s[i];
        if c == '"' {
            if in_quotes && i + 1 < s.len() && s[i + 1] == '"' {
                csv_fields_from(s, i + 2, fields, current.push('"'), in_quotes)
            } else {
                csv_fields_from(s, i + 1, fields, current, !in_quotes)
            }
        } else if c == ',' && !in_quotes {
            csv_fields_from(s, i + 1, fields.push(trimmed(current)), Seq::empty(), in_quotes)
        } else {
            csv_fields_from(s, i + 1, fields, current.push(c), in_quotes)
        }
    }
}

pub open spec fn string_views(v: Seq<String>) -> Seq<Seq<char>> {
    v.map_values(|s: String| s@)
}

/// Splits a CSV line into trimmed fields; quoted parts may hold commas.
pub fn parse_csv_fields(line: &str) -> (fields: Vec<String>)
    ensures
        string_views(fields@) == csv_fields_from(line@, 0, Seq::empty(), Seq::empty(), false),
{
    let mut fields: Vec<String> = Vec::new();
    let mut current = String::new();
    let mut in_quotes = false;
    let len = line.unicode_len();
    assert(string_views(fields@) =~= Seq::<Seq<char>>::empty());
    assert(current@ =~= Seq::<char>::empty());
    let mut i: usize = 0;
    while i < len
        invariant
            len == line@.len(),
            i <= len + 1,
            csv_fields_from(line@, i as int, string_views(fields@), current@, in_quotes) == csv_fields_from(
                line@,
                0,
                Seq::empty(),
                Seq::empty(),
                false,
            ),
        decreases len + 1 - i,
    {
        let c = line.get_char(i);
        if c == '"' {
            if in_quotes && i + 1 < len && line.get_char(i + 1) == '"' {
                push_char(&mut current, '"');
                i = i + 1;
            } else {
                in_quotes = !in_quotes;
            }
        } else if c == ',' && !in_quotes {
            let ghost before = string_views(fields@);
            let ghost cur = current@;
            let field = trim_to_string(&current);
            fields.push(field);
            current = String::new();
            proof {
                assert(string_views(fields@) =~= before.push(trimmed(cur)));
                assert(current@ =~= Seq::<char>::empty());
            }
        } else {
            push_char(&mut current, c);
        }
        i = i + 1;
    }
    let ghost before = string_views(fields@);
    let field = trim_to_string(&current);
    fields.push(field);
    proof {
        assert(string_views(fields@) =~= before.push(field@));
    }
    fields
}

} // verus!
