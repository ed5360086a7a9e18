//! Path names: subpath coordinates (`name:start-end`), the key a path's
//! colour is hashed from, and canonical edge keys.

use sha2::{Digest, Sha256};
use vstd::prelude::*;
use vstd::string::{StrSliceExecFns, StringExecFns};

verus! {

/// Index of the last `c` in `s`, or -1.
pub open spec fn last_index_of(s: Seq<char>, c: char) -> int
    decreases s.len(),
{
    if s.len() == 0 {
        -1
    } else if s.last() == c {
        s.len() - 1
    } else {
        last_index_of(s.drop_last(), c)
    }
}

/// Index of the first `c` in `s[k..]`, or -1.
pub open spec fn first_index_from(s: Seq<char>, c: char, k: int) -> int
    decreases s.len() - k,
{
    if k >= s.len() || k < 0 {
        -1
    } else if s[k] == c {
        k
    } else {
        first_index_from(s, c, k + 1)
    }
}

/// Index of the first `c` in `s`, or -1.
pub open spec fn first_index_of(s: Seq<char>, c: char) -> int {
    first_index_from(s, c, 0)
}

pub open spec fn is_digit(c: char) -> bool {
    '0' <= c <= '9'
}

/// The value of a string of decimal digits.
pub open spec fn digits_value(s: Seq<char>) -> int
    decreases s.len(),
{
    if s.len() == 0 {
        0
    } else {
        digits_value(s.drop_last()) * 10 + (s.last() as int - '0' as int)
    }
}

/// The digits part of a number: without one leading `+`.
pub open spec fn u64_body(s: Seq<char>) -> Seq<char> {
    if s.len() > 0 && s[0] == '+' {
        s.drop_first()
    } else {
        s
    }
}

pub open spec fn all_digits(s: Seq<char>) -> bool {
    forall|i: int| 0 <= i < s.len() ==> is_digit(#[trigger] s[i])
}

/// What `str::parse::<u64>` gives: an optional `+`, then at least one
/// decimal digit, of a value that fits.
pub open spec fn parse_u64(s: Seq<char>) -> Option<u64> {
    let body = u64_body(s);
    if body.len() > 0 && all_digits(body) && digits_value(body) <= u64::MAX {
        Some(digits_value(body) as u64)
    } else {
        None
    }
}

proof fn lemma_digits_value_nonneg(s: Seq<char>)
    requires
        forall|i: int| 0 <= i < s.len() ==> is_digit(#[trigger] s[i]),
    ensures
        digits_value(s) >= 0,
    decreases s.len(),
{
    if s.len() > 0 {
        lemma_digits_value_nonneg(s.drop_last());
    }
}

/// Parses a decimal `u64` as `str::parse` does.
pub fn parse_decimal_u64(s: &str) -> (r: Option<u64>)
    ensures
        r == parse_u64(s@),
{
    let len = s.unicode_len();
    let mut start: usize = 0;
    if len > 0 && s.get_char(0) == '+' {
        start = 1;
    }
    let ghost body = u64_body(s@);
    assert(body =~= s@.subrange(start as int, len as int));
    if start == len {
        return None;
    }
    let mut value: u64 = 0;
    let mut i: usize = start;
    while i < len
        invariant
            len == s@.len(),
            start <= i <= len,
            body == u64_body(s@),
            body == s@.subrange(start as int, len as int),
            forall|k: int| start <= k < i ==> is_digit(#[trigger] s@[k]),
            value == digits_value(s@.subrange(start as int, i as int)),
        decreases len - i,
    {
        let c = s.get_char(i);
        let ghost pre = s@.subrange(start as int, i as int);
        let ghost next = s@.subrange(start as int, i as int + 1);
        assert(next.drop_last() =~= pre);
        if !('0' <= c && c <= '9') {
            assert(!is_digit(body[i - start]));
            proof {
                assert(!(forall|k: int| 0 <= k < body.len() ==> is_digit(#[trigger] body[k])));
                lemma_parse_none(s@, body);
            }
            return None;
        }
        let d = (c as u32 - '0' as u32) as u64;
        if value > (u64::MAX - d) / 10 {
            proof {
                assert(digits_value(next) == digits_value(pre) * 10 + d);
                assert(value * 10 + d > u64::MAX) by (nonlinear_arith)
                    requires value > (u64::MAX - d) / 10, d <= 9;
                assert forall|k: int| 0 <= k < next.len() implies is_digit(#[trigger] next[k]) by {
                    assert(next[k] == s@[start + k]);
                }
                lemma_digits_value_nonneg(next);
                lemma_digits_above(s@, start as int, i as int + 1, len as int);
                assert(s@.subrange(start as int, len as int) == body);
                lemma_parse_none(s@, body);
            }
            return None;
        }
        proof {
            assert(digits_value(next) == digits_value(pre) * 10 + d);
            assert(value * 10 + d <= u64::MAX) by (nonlinear_arith)
                requires value <= (u64::MAX - d) / 10, d <= 9;
        }
        value = value * 10 + d;
        i = i + 1;
    }
    proof {
        assert(s@.subrange(start as int, len as int) =~= body);
        assert forall|k: int| 0 <= k < body.len() implies is_digit(#[trigger] body[k]) by {
            assert(body[k] == s@[start + k]);
        }
    }
    Some(value)
}

proof fn lemma_parse_none(s: Seq<char>, body: Seq<char>)
    requires
        body == u64_body(s),
        !all_digits(body) || digits_value(body) > u64::MAX,
    ensures
        parse_u64(s) is None,
{
}

/// Appending digits never lowers a digit string's value.
proof fn lemma_digits_above(s: Seq<char>, start: int, j: int, k: int)
    requires
        0 <= start <= j <= k <= s.len(),
        forall|i: int| start <= i < j ==> is_digit(#[trigger] s[i]),
        digits_value(s.subrange(start, j)) > u64::MAX,
    ensures
        !(forall|i: int| 0 <= i < s.subrange(start, k).len() ==> is_digit(#[trigger] s.subrange(start, k)[i]))
            || digits_value(s.subrange(start, k)) > u64::MAX,
    decreases k - j,
{
    if j < k {
        let a = s.subrange(start, j);
        let b = s.subrange(start, j + 1);
        assert(b.drop_last() =~= a);
        if is_digit(s[j]) {
            lemma_digits_above(s, start, j + 1, k);
        } else {
            if k > j {
                assert(s.subrange(start, k)[j - start] == s[j]);
            }
        }
    }
}

proof fn lemma_last_index(s: Seq<char>, c: char)
    ensures
        -1 <= last_index_of(s, c) < s.len(),
        last_index_of(s, c) >= 0 ==> s[last_index_of(s, c)] == c,
    decreases s.len(),
{
    if s.len() > 0 && s.last() != c {
        lemma_last_index(s.drop_last(), c);
    }
}

proof fn lemma_first_index(s: Seq<char>, c: char, k: int)
    requires
        0 <= k,
    ensures
        first_index_from(s, c, k) == -1 || k <= first_index_from(s, c, k) < s.len(),
    decreases s.len() - k,
{
    if k < s.len() && s[k] != c {
        lemma_first_index(s, c, k + 1);
    }
}

/// The last index of `c` in `s`, as `str::rfind` finds it.
fn rfind_char(s: &str, c: char) -> (r: Option<usize>)
    ensures
        match r {
            Some(i) => i == last_index_of(s@, c),
            None => last_index_of(s@, c) == -1,
        },
{
    let mut i = s.unicode_len();
    assert(s@.subrange(0, i as int) =~= s@);
    while i > 0
        invariant
            i <= s@.len(),
            last_index_of(s@, c) == last_index_of(s@.subrange(0, i as int), c),
        decreases i,
    {
        let ghost pre = s@.subrange(0, i as int);
        assert(pre.drop_last() =~= s@.subrange(0, i - 1));
        if s.get_char(i - 1) == c {
            return Some(i - 1);
        }
        i = i - 1;
    }
    None
}

/// The first index of `c` in `s`, as `str::find` finds it.
fn find_char(s: &str, c: char) -> (r: Option<usize>)
    ensures
        match r {
            Some(i) => i == first_index_of(s@, c),
            None => first_index_of(s@, c) == -1,
        },
{
    let len = s.unicode_len();
    let mut i: usize = 0;
    while i < len
        invariant
            len == s@.len(),
            i <= len,
            first_index_of(s@, c) == first_index_from(s@, c, i as int),
        decreases len - i,
    {
        if s.get_char(i) == c {
            return Some(i);
        }
        i = i + 1;
    }
    None
}

/// The part after the last `:` of a name, if there is one.
pub open spec fn range_part(name: Seq<char>) -> Seq<char> {
    name.subrange(last_index_of(name, ':') + 1, name.len() as int)
}

/// The start of a `name:start-end` path name, or 0.
pub open spec fn subpath_start(name: Seq<char>) -> u64 {
    let colon = last_index_of(name, ':');
    let range = range_part(name);
    let dash = first_index_of(range, '-');
    if colon >= 0 && dash >= 0 {
        match parse_u64(range.subrange(0, dash)) {
            Some(v) => v,
            None => 0,
        }
    } else {
        0
    }
}

/// The start coordinate of a `name:start-end` path name; 0 when the name
/// has no such range.
pub fn parse_subpath_start(path_name: &str) -> (r: u64)
    ensures
        r == subpath_start(path_name@),
{
    proof {
        lemma_last_index(path_name@, ':');
    }
    let len = path_name.unicode_len();
    if let Some(colon_pos) = rfind_char(path_name, ':') {
        let range = path_name.substring_char(colon_pos + 1, len);
        proof {
            lemma_first_index(range@, '-', 0);
        }
        if let Some(dash_pos) = find_char(range, '-') {
            if let Some(start) = parse_decimal_u64(range.substring_char(0, dash_pos)) {
                return start;
            }
        }
    }
    0
}

/// The name without a trailing `:start-end` range of two numbers.
pub open spec fn without_subpath_range(name: Seq<char>) -> Seq<char> {
    let colon = last_index_of(name, ':');
    let range = range_part(name);
    let dash = first_index_of(range, '-');
    if colon >= 0 && dash >= 0 && parse_u64(range.subrange(0, dash)) is Some && parse_u64(
        range.subrange(dash + 1, range.len() as int),
    ) is Some {
        name.subrange(0, colon)
    } else {
        name
    }
}

/// Strips a trailing `:start-end` range of two numbers from a path name.
pub fn strip_subpath_range(path_name: &str) -> (r: &str)
    ensures
        r@ == without_subpath_range(path_name@),
{
    proof {
        lemma_last_index(path_name@, ':');
    }
    let len = path_name.unicode_len();
    if let Some(colon_pos) = rfind_char(path_name, ':') {
        let range = path_name.substring_char(colon_pos + 1, len);
        proof {
            lemma_first_index(range@, '-', 0);
        }
        if let Some(dash_pos) = find_char(range, '-') {
            if parse_decimal_u64(range.substring_char(0, dash_pos)).is_some() && parse_decimal_u64(
                range.substring_char(dash_pos + 1, range.unicode_len()),
            ).is_some() {
                return path_name.substring_char(0, colon_pos);
            }
        }
    }
    path_name
}

/// What a path's colour is hashed from: the name up to the first
/// separator, or the whole name.
pub open spec fn color_key(name: Seq<char>, sep: Option<char>) -> Seq<char> {
    match sep {
        Some(c) => {
            let i = first_index_of(name, c);
            if i >= 0 {
                name.subrange(0, i)
            } else {
                name
            }
        },
        None => name,
    }
}

/// The text a path's colour is hashed from.
pub fn path_color_key(path_name: &str, color_by_prefix: Option<char>) -> (r: &str)
    ensures
        r@ == color_key(path_name@, color_by_prefix),
{
    match color_by_prefix {
        Some(sep) => {
            proof {
                lemma_first_index(path_name@, sep, 0);
            }
            match find_char(path_name, sep) {
                Some(i) => path_name.substring_char(0, i),
                None => path_name,
            }
        },
        None => path_name,
    }
}

/// The SHA-256 digest of the UTF-8 bytes of a text.
pub uninterp spec fn sha256_of(s: Seq<char>) -> Seq<u8>;

/// Relies on sha2's `Sha256` (`new`, `update`, `finalize`): the 32-byte
/// digest of the text's bytes, a function of the text alone.
#[verifier::external_body]
fn sha256_digest(s: &str) -> (r: Vec<u8>)
    ensures
        r@ == sha256_of(s@),
        r@.len() == 32,
{
    let mut hasher = Sha256::new();
    hasher.update(s.as_bytes());
    hasher.finalize().to_vec()
}

/// The red, green and blue bytes a path's colour starts from: bytes 24, 8
/// and 16 of the digest of its colour key.
pub open spec fn color_seed(digest: Seq<u8>) -> (u8, u8, u8) {
    (digest[24], digest[8], digest[16])
}

/// Picks the colour bytes from a digest.
pub fn seed_from_digest(digest: &Vec<u8>) -> (r: (u8, u8, u8))
    requires
        digest@.len() == 32,
    ensures
        r == color_seed(digest@),
{
    (digest[24], digest[8], digest[16])
}

/// The colour bytes of a path: from the digest of its name, or of the
/// name's prefix before `color_by_prefix`.
pub fn path_color_seed(path_name: &str, color_by_prefix: Option<char>) -> (r: (u8, u8, u8))
    ensures
        r == color_seed(sha256_of(color_key(path_name@, color_by_prefix))),
{
    let key = path_color_key(path_name, color_by_prefix);
    let digest = sha256_digest(key);
    seed_from_digest(&digest)
}

/// Default number of classes of a palette.
pub const DEFAULT_PALETTE_CLASSES: usize = 11;

/// What `str::parse::<usize>` gives.
pub open spec fn parse_usize(s: Seq<char>) -> Option<usize> {
    match parse_u64(s) {
        Some(v) => if v <= usize::MAX {
            Some(v as usize)
        } else {
            None
        },
        None => None,
    }
}

/// A palette argument `SCHEME` or `SCHEME:N`: the scheme and the class
/// count (11 by default); `None` for more than one `:` or a bad count.
pub open spec fn palette_arg(arg: Seq<char>) -> Option<(Seq<char>, usize)> {
    let first = first_index_of(arg, ':');
    let last = last_index_of(arg, ':');
    if first < 0 {
        Some((arg, DEFAULT_PALETTE_CLASSES))
    } else if first == last {
        match parse_usize(arg.subrange(first + 1, arg.len() as int)) {
            Some(n) => Some((arg.subrange(0, first), n)),
            None => None,
        }
    } else {
        None
    }
}

/// Parses a palette argument `SCHEME[:N]`.
pub fn parse_colorbrewer_arg(arg: &str) -> (r: Option<(String, usize)>)
    ensures
        match r {
            Some((name, n)) => palette_arg(arg@) == Some((name@, n)),
            None => palette_arg(arg@) is None,
        },
{
    let len = arg.unicode_len();
    proof {
        lemma_first_index(arg@, ':', 0);
        lemma_last_index(arg@, ':');
    }
    match find_char(arg, ':') {
        None => Some((String::from_str(arg), DEFAULT_PALETTE_CLASSES)),
        Some(first) => {
            let last = rfind_char(arg, ':');
            if last == Some(first) {
                match parse_decimal_u64(arg.substring_char(first + 1, len)) {
                    Some(v) => if v <= usize::MAX as u64 {
                        Some((String::from_str(arg.substring_char(0, first)), v as usize))
                    } else {
                        None
                    },
                    None => None,
                }
            } else {
                None
            }
        },
    }
}

/// The XML text of one character: the five special characters become
/// entities.
pub open spec fn xml_char(c: char) -> Seq<char> {
    if c == '&' {
        "&amp;"@
    } else if c == '<' {
        "&lt;"@
    } else if c == '>' {
        "&gt;"@
    } else if c == '"' {
        "&quot;"@
    } else if c == '\'' {
        "&apos;"@
    } else {
        seq![c]
    }
}

/// The XML text of `s[0..k]`.
pub open spec fn xml_escaped(s: Seq<char>, k: int) -> Seq<char>
    decreases k,
{
    if k <= 0 {
        Seq::empty()
    } else {
        xml_escaped(s, k - 1) + xml_char(s[k - 1])
    }
}

/// Escapes text for XML content and attribute values.
pub fn escape_xml(s: &str) -> (r: String)
    ensures
        r@ == xml_escaped(s@, s@.len() as int),
{
    let len = s.unicode_len();
    let mut out = String::new();
    assert(out@ =~= xml_escaped(s@, 0));
    let mut i: usize = 0;
    while i < len
        invariant
            len == s@.len(),
            i <= len,
            out@ == xml_escaped(s@, i as int),
        decreases len - i,
    {
        let c = s.get_char(i);
        let ghost before = out@;
        if c == '&' {
            out.append("&amp;");
        } else if c == '<' {
            out.append("&lt;");
        } else if c == '>' {
            out.append("&gt;");
        } else if c == '"' {
            out.append("&quot;");
        } else if c == '\'' {
            out.append("&apos;");
        } else {
            crate::csv::push_char(&mut out, c);
        }
        assert(out@ =~= before + xml_char(c));
        i = i + 1;
    }
    out
}

/// An edge in one canonical direction, so that both readings of an edge
/// get one key.
pub open spec fn canonical_edge(from_id: u64, from_rev: bool, to_id: u64, to_rev: bool) -> (u64, bool, u64, bool) {
    if from_id < to_id || (from_id == to_id && !from_rev) {
        (from_id, from_rev, to_id, to_rev)
    } else {
        (to_id, !to_rev, from_id, !from_rev)
    }
}

/// Canonical key of an edge for deduplication.
pub fn edge_key(from_id: u64, from_rev: bool, to_id: u64, to_rev: bool) -> (r: (u64, bool, u64, bool))
    ensures
        r == canonical_edge(from_id, from_rev, to_id, to_rev),
        r == canonical_edge(to_id, !to_rev, from_id, !from_rev) || (from_id == to_id && from_rev != to_rev),
{
    if from_id < to_id || (from_id == to_id && !from_rev) {
        (from_id, from_rev, to_id, to_rev)
    } else {
        (to_id, !to_rev, from_id, !from_rev)
    }
}

} // verus!
