//! The wire codec: the exchanges' array-of-arrays JSON layout, decoded
//! into rows of scalar fields and re-encoded verbatim.
//!
//! A response body or a persisted file is one JSON array of rows; a row
//! is one array of scalars.  A scalar is either a bare canonical integer
//! (timestamps, trade counts) or a quoted string (prices and volumes,
//! kept verbatim so that no numeric rounding ever touches them).  The
//! decoder accepts exactly the canonical texts the encoder produces: no
//! whitespace, no escapes, no leading zeros.  A body that strays from
//! that shape is a decode error, never a panic.

use vstd::prelude::*;
use vstd::string::*;

use crate::errors::Error;
use crate::text::{
    i64_string, spec_dec_digits, spec_digit_val, spec_int_text, spec_is_digit,
};

verus! {

/// One scalar field of a row: a bare integer or a quoted string.
#[derive(Debug, Clone, PartialEq, Eq)]
pub enum Scalar {
    Int(i64),
    Str(String),
}

/// The mathematical value of a scalar.
pub ghost enum SpecScalar {
    Int(int),
    Str(Seq<char>),
}

impl View for Scalar {
    type V = SpecScalar;

    open spec fn view(&self) -> SpecScalar {
        match self {
            Scalar::Int(n) => SpecScalar::Int(*n as int),
            Scalar::Str(s) => SpecScalar::Str(s@),
        }
    }
}

/// One decoded row: the fields of a single candle, in wire order.
pub type Row = Vec<Scalar>;

/// The value view of a row.
pub open spec fn spec_row_view(r: Seq<Scalar>) -> Seq<SpecScalar> {
    r.map_values(|s: Scalar| s@)
}

/// The value view of a row sequence.
pub open spec fn spec_rows_view(rows: Seq<Row>) -> Seq<Seq<SpecScalar>> {
    rows.map_values(|r: Row| spec_row_view(r@))
}

/// A character a quoted string may hold: printable ASCII except the
/// quote and the backslash, so that no escaping is ever needed.
pub open spec fn spec_valid_str_char(c: char) -> bool {
    ' ' <= c <= '~' && c != '"' && c != '\\'
}

/// Whether every character of a string is admissible on the wire.
pub open spec fn spec_valid_str(s: Seq<char>) -> bool {
    forall|i: int| 0 <= i < s.len() ==> spec_valid_str_char(#[trigger] s[i])
}

/// A scalar the encoder can represent: integers within the machine
/// range, strings over the admissible characters.
pub open spec fn spec_wf_scalar(v: SpecScalar) -> bool {
    match v {
        SpecScalar::Int(n) => i64::MIN <= n <= i64::MAX,
        SpecScalar::Str(s) => spec_valid_str(s),
    }
}

/// A row of representable scalars.
pub open spec fn spec_wf_row(r: Seq<SpecScalar>) -> bool {
    forall|i: int| 0 <= i < r.len() ==> spec_wf_scalar(#[trigger] r[i])
}

/// A row sequence of representable scalars.
pub open spec fn spec_wf_rows(rows: Seq<Seq<SpecScalar>>) -> bool {
    forall|i: int| 0 <= i < rows.len() ==> spec_wf_row(#[trigger] rows[i])
}

/// The wire text of one scalar.
pub open spec fn spec_scalar_text(v: SpecScalar) -> Seq<char> {
    match v {
        SpecScalar::Int(n) => spec_int_text(n),
        SpecScalar::Str(s) => seq!['"'] + s + seq!['"'],
    }
}

/// Texts joined with a comma between each pair.
pub open spec fn spec_join_comma(items: Seq<Seq<char>>) -> Seq<char>
    decreases items.len(),
{
    if items.len() == 0 {
        Seq::empty()
    } else if items.len() == 1 {
        items[0]
    } else {
        items[0] + seq![','] + spec_join_comma(items.drop_first())
    }
}

/// The wire text of one row.
pub open spec fn spec_row_text(r: Seq<SpecScalar>) -> Seq<char> {
    seq!['['] + spec_join_comma(r.map_values(|v: SpecScalar| spec_scalar_text(v))) + seq![']']
}

/// The wire text of a whole document.
pub open spec fn spec_doc_text(rows: Seq<Seq<SpecScalar>>) -> Seq<char> {
    seq!['['] + spec_join_comma(rows.map_values(|r: Seq<SpecScalar>| spec_row_text(r))) + seq![']']
}

/// Joining one more text appends a comma first unless nothing was there.
pub proof fn lemma_join_comma_push(items: Seq<Seq<char>>, x: Seq<char>)
    ensures
        spec_join_comma(items.push(x)) == if items.len() == 0 {
            x
        } else {
            spec_join_comma(items) + seq![','] + x
        },
    decreases items.len(),
{
    if items.len() == 0 {
        assert(items.push(x) =~= seq![x]);
        assert(spec_join_comma(seq![x]) == x);
    } else if items.len() == 1 {
        assert(items.push(x).len() == 2);
        assert(items.push(x).drop_first() =~= seq![x]);
        assert(items.push(x)[0] == items[0]);
        assert(spec_join_comma(seq![x]) == x);
        assert(spec_join_comma(items.push(x)) == items[0] + seq![','] + x);
        assert(spec_join_comma(items) == items[0]);
    } else {
        lemma_join_comma_push(items.drop_first(), x);
        assert(items.push(x).drop_first() =~= items.drop_first().push(x));
        assert(spec_join_comma(items.push(x)) == items[0] + seq![','] + spec_join_comma(
            items.drop_first().push(x),
        ));
        assert(spec_join_comma(items) + seq![','] + x =~= items[0] + seq![','] + (spec_join_comma(
            items.drop_first(),
        ) + seq![','] + x));
    }
}

/// Renders one scalar as wire text.
pub fn encode_scalar(v: &Scalar) -> (r: String)
    ensures
        r@ == spec_scalar_text(v@),
{
    proof {
        reveal_strlit("\"");
    }
    match v {
        Scalar::Int(n) => i64_string(*n),
        Scalar::Str(s) => {
            let mut out = String::new();
            out.append("\"");
            out.append(s.as_str());
            out.append("\"");
            proof {
                assert(out@ =~= seq!['"'] + s@ + seq!['"']);
            }
            out
        },
    }
}

/// Renders one row as wire text.
pub fn encode_row(r: &Row) -> (out: String)
    ensures
        out@ == spec_row_text(spec_row_view(r@)),
{
    proof {
        reveal_strlit("[");
        reveal_strlit("]");
        reveal_strlit(",");
    }
    let ghost texts = spec_row_view(r@).map_values(|v: SpecScalar| spec_scalar_text(v));
    let mut out = String::new();
    out.append("[");
    let mut i: usize = 0;
    while i < r.len()
        invariant
            0 <= i <= r.len(),
            texts == spec_row_view(r@).map_values(|v: SpecScalar| spec_scalar_text(v)),
            texts.len() == r@.len(),
            out@ == seq!['['] + spec_join_comma(texts.take(i as int)),
        decreases r.len() - i,
    {
        if i > 0 {
            out.append(",");
        }
        let field = encode_scalar(&r[i]);
        out.append(field.as_str());
        proof {
            reveal_strlit("[");
            reveal_strlit(",");
            assert(texts[i as int] == spec_scalar_text(r@[i as int]@));
            assert(texts.take(i + 1) =~= texts.take(i as int).push(texts[i as int]));
            lemma_join_comma_push(texts.take(i as int), texts[i as int]);
            if i == 0 {
                assert(out@ =~= seq!['['] + spec_join_comma(texts.take(1)));
            } else {
                assert(out@ =~= seq!['['] + spec_join_comma(texts.take(i + 1)));
            }
        }
        i = i + 1;
    }
    out.append("]");
    proof {
        assert(texts.take(texts.len() as int) =~= texts);
        assert(out@ =~= spec_row_text(spec_row_view(r@)));
    }
    out
}

/// Renders a whole document as wire text: the exact bytes written to a
/// destination file, and the exact shape the decoder accepts.
pub fn encode_doc(rows: &Vec<Row>) -> (out: String)
    ensures
        out@ == spec_doc_text(spec_rows_view(rows@)),
{
    proof {
        reveal_strlit("[");
        reveal_strlit("]");
        reveal_strlit(",");
    }
    let ghost texts = spec_rows_view(rows@).map_values(|r: Seq<SpecScalar>| spec_row_text(r));
    let mut out = String::new();
    out.append("[");
    let mut i: usize = 0;
    while i < rows.len()
        invariant
            0 <= i <= rows.len(),
            texts == spec_rows_view(rows@).map_values(|r: Seq<SpecScalar>| spec_row_text(r)),
            texts.len() == rows@.len(),
            out@ == seq!['['] + spec_join_comma(texts.take(i as int)),
        decreases rows.len() - i,
    {
        if i > 0 {
            out.append(",");
        }
        let row_text = encode_row(&rows[i]);
        out.append(row_text.as_str());
        proof {
            reveal_strlit("[");
            reveal_strlit(",");
            assert(texts[i as int] == spec_row_text(spec_row_view(rows@[i as int]@)));
            assert(texts.take(i + 1) =~= texts.take(i as int).push(texts[i as int]));
            lemma_join_comma_push(texts.take(i as int), texts[i as int]);
            if i == 0 {
                assert(out@ =~= seq!['['] + spec_join_comma(texts.take(1)));
            } else {
                assert(out@ =~= seq!['['] + spec_join_comma(texts.take(i + 1)));
            }
        }
        i = i + 1;
    }
    out.append("]");
    proof {
        assert(texts.take(texts.len() as int) =~= texts);
        assert(out@ =~= spec_doc_text(spec_rows_view(rows@)));
    }
    out
}


/// Ten to a non-negative power.
pub open spec fn spec_pow10(k: int) -> int
    decreases k,
        when k >= 0
{
    if k <= 0 {
        1
    } else {
        10 * spec_pow10(k - 1)
    }
}

/// The count of leading decimal digits.
pub open spec fn spec_digit_run(s: Seq<char>) -> int
    decreases s.len(),
{
    if s.len() > 0 && spec_is_digit(s[0]) {
        1 + spec_digit_run(s.drop_first())
    } else {
        0
    }
}

/// The value of the first `k` characters read as decimal digits.
pub open spec fn spec_digits_value(s: Seq<char>, k: int) -> int
    decreases k,
{
    if k <= 0 {
        0
    } else {
        spec_digits_value(s, k - 1) * 10 + spec_digit_val(s[k - 1])
    }
}

/// A digit-run value stays below ten to the run's length.
pub proof fn lemma_digits_value_bound(s: Seq<char>, k: int)
    requires
        k >= 0,
    ensures
        0 <= spec_digits_value(s, k) < spec_pow10(k),
    decreases k,
{
    if k > 0 {
        lemma_digits_value_bound(s, k - 1);
    }
}

/// Ten to a power is positive.
pub proof fn lemma_pow10_pos(k: int)
    requires
        k >= 0,
    ensures
        spec_pow10(k) >= 1,
    decreases k,
{
    if k > 0 {
        lemma_pow10_pos(k - 1);
    }
}

/// Ten to a power grows with the power.
pub proof fn lemma_pow10_mono(a: int, b: int)
    requires
        0 <= a <= b,
    ensures
        spec_pow10(a) <= spec_pow10(b),
    decreases b,
{
    if a < b {
        lemma_pow10_mono(a, b - 1);
        lemma_pow10_pos(b - 1);
    }
}

/// What parsing a bare integer yields: the canonical signed decimal at
/// the head of the text, rejecting leading zeros, a lone or signed
/// zero with a sign, runs past nineteen digits, and values outside the
/// machine range.
pub open spec fn spec_parse_int(s: Seq<char>) -> Option<(int, Seq<char>)> {
    let neg = s.len() > 0 && s[0] == '-';
    let t = if neg {
        s.drop_first()
    } else {
        s
    };
    let k = spec_digit_run(t);
    if k == 0 || k > 19 {
        None
    } else if t[0] == '0' && k > 1 {
        None
    } else {
        let v = spec_digits_value(t, k);
        let sv = if neg {
            -v
        } else {
            v
        };
        if neg && v == 0 {
            None
        } else if sv < (i64::MIN as int) || (i64::MAX as int) < sv {
            None
        } else {
            Some((sv, t.skip(k)))
        }
    }
}

/// The offset of the closing quote, provided everything before it is
/// admissible string content.
pub open spec fn spec_find_quote(s: Seq<char>) -> Option<int>
    decreases s.len(),
{
    if s.len() == 0 {
        None
    } else if s[0] == '"' {
        Some(0)
    } else if spec_valid_str_char(s[0]) {
        match spec_find_quote(s.drop_first()) {
            Some(j) => Some(1 + j),
            None => None,
        }
    } else {
        None
    }
}

/// What parsing a quoted string yields: the verbatim content up to the
/// closing quote.
pub open spec fn spec_parse_string(s: Seq<char>) -> Option<(Seq<char>, Seq<char>)> {
    if s.len() == 0 || s[0] != '"' {
        None
    } else {
        match spec_find_quote(s.drop_first()) {
            Some(q) => Some((s.drop_first().take(q), s.drop_first().skip(q + 1))),
            None => None,
        }
    }
}

/// What parsing one scalar yields: a string when a quote opens it, else
/// a bare integer.
pub open spec fn spec_parse_scalar(s: Seq<char>) -> Option<(SpecScalar, Seq<char>)> {
    if s.len() == 0 {
        None
    } else if s[0] == '"' {
        match spec_parse_string(s) {
            Some((cs, rest)) => Some((SpecScalar::Str(cs), rest)),
            None => None,
        }
    } else {
        match spec_parse_int(s) {
            Some((v, rest)) => Some((SpecScalar::Int(v), rest)),
            None => None,
        }
    }
}

/// What parsing the inside of a non-empty row yields: scalars separated
/// by commas, closed by a bracket.
pub open spec fn spec_parse_items(s: Seq<char>) -> Option<(Seq<SpecScalar>, Seq<char>)>
    decreases s.len(),
{
    match spec_parse_scalar(s) {
        None => None,
        Some((v, rest)) => {
            if rest.len() >= s.len() || rest.len() == 0 {
                None
            } else if rest[0] == ',' {
                match spec_parse_items(rest.drop_first()) {
                    None => None,
                    Some((vs, tail)) => Some((seq![v] + vs, tail)),
                }
            } else if rest[0] == ']' {
                Some((seq![v], rest.drop_first()))
            } else {
                None
            }
        },
    }
}

/// What parsing one row yields: an empty pair of brackets, or bracketed
/// comma-separated scalars.
pub open spec fn spec_parse_row(s: Seq<char>) -> Option<(Seq<SpecScalar>, Seq<char>)> {
    if s.len() < 2 || s[0] != '[' {
        None
    } else if s[1] == ']' {
        Some((Seq::empty(), s.skip(2)))
    } else {
        spec_parse_items(s.drop_first())
    }
}

/// What parsing the inside of a non-empty document yields: rows
/// separated by commas, closed by a bracket.
pub open spec fn spec_parse_doc_rows(s: Seq<char>) -> Option<(Seq<Seq<SpecScalar>>, Seq<char>)>
    decreases s.len(),
{
    match spec_parse_row(s) {
        None => None,
        Some((r, rest)) => {
            if rest.len() >= s.len() || rest.len() == 0 {
                None
            } else if rest[0] == ',' {
                match spec_parse_doc_rows(rest.drop_first()) {
                    None => None,
                    Some((rs, tail)) => Some((seq![r] + rs, tail)),
                }
            } else if rest[0] == ']' {
                Some((seq![r], rest.drop_first()))
            } else {
                None
            }
        },
    }
}

/// What decoding a whole document yields: the rows of the outer array,
/// with nothing left over.
pub open spec fn spec_parse_doc(s: Seq<char>) -> Option<Seq<Seq<SpecScalar>>> {
    if s.len() < 2 || s[0] != '[' {
        None
    } else if s[1] == ']' {
        if s.len() == 2 {
            Some(Seq::empty())
        } else {
            None
        }
    } else {
        match spec_parse_doc_rows(s.drop_first()) {
            Some((rows, rest)) => if rest.len() == 0 {
                Some(rows)
            } else {
                None
            },
            None => None,
        }
    }
}

/// Whether a character is a decimal digit.
fn is_digit(c: char) -> (b: bool)
    ensures
        b == spec_is_digit(c),
{
    c >= '0' && c <= '9'
}

/// The first position at or after `i` that holds no digit.
fn digit_run(s: &str, i: usize, n: usize) -> (j: usize)
    requires
        n == s@.len(),
        i <= n,
    ensures
        i <= j <= n,
        j - i == spec_digit_run(s@.skip(i as int)),
    decreases n - i,
{
    if i < n {
        let c = s.get_char(i);
        proof {
            assert(s@.skip(i as int)[0] == s@[i as int]);
        }
        if is_digit(c) {
            let j = digit_run(s, i + 1, n);
            proof {
                assert(s@.skip(i as int).drop_first() =~= s@.skip(i as int + 1));
            }
            return j;
        }
    }
    proof {
        assert(spec_digit_run(s@.skip(i as int)) == 0);
    }
    i
}

/// The value of the digits between `i` and `j`.
fn digits_value(s: &str, i: usize, j: usize, n: usize) -> (v: u64)
    requires
        n == s@.len(),
        i <= j <= n,
        j - i <= 19,
    ensures
        v as int == spec_digits_value(s@.skip(i as int), j - i),
{
    let ghost t = s@.skip(i as int);
    let mut acc: u64 = 0;
    let mut m: usize = i;
    while m < j
        invariant
            i <= m <= j <= n,
            n == s@.len(),
            j - i <= 19,
            t == s@.skip(i as int),
            acc as int == spec_digits_value(t, m - i),
            (acc as int) < spec_pow10((m - i) as int),
        decreases j - m,
    {
        let c = s.get_char(m);
        let d: u64 = if c == '0' {
            0
        } else if c == '1' {
            1
        } else if c == '2' {
            2
        } else if c == '3' {
            3
        } else if c == '4' {
            4
        } else if c == '5' {
            5
        } else if c == '6' {
            6
        } else if c == '7' {
            7
        } else if c == '8' {
            8
        } else {
            9
        };
        proof {
            assert(t[m - i] == s@[m as int]);
            assert(d as int == spec_digit_val(s@[m as int]));
            lemma_pow10_mono((m - i) as int, 18);
            assert(spec_pow10(18) == 1_000_000_000_000_000_000) by {
                reveal_with_fuel(spec_pow10, 20);
            }
        }
        acc = acc * 10 + d;
        m = m + 1;
    }
    acc
}

/// Parses a bare canonical integer at `i`.
fn parse_int(s: &str, i: usize, n: usize) -> (r: Option<(i64, usize)>)
    requires
        n == s@.len(),
        i <= n,
    ensures
        match r {
            Some((v, j)) => i < j <= n && spec_parse_int(s@.skip(i as int)) == Some(
                (v as int, s@.skip(j as int)),
            ),
            None => spec_parse_int(s@.skip(i as int)) is None,
        },
{
    let ghost su = s@.skip(i as int);
    let neg = if i < n {
        let c = s.get_char(i);
        proof {
            assert(su[0] == s@[i as int]);
        }
        c == '-'
    } else {
        false
    };
    let d0 = if neg {
        i + 1
    } else {
        i
    };
    let ghost t = s@.skip(d0 as int);
    proof {
        if neg {
            assert(t =~= su.drop_first());
        }
    }
    let j = digit_run(s, d0, n);
    let k = j - d0;
    if k == 0 || k > 19 {
        return None;
    }
    let first = s.get_char(d0);
    proof {
        assert(t[0] == s@[d0 as int]);
    }
    if first == '0' && k > 1 {
        return None;
    }
    let v = digits_value(s, d0, j, n);
    proof {
        assert(t.skip(k as int) =~= s@.skip(j as int));
    }
    if neg {
        if v == 0 {
            return None;
        }
        if v > 9223372036854775808u64 {
            return None;
        }
        let sv: i64 = if v == 9223372036854775808u64 {
            i64::MIN
        } else {
            -(v as i64)
        };
        Some((sv, j))
    } else {
        if v > 9223372036854775807u64 {
            return None;
        }
        Some((v as i64, j))
    }
}

/// Whether a character may stand inside a quoted string.
fn is_valid_str_char(c: char) -> (b: bool)
    ensures
        b == spec_valid_str_char(c),
{
    c >= ' ' && c <= '~' && c != '"' && c != '\\'
}

/// The position of the closing quote at or after `i`, scanning only
/// admissible content.
fn find_quote(s: &str, i: usize, n: usize) -> (r: Option<usize>)
    requires
        n == s@.len(),
        i <= n,
    ensures
        match r {
            Some(q) => i <= q < n && spec_find_quote(s@.skip(i as int)) == Some(q - i as int),
            None => spec_find_quote(s@.skip(i as int)) is None,
        },
    decreases n - i,
{
    if i >= n {
        return None;
    }
    let c = s.get_char(i);
    proof {
        assert(s@.skip(i as int)[0] == s@[i as int]);
    }
    if c == '"' {
        Some(i)
    } else if is_valid_str_char(c) {
        proof {
            assert(s@.skip(i as int).drop_first() =~= s@.skip(i as int + 1));
        }
        match find_quote(s, i + 1, n) {
            Some(q) => Some(q),
            None => None,
        }
    } else {
        None
    }
}

/// Parses a quoted string at `i`, returning its verbatim content.
fn parse_string(s: &str, i: usize, n: usize) -> (r: Option<(String, usize)>)
    requires
        n == s@.len(),
        i <= n,
    ensures
        match r {
            Some((cs, j)) => i < j <= n && spec_parse_string(s@.skip(i as int)) == Some(
                (cs@, s@.skip(j as int)),
            ),
            None => spec_parse_string(s@.skip(i as int)) is None,
        },
{
    let ghost su = s@.skip(i as int);
    if i >= n {
        return None;
    }
    let c = s.get_char(i);
    proof {
        assert(su[0] == s@[i as int]);
        assert(su.drop_first() =~= s@.skip(i as int + 1));
    }
    if c != '"' {
        return None;
    }
    match find_quote(s, i + 1, n) {
        None => None,
        Some(q) => {
            let content = s.substring_char(i + 1, q);
            let cs = String::from_str(content);
            proof {
                let ghost inner = s@.skip(i as int + 1);
                assert(inner.take(q - (i + 1) as int) =~= s@.subrange(i as int + 1, q as int));
                assert(inner.skip(q - (i + 1) as int + 1) =~= s@.skip(q as int + 1));
            }
            Some((cs, q + 1))
        },
    }
}

/// Parses one scalar at `i`.
fn parse_scalar(s: &str, i: usize, n: usize) -> (r: Option<(Scalar, usize)>)
    requires
        n == s@.len(),
        i <= n,
    ensures
        match r {
            Some((v, j)) => i < j <= n && spec_parse_scalar(s@.skip(i as int)) == Some(
                (v@, s@.skip(j as int)),
            ),
            None => spec_parse_scalar(s@.skip(i as int)) is None,
        },
{
    if i >= n {
        return None;
    }
    let c = s.get_char(i);
    proof {
        assert(s@.skip(i as int)[0] == s@[i as int]);
    }
    if c == '"' {
        match parse_string(s, i, n) {
            Some((cs, j)) => Some((Scalar::Str(cs), j)),
            None => None,
        }
    } else {
        match parse_int(s, i, n) {
            Some((v, j)) => Some((Scalar::Int(v), j)),
            None => None,
        }
    }
}

/// Parses the comma-separated scalars of a non-empty row at `i`, up to
/// and including the closing bracket.
fn parse_items(s: &str, i: usize, n: usize) -> (r: Option<(Row, usize)>)
    requires
        n == s@.len(),
        i <= n,
    ensures
        match r {
            Some((vs, j)) => i < j <= n && spec_parse_items(s@.skip(i as int)) == Some(
                (spec_row_view(vs@), s@.skip(j as int)),
            ),
            None => spec_parse_items(s@.skip(i as int)) is None,
        },
    decreases n - i,
{
    let ghost su = s@.skip(i as int);
    match parse_scalar(s, i, n) {
        None => None,
        Some((v, j)) => {
            if j >= n {
                proof {
                    assert(s@.skip(j as int).len() == 0);
                }
                return None;
            }
            let c = s.get_char(j);
            proof {
                assert(s@.skip(j as int)[0] == s@[j as int]);
                assert(s@.skip(j as int).len() < su.len());
            }
            if c == ',' {
                proof {
                    assert(s@.skip(j as int).drop_first() =~= s@.skip(j as int + 1));
                }
                match parse_items(s, j + 1, n) {
                    None => None,
                    Some((mut vs, k)) => {
                        let ghost tail_vs = vs@;
                        vs.insert(0, v);
                        proof {
                            assert(vs@ =~= seq![v] + tail_vs);
                            assert(spec_row_view(vs@) =~= seq![v@] + spec_row_view(tail_vs));
                        }
                        Some((vs, k))
                    },
                }
            } else if c == ']' {
                let mut vs: Vec<Scalar> = Vec::new();
                vs.push(v);
                proof {
                    assert(s@.skip(j as int).drop_first() =~= s@.skip(j as int + 1));
                    assert(spec_row_view(vs@) =~= seq![v@]);
                }
                Some((vs, j + 1))
            } else {
                None
            }
        },
    }
}

/// Parses one row at `i`.
fn parse_row(s: &str, i: usize, n: usize) -> (r: Option<(Row, usize)>)
    requires
        n == s@.len(),
        i <= n,
    ensures
        match r {
            Some((row, j)) => i < j <= n && spec_parse_row(s@.skip(i as int)) == Some(
                (spec_row_view(row@), s@.skip(j as int)),
            ),
            None => spec_parse_row(s@.skip(i as int)) is None,
        },
{
    let ghost su = s@.skip(i as int);
    if n - i < 2 {
        return None;
    }
    let c0 = s.get_char(i);
    let c1 = s.get_char(i + 1);
    proof {
        assert(su[0] == s@[i as int]);
        assert(su[1] == s@[i as int + 1]);
        assert(su.drop_first() =~= s@.skip(i as int + 1));
    }
    if c0 != '[' {
        return None;
    }
    if c1 == ']' {
        let row: Vec<Scalar> = Vec::new();
        proof {
            assert(su.skip(2) =~= s@.skip(i as int + 2));
            assert(spec_row_view(row@) =~= Seq::<SpecScalar>::empty());
        }
        return Some((row, i + 2));
    }
    parse_items(s, i + 1, n)
}

/// Parses the comma-separated rows of a non-empty document at `i`, up
/// to and including the closing bracket.
fn parse_doc_rows(s: &str, i: usize, n: usize) -> (r: Option<(Vec<Row>, usize)>)
    requires
        n == s@.len(),
        i <= n,
    ensures
        match r {
            Some((rows, j)) => i < j <= n && spec_parse_doc_rows(s@.skip(i as int)) == Some(
                (spec_rows_view(rows@), s@.skip(j as int)),
            ),
            None => spec_parse_doc_rows(s@.skip(i as int)) is None,
        },
    decreases n - i,
{
    let ghost su = s@.skip(i as int);
    match parse_row(s, i, n) {
        None => None,
        Some((row, j)) => {
            if j >= n {
                proof {
                    assert(s@.skip(j as int).len() == 0);
                }
                return None;
            }
            let c = s.get_char(j);
            proof {
                assert(s@.skip(j as int)[0] == s@[j as int]);
                assert(s@.skip(j as int).len() < su.len());
            }
            if c == ',' {
                proof {
                    assert(s@.skip(j as int).drop_first() =~= s@.skip(j as int + 1));
                }
                match parse_doc_rows(s, j + 1, n) {
                    None => None,
                    Some((mut rows, k)) => {
                        let ghost tail_rows = rows@;
                        rows.insert(0, row);
                        proof {
                            assert(rows@ =~= seq![row] + tail_rows);
                            assert(spec_rows_view(rows@) =~= seq![spec_row_view(row@)]
                                + spec_rows_view(tail_rows));
                        }
                        Some((rows, k))
                    },
                }
            } else if c == ']' {
                let mut rows: Vec<Row> = Vec::new();
                rows.push(row);
                proof {
                    assert(s@.skip(j as int).drop_first() =~= s@.skip(j as int + 1));
                    assert(spec_rows_view(rows@) =~= seq![spec_row_view(row@)]);
                }
                Some((rows, j + 1))
            } else {
                None
            }
        },
    }
}

/// Decodes a whole response body or persisted file: accepts exactly the
/// canonical texts `encode_doc` produces and returns their rows, and
/// reports any other text as a decode error.
pub fn decode_doc(s: &str) -> (r: Result<Vec<Row>, Error>)
    ensures
        r is Ok <==> spec_parse_doc(s@) is Some,
        r matches Ok(rows) ==> spec_parse_doc(s@) == Some(spec_rows_view(rows@)),
        r matches Ok(rows) ==> spec_wf_rows(spec_rows_view(rows@)) && spec_doc_text(
            spec_rows_view(rows@),
        ) == s@,
        r matches Err(e) ==> e == Error::Decode,
{
    let n = s.unicode_len();
    if n < 2 {
        return Err(Error::Decode);
    }
    let c0 = s.get_char(0);
    let c1 = s.get_char(1);
    if c0 != '[' {
        return Err(Error::Decode);
    }
    if c1 == ']' {
        if n == 2 {
            let rows: Vec<Row> = Vec::new();
            proof {
                assert(spec_rows_view(rows@) =~= Seq::<Seq<SpecScalar>>::empty());
                lemma_parse_doc_sound(s@, spec_rows_view(rows@));
            }
            return Ok(rows);
        }
        return Err(Error::Decode);
    }
    proof {
        assert(s@.drop_first() =~= s@.skip(1));
    }
    match parse_doc_rows(s, 1, n) {
        None => Err(Error::Decode),
        Some((rows, j)) => {
            if j == n {
                proof {
                    assert(s@.skip(j as int).len() == 0);
                    lemma_parse_doc_sound(s@, spec_rows_view(rows@));
                }
                Ok(rows)
            } else {
                proof {
                    assert(s@.skip(j as int).len() > 0);
                }
                Err(Error::Decode)
            }
        },
    }
}


/// A digit run over digit text followed by a non-digit is exactly the
/// digit text.
proof fn lemma_digit_run_of(d: Seq<char>, rest: Seq<char>)
    requires
        forall|i: int| 0 <= i < d.len() ==> spec_is_digit(#[trigger] d[i]),
        rest.len() == 0 || !spec_is_digit(rest[0]),
    ensures
        spec_digit_run(d + rest) == d.len(),
    decreases d.len(),
{
    let s = d + rest;
    if d.len() == 0 {
        assert(s =~= rest);
    } else {
        assert(s[0] == d[0]);
        lemma_digit_run_of(d.drop_first(), rest);
        assert(s.drop_first() =~= d.drop_first() + rest);
    }
}

/// A digit-run value reads only the digits themselves.
proof fn lemma_digits_value_prefix(s1: Seq<char>, s2: Seq<char>, k: int)
    requires
        0 <= k,
        forall|m: int| 0 <= m < k ==> s1[m] == s2[m],
    ensures
        spec_digits_value(s1, k) == spec_digits_value(s2, k),
    decreases k,
{
    if k > 0 {
        lemma_digits_value_prefix(s1, s2, k - 1);
    }
}

/// Reading back the canonical digits of a number gives the number.
proof fn lemma_dec_digits_value(n: int)
    requires
        n >= 0,
    ensures
        spec_digits_value(spec_dec_digits(n), spec_dec_digits(n).len() as int) == n,
    decreases n,
{
    let d = spec_dec_digits(n);
    if n < 10 {
        assert(d == seq![crate::text::spec_digit_char(n)]);
        assert(spec_digits_value(d, 0) == 0);
        assert(spec_digits_value(d, 1) == spec_digit_val(d[0]));
    } else {
        lemma_dec_digits_value(n / 10);
        let head = spec_dec_digits(n / 10);
        let c = crate::text::spec_digit_char(n % 10);
        assert(d == head + seq![c]);
        let len = d.len() as int;
        assert(d[len - 1] == c);
        assert(spec_digit_val(c) == n % 10);
        lemma_digits_value_prefix(d, head, len - 1);
        assert(spec_digits_value(d, len) == spec_digits_value(d, len - 1) * 10 + spec_digit_val(
            d[len - 1],
        ));
        vstd::arithmetic::div_mod::lemma_fundamental_div_mod(n, 10);
    }
}

/// A number below ten to the `k` has at most `k` digits.
proof fn lemma_dec_digits_len(n: int, k: int)
    requires
        n >= 0,
        k >= 1,
        n < spec_pow10(k),
    ensures
        spec_dec_digits(n).len() <= k,
    decreases n,
{
    if n >= 10 {
        assert(spec_pow10(0) == 1);
        assert(spec_pow10(1) == 10);
        if k == 1 {
            lemma_pow10_pos(0);
            assert(false);
        }
        assert(spec_pow10(k) == 10 * spec_pow10(k - 1));
        vstd::arithmetic::div_mod::lemma_fundamental_div_mod(n, 10);
        assert(n / 10 < spec_pow10(k - 1)) by {
            if n / 10 >= spec_pow10(k - 1) {
                assert(n >= 10 * (n / 10));
                vstd::arithmetic::mul::lemma_mul_inequality(spec_pow10(k - 1), n / 10, 10);
            }
        }
        lemma_dec_digits_len(n / 10, k - 1);
    }
}

/// The magnitude of any machine integer has at most nineteen digits.
proof fn lemma_dec_digits_len_19(n: int)
    requires
        0 <= n <= 9223372036854775808,
    ensures
        spec_dec_digits(n).len() <= 19,
        spec_dec_digits(n).len() >= 1,
{
    assert(spec_pow10(19) == 10_000_000_000_000_000_000) by {
        reveal_with_fuel(spec_pow10, 21);
    }
    lemma_dec_digits_len(n, 19);
    crate::text::lemma_dec_digits_shape(n);
}

/// Parsing the canonical text of a machine integer, followed by
/// anything that is not a digit, gives the integer back.
proof fn lemma_parse_int_of_text(n: int, rest: Seq<char>)
    requires
        i64::MIN <= n <= i64::MAX,
        rest.len() == 0 || !spec_is_digit(rest[0]),
    ensures
        spec_parse_int(spec_int_text(n) + rest) == Some((n, rest)),
{
    let s = spec_int_text(n) + rest;
    if n >= 0 {
        let d = spec_dec_digits(n);
        crate::text::lemma_dec_digits_shape(n);
        lemma_dec_digits_len_19(n);
        assert(s =~= d + rest);
        assert(s[0] == d[0]);
        assert(spec_is_digit(d[0]));
        assert(s[0] != '-');
        lemma_digit_run_of(d, rest);
        let k = spec_digit_run(s);
        assert(k == d.len());
        assert(forall|m: int| 0 <= m < k ==> s[m] == d[m]);
        lemma_digits_value_prefix(s, d, k);
        lemma_dec_digits_value(n);
        assert(spec_digits_value(s, k) == n);
        assert(s.skip(k) =~= rest);
        if s[0] == '0' {
            assert(d[0] == '0');
            assert(n == 0);
            assert(k == 1);
        }
    } else {
        let m = -n;
        let d = spec_dec_digits(m);
        crate::text::lemma_dec_digits_shape(m);
        lemma_dec_digits_len_19(m);
        assert(spec_int_text(n) == seq!['-'] + d);
        assert(s =~= seq!['-'] + (d + rest));
        assert(s[0] == '-');
        let t = s.drop_first();
        assert(t =~= d + rest);
        lemma_digit_run_of(d, rest);
        let k = spec_digit_run(t);
        assert(k == d.len());
        assert(t[0] == d[0]);
        if t[0] == '0' {
            assert(m == 0);
            assert(false);
        }
        assert(forall|p: int| 0 <= p < k ==> t[p] == d[p]);
        lemma_digits_value_prefix(t, d, k);
        lemma_dec_digits_value(m);
        assert(spec_digits_value(t, k) == m);
        assert(t.skip(k) =~= rest);
    }
}

/// Scanning admissible content followed by a quote finds that quote.
proof fn lemma_find_quote_of(cs: Seq<char>, rest: Seq<char>)
    requires
        spec_valid_str(cs),
    ensures
        spec_find_quote(cs + seq!['"'] + rest) == Some(cs.len() as int),
    decreases cs.len(),
{
    let s = cs + seq!['"'] + rest;
    if cs.len() == 0 {
        assert(s[0] == '"');
    } else {
        assert(s[0] == cs[0]);
        assert(spec_valid_str_char(cs[0]));
        assert(cs[0] != '"');
        assert(spec_valid_str(cs.drop_first()));
        lemma_find_quote_of(cs.drop_first(), rest);
        assert(s.drop_first() =~= cs.drop_first() + seq!['"'] + rest);
    }
}

/// The first character of a scalar's text: a quote, a sign, or a digit;
/// never a bracket or comma.
proof fn lemma_scalar_text_head(v: SpecScalar)
    requires
        spec_wf_scalar(v),
    ensures
        spec_scalar_text(v).len() >= 1,
        spec_scalar_text(v)[0] != ']',
        spec_scalar_text(v)[0] != '[',
        spec_scalar_text(v)[0] != ',',
{
    match v {
        SpecScalar::Int(n) => {
            if n >= 0 {
                crate::text::lemma_dec_digits_shape(n);
                assert(spec_is_digit(spec_dec_digits(n)[0]));
            } else {
                assert(spec_scalar_text(v)[0] == '-');
            }
        },
        SpecScalar::Str(cs) => {
            assert(spec_scalar_text(v)[0] == '"');
        },
    }
}

/// Parsing a scalar's text followed by a comma or closing bracket gives
/// the scalar back.
proof fn lemma_parse_scalar_of_text(v: SpecScalar, rest: Seq<char>)
    requires
        spec_wf_scalar(v),
        rest.len() > 0,
        rest[0] == ',' || rest[0] == ']',
    ensures
        spec_parse_scalar(spec_scalar_text(v) + rest) == Some((v, rest)),
        spec_scalar_text(v).len() >= 1,
{
    lemma_scalar_text_head(v);
    let s = spec_scalar_text(v) + rest;
    match v {
        SpecScalar::Int(n) => {
            assert(!spec_is_digit(rest[0]));
            lemma_parse_int_of_text(n, rest);
            assert(s[0] == spec_scalar_text(v)[0]);
            if n >= 0 {
                crate::text::lemma_dec_digits_shape(n);
                assert(s[0] != '"');
            } else {
                assert(s[0] == '-');
            }
        },
        SpecScalar::Str(cs) => {
            assert(s =~= seq!['"'] + (cs + seq!['"'] + rest));
            assert(s[0] == '"');
            lemma_find_quote_of(cs, rest);
            let inner = s.drop_first();
            assert(inner =~= cs + seq!['"'] + rest);
            assert(spec_find_quote(inner) == Some(cs.len() as int));
            assert(inner.take(cs.len() as int) =~= cs);
            assert(inner.skip(cs.len() as int + 1) =~= rest);
        },
    }
}

/// Parsing the joined texts of a non-empty row's scalars, closed by a
/// bracket, gives the scalars back.
proof fn lemma_parse_items_of_text(r: Seq<SpecScalar>, rest: Seq<char>)
    requires
        r.len() >= 1,
        spec_wf_row(r),
    ensures
        spec_parse_items(
            spec_join_comma(r.map_values(|v: SpecScalar| spec_scalar_text(v))) + seq![']'] + rest,
        ) == Some((r, rest)),
    decreases r.len(),
{
    let texts = r.map_values(|v: SpecScalar| spec_scalar_text(v));
    let s = spec_join_comma(texts) + seq![']'] + rest;
    if r.len() == 1 {
        assert(spec_join_comma(texts) == texts[0]);
        let tail = seq![']'] + rest;
        assert(s =~= spec_scalar_text(r[0]) + tail);
        assert(tail[0] == ']');
        lemma_parse_scalar_of_text(r[0], tail);
        assert(spec_parse_scalar(s) == Some((r[0], tail)));
        assert(tail.len() < s.len());
        assert(tail.drop_first() =~= rest);
        assert(seq![r[0]] =~= r);
    } else {
        assert(spec_join_comma(texts) == texts[0] + seq![','] + spec_join_comma(
            texts.drop_first(),
        ));
        let r1 = r.drop_first();
        let texts1 = r1.map_values(|v: SpecScalar| spec_scalar_text(v));
        assert(texts.drop_first() =~= texts1);
        let tail = seq![','] + spec_join_comma(texts1) + seq![']'] + rest;
        assert(s =~= spec_scalar_text(r[0]) + tail);
        assert(tail[0] == ',');
        lemma_parse_scalar_of_text(r[0], tail);
        assert(spec_parse_scalar(s) == Some((r[0], tail)));
        assert(tail.len() < s.len());
        assert(spec_wf_row(r1));
        lemma_parse_items_of_text(r1, rest);
        assert(tail.drop_first() =~= spec_join_comma(texts1) + seq![']'] + rest);
        assert(spec_parse_items(tail.drop_first()) == Some((r1, rest)));
        assert(seq![r[0]] + r1 =~= r);
    }
}

/// Parsing a row's text followed by anything gives the row back, and a
/// row's text is at least the two brackets long.
proof fn lemma_parse_row_of_text(r: Seq<SpecScalar>, rest: Seq<char>)
    requires
        spec_wf_row(r),
    ensures
        spec_parse_row(spec_row_text(r) + rest) == Some((r, rest)),
        spec_row_text(r).len() >= 2,
{
    let texts = r.map_values(|v: SpecScalar| spec_scalar_text(v));
    let s = spec_row_text(r) + rest;
    assert(s[0] == '[');
    if r.len() == 0 {
        assert(spec_join_comma(texts) == Seq::<char>::empty());
        assert(spec_row_text(r) =~= seq!['[', ']']);
        assert(s[1] == ']');
        assert(s.skip(2) =~= rest);
        assert(Seq::<SpecScalar>::empty() =~= r);
    } else {
        lemma_scalar_text_head(r[0]);
        assert(texts[0] == spec_scalar_text(r[0]));
        assert(spec_join_comma(texts).len() >= 1 && spec_join_comma(texts)[0] == texts[0][0]) by {
            if texts.len() == 1 {
                assert(spec_join_comma(texts) == texts[0]);
            } else {
                assert(spec_join_comma(texts) == texts[0] + seq![','] + spec_join_comma(
                    texts.drop_first(),
                ));
            }
        }
        assert(s[1] == spec_join_comma(texts)[0]);
        assert(s[1] != ']');
        lemma_parse_items_of_text(r, rest);
        assert(s.drop_first() =~= spec_join_comma(texts) + seq![']'] + rest);
    }
}

/// Parsing the joined texts of a non-empty document's rows, closed by a
/// bracket, gives the rows back.
proof fn lemma_parse_doc_rows_of_text(rows: Seq<Seq<SpecScalar>>, rest: Seq<char>)
    requires
        rows.len() >= 1,
        spec_wf_rows(rows),
    ensures
        spec_parse_doc_rows(
            spec_join_comma(rows.map_values(|r: Seq<SpecScalar>| spec_row_text(r))) + seq![']']
                + rest,
        ) == Some((rows, rest)),
    decreases rows.len(),
{
    let texts = rows.map_values(|r: Seq<SpecScalar>| spec_row_text(r));
    let s = spec_join_comma(texts) + seq![']'] + rest;
    if rows.len() == 1 {
        assert(spec_join_comma(texts) == texts[0]);
        let tail = seq![']'] + rest;
        assert(s =~= spec_row_text(rows[0]) + tail);
        lemma_parse_row_of_text(rows[0], tail);
        assert(spec_parse_row(s) == Some((rows[0], tail)));
        assert(tail.len() < s.len());
        assert(tail[0] == ']');
        assert(tail.drop_first() =~= rest);
        assert(seq![rows[0]] =~= rows);
    } else {
        assert(spec_join_comma(texts) == texts[0] + seq![','] + spec_join_comma(
            texts.drop_first(),
        ));
        let rows1 = rows.drop_first();
        let texts1 = rows1.map_values(|r: Seq<SpecScalar>| spec_row_text(r));
        assert(texts.drop_first() =~= texts1);
        let tail = seq![','] + spec_join_comma(texts1) + seq![']'] + rest;
        assert(s =~= spec_row_text(rows[0]) + tail);
        lemma_parse_row_of_text(rows[0], tail);
        assert(spec_parse_row(s) == Some((rows[0], tail)));
        assert(tail.len() < s.len());
        assert(tail[0] == ',');
        assert(spec_wf_rows(rows1));
        lemma_parse_doc_rows_of_text(rows1, rest);
        assert(tail.drop_first() =~= spec_join_comma(texts1) + seq![']'] + rest);
        assert(spec_parse_doc_rows(tail.drop_first()) == Some((rows1, rest)));
        assert(seq![rows[0]] + rows1 =~= rows);
    }
}

/// Round trip: decoding the text written for any representable rows
/// gives exactly those rows back, so re-encoding reproduces the text
/// field for field and character for character.
pub proof fn lemma_doc_round_trip(rows: Seq<Seq<SpecScalar>>)
    requires
        spec_wf_rows(rows),
    ensures
        spec_parse_doc(spec_doc_text(rows)) == Some(rows),
{
    let texts = rows.map_values(|r: Seq<SpecScalar>| spec_row_text(r));
    let s = spec_doc_text(rows);
    assert(s[0] == '[');
    if rows.len() == 0 {
        assert(spec_join_comma(texts) == Seq::<char>::empty());
        assert(s =~= seq!['[', ']']);
        assert(Seq::<Seq<SpecScalar>>::empty() =~= rows);
    } else {
        lemma_parse_row_of_text(rows[0], Seq::empty());
        assert(spec_row_text(rows[0])[0] == '[');
        assert(texts[0] == spec_row_text(rows[0]));
        assert(spec_join_comma(texts).len() >= 1 && spec_join_comma(texts)[0] == texts[0][0]) by {
            if texts.len() == 1 {
                assert(spec_join_comma(texts) == texts[0]);
            } else {
                assert(spec_join_comma(texts) == texts[0] + seq![','] + spec_join_comma(
                    texts.drop_first(),
                ));
            }
        }
        assert(s[1] == spec_join_comma(texts)[0]);
        assert(s[1] != ']');
        assert(s.len() >= 2);
        lemma_parse_doc_rows_of_text(rows, Seq::empty());
        assert(s.drop_first() =~= spec_join_comma(texts) + seq![']'] + Seq::<char>::empty());
        assert(spec_parse_doc_rows(s.drop_first()) == Some((rows, Seq::<char>::empty())));
    }
}


/// A digit maps to its character and back.
proof fn lemma_digit_char_val(c: char)
    requires
        spec_is_digit(c),
    ensures
        crate::text::spec_digit_char(spec_digit_val(c)) == c,
        0 <= spec_digit_val(c) <= 9,
{
}

/// Everything inside a digit run is a digit, and the run fits the text.
proof fn lemma_digit_run_digits(t: Seq<char>)
    ensures
        0 <= spec_digit_run(t) <= t.len(),
        forall|m: int| 0 <= m < spec_digit_run(t) ==> spec_is_digit(#[trigger] t[m]),
    decreases t.len(),
{
    if t.len() > 0 && spec_is_digit(t[0]) {
        lemma_digit_run_digits(t.drop_first());
        assert forall|m: int| 0 <= m < spec_digit_run(t) implies spec_is_digit(#[trigger] t[m]) by {
            if m > 0 {
                assert(t.drop_first()[m - 1] == t[m]);
            }
        }
    }
}

/// A run of digits whose first digit is not zero has a positive value.
proof fn lemma_digits_value_pos(d: Seq<char>, k: int)
    requires
        1 <= k,
        spec_digit_val(d[0]) >= 1,
    ensures
        spec_digits_value(d, k) >= 1,
    decreases k,
{
    assert(spec_digits_value(d, 0) == 0);
    if k > 1 {
        lemma_digits_value_pos(d, k - 1);
    }
}

/// Rendering the value of a canonical digit run reproduces the run.
proof fn lemma_digits_to_text(d: Seq<char>, k: int)
    requires
        1 <= k <= d.len(),
        forall|m: int| 0 <= m < k ==> spec_is_digit(#[trigger] d[m]),
        d[0] == '0' ==> k == 1,
    ensures
        spec_dec_digits(spec_digits_value(d, k)) == d.take(k),
    decreases k,
{
    let v = spec_digits_value(d, k);
    lemma_digits_value_bound(d, k);
    if k == 1 {
        lemma_digit_char_val(d[0]);
        assert(spec_digits_value(d, 0) == 0);
        assert(v == spec_digit_val(d[0]));
        assert(spec_dec_digits(v) == seq![crate::text::spec_digit_char(v)]);
        assert(d.take(1) =~= seq![d[0]]);
    } else {
        assert(d[0] != '0');
        lemma_digit_char_val(d[0]);
        assert(spec_digit_val(d[0]) >= 1);
        let v1 = spec_digits_value(d, k - 1);
        lemma_digits_value_pos(d, k - 1);
        let dk = spec_digit_val(d[k - 1]);
        lemma_digit_char_val(d[k - 1]);
        assert(v == v1 * 10 + dk);
        assert(v >= 10);
        vstd::arithmetic::div_mod::lemma_fundamental_div_mod_converse(v, 10, v1, dk);
        assert(v / 10 == v1 && v % 10 == dk);
        lemma_digits_to_text(d, k - 1);
        assert(spec_dec_digits(v) == spec_dec_digits(v1) + seq![
            crate::text::spec_digit_char(dk),
        ]);
        assert(d.take(k) =~= d.take(k - 1) + seq![d[k - 1]]);
    }
}

/// Soundness of the integer parser: a parsed value's canonical text is
/// exactly what was consumed.
proof fn lemma_parse_int_sound(s: Seq<char>, v: int, rest: Seq<char>)
    requires
        spec_parse_int(s) == Some((v, rest)),
    ensures
        s == spec_int_text(v) + rest,
{
    let neg = s.len() > 0 && s[0] == '-';
    let t = if neg {
        s.drop_first()
    } else {
        s
    };
    let k = spec_digit_run(t);
    lemma_digit_run_digits(t);
    let d = t.take(k);
    assert(forall|m: int| 0 <= m < k ==> d[m] == t[m]);
    lemma_digits_value_prefix(t, d, k);
    lemma_digits_value_bound(t, k);
    lemma_digits_to_text(d, k);
    assert(spec_dec_digits(spec_digits_value(t, k)) == d.take(k));
    assert(d.take(k) =~= d);
    assert(t =~= d + t.skip(k));
    if neg {
        let m = spec_digits_value(t, k);
        assert(v == -m);
        assert(spec_int_text(v) == seq!['-'] + spec_dec_digits(m));
        assert(s =~= seq!['-'] + t);
        assert(s =~= (seq!['-'] + spec_dec_digits(m)) + rest);
    } else {
        assert(v == spec_digits_value(t, k));
        assert(spec_int_text(v) == spec_dec_digits(v));
        assert(s =~= spec_dec_digits(v) + rest);
    }
}


/// Soundness of the quote scan: everything before the found quote is
/// admissible content, and the quote is really there.
proof fn lemma_find_quote_sound(s: Seq<char>, q: int)
    requires
        spec_find_quote(s) == Some(q),
    ensures
        0 <= q < s.len(),
        s[q] == '"',
        spec_valid_str(s.take(q)),
    decreases s.len(),
{
    if s.len() > 0 && s[0] != '"' && spec_valid_str_char(s[0]) {
        match spec_find_quote(s.drop_first()) {
            Some(j) => {
                lemma_find_quote_sound(s.drop_first(), j);
                assert(s[q] == s.drop_first()[j]);
                let head = s.take(q);
                assert forall|i: int| 0 <= i < head.len() implies spec_valid_str_char(
                    #[trigger] head[i],
                ) by {
                    if i > 0 {
                        assert(head[i] == s.drop_first().take(j)[i - 1]);
                    }
                }
            },
            None => {},
        }
    }
}

/// Soundness of the string parser: what it consumed is exactly the
/// quoted text of the content it returned.
proof fn lemma_parse_string_sound(s: Seq<char>, cs: Seq<char>, rest: Seq<char>)
    requires
        spec_parse_string(s) == Some((cs, rest)),
    ensures
        spec_valid_str(cs),
        s == seq!['"'] + cs + seq!['"'] + rest,
{
    let t = s.drop_first();
    let q = spec_find_quote(t)->Some_0;
    lemma_find_quote_sound(t, q);
    assert(cs == t.take(q));
    assert(t =~= t.take(q) + seq![t[q]] + t.skip(q + 1));
    assert(s =~= seq![s[0]] + t);
    assert(s =~= seq!['"'] + cs + seq!['"'] + rest);
}

/// Soundness of the scalar parser: what it consumed is exactly the
/// returned scalar's text, and the scalar is representable.
proof fn lemma_parse_scalar_sound(s: Seq<char>, v: SpecScalar, rest: Seq<char>)
    requires
        spec_parse_scalar(s) == Some((v, rest)),
    ensures
        spec_wf_scalar(v),
        s == spec_scalar_text(v) + rest,
        rest.len() < s.len(),
{
    if s[0] == '"' {
        let cs = v->Str_0;
        lemma_parse_string_sound(s, cs, rest);
        assert(spec_scalar_text(v) =~= seq!['"'] + cs + seq!['"']);
        assert(s =~= spec_scalar_text(v) + rest);
    } else {
        let n = v->Int_0;
        lemma_parse_int_sound(s, n, rest);
        if n >= 0 {
            crate::text::lemma_dec_digits_shape(n);
        } else {
            crate::text::lemma_dec_digits_shape(-n);
        }
        assert(spec_scalar_text(v).len() >= 1);
    }
}

/// Soundness of the row-content parser: what it consumed is exactly the
/// joined texts of the returned scalars, closed by a bracket.
proof fn lemma_parse_items_sound(s: Seq<char>, r: Seq<SpecScalar>, rest: Seq<char>)
    requires
        spec_parse_items(s) == Some((r, rest)),
    ensures
        r.len() >= 1,
        spec_wf_row(r),
        s == spec_join_comma(r.map_values(|v: SpecScalar| spec_scalar_text(v))) + seq![']'] + rest,
    decreases s.len(),
{
    let (v, rest1) = spec_parse_scalar(s)->Some_0;
    lemma_parse_scalar_sound(s, v, rest1);
    if rest1[0] == ']' {
        assert(r =~= seq![v]);
        assert(rest == rest1.drop_first());
        let texts = r.map_values(|x: SpecScalar| spec_scalar_text(x));
        assert(texts.len() == 1 && texts[0] == spec_scalar_text(v));
        assert(spec_join_comma(texts) == texts[0]);
        assert(rest1 =~= seq![']'] + rest);
        assert(s =~= spec_join_comma(texts) + seq![']'] + rest);
        assert forall|i: int| 0 <= i < r.len() implies spec_wf_scalar(#[trigger] r[i]) by {
            assert(r[i] == v);
        }
    } else {
        let (r1, tail) = spec_parse_items(rest1.drop_first())->Some_0;
        lemma_parse_items_sound(rest1.drop_first(), r1, tail);
        assert(r =~= seq![v] + r1);
        assert(rest == tail);
        let texts = r.map_values(|x: SpecScalar| spec_scalar_text(x));
        let texts1 = r1.map_values(|x: SpecScalar| spec_scalar_text(x));
        assert(texts.drop_first() =~= texts1);
        assert(texts.len() >= 2);
        assert(texts[0] == spec_scalar_text(v));
        assert(spec_join_comma(texts) == texts[0] + seq![','] + spec_join_comma(texts1));
        assert(rest1 =~= seq![','] + rest1.drop_first());
        assert(s =~= spec_scalar_text(v) + (seq![','] + (spec_join_comma(texts1) + seq![']']
            + rest)));
        assert(s =~= spec_join_comma(texts) + seq![']'] + rest);
        assert forall|i: int| 0 <= i < r.len() implies spec_wf_scalar(#[trigger] r[i]) by {
            if i > 0 {
                assert(r[i] == r1[i - 1]);
            }
        }
    }
}

/// Soundness of the row parser: what it consumed is exactly the
/// returned row's text.
proof fn lemma_parse_row_sound(s: Seq<char>, r: Seq<SpecScalar>, rest: Seq<char>)
    requires
        spec_parse_row(s) == Some((r, rest)),
    ensures
        spec_wf_row(r),
        s == spec_row_text(r) + rest,
        rest.len() < s.len(),
{
    if s[1] == ']' {
        assert(r =~= Seq::<SpecScalar>::empty());
        let texts = r.map_values(|x: SpecScalar| spec_scalar_text(x));
        assert(texts =~= Seq::<Seq<char>>::empty());
        assert(spec_join_comma(texts) == Seq::<char>::empty());
        assert(spec_row_text(r) =~= seq!['[', ']']);
        assert(s =~= seq![s[0], s[1]] + s.skip(2));
        assert(s =~= spec_row_text(r) + rest);
    } else {
        lemma_parse_items_sound(s.drop_first(), r, rest);
        let texts = r.map_values(|x: SpecScalar| spec_scalar_text(x));
        assert(s =~= seq![s[0]] + s.drop_first());
        assert(s =~= seq!['['] + (spec_join_comma(texts) + seq![']'] + rest));
        assert(s =~= spec_row_text(r) + rest);
    }
}

/// Soundness of the row-list parser: what it consumed is exactly the
/// joined texts of the returned rows, closed by a bracket.
proof fn lemma_parse_doc_rows_sound(s: Seq<char>, rows: Seq<Seq<SpecScalar>>, rest: Seq<char>)
    requires
        spec_parse_doc_rows(s) == Some((rows, rest)),
    ensures
        rows.len() >= 1,
        spec_wf_rows(rows),
        s == spec_join_comma(rows.map_values(|r: Seq<SpecScalar>| spec_row_text(r))) + seq![']']
            + rest,
    decreases s.len(),
{
    let (r, rest1) = spec_parse_row(s)->Some_0;
    lemma_parse_row_sound(s, r, rest1);
    if rest1[0] == ']' {
        assert(rows =~= seq![r]);
        assert(rest == rest1.drop_first());
        let texts = rows.map_values(|x: Seq<SpecScalar>| spec_row_text(x));
        assert(texts.len() == 1 && texts[0] == spec_row_text(r));
        assert(spec_join_comma(texts) == texts[0]);
        assert(rest1 =~= seq![']'] + rest);
        assert(s =~= spec_join_comma(texts) + seq![']'] + rest);
        assert forall|i: int| 0 <= i < rows.len() implies spec_wf_row(#[trigger] rows[i]) by {
            assert(rows[i] == r);
        }
    } else {
        let (rows1, tail) = spec_parse_doc_rows(rest1.drop_first())->Some_0;
        lemma_parse_doc_rows_sound(rest1.drop_first(), rows1, tail);
        assert(rows =~= seq![r] + rows1);
        assert(rest == tail);
        let texts = rows.map_values(|x: Seq<SpecScalar>| spec_row_text(x));
        let texts1 = rows1.map_values(|x: Seq<SpecScalar>| spec_row_text(x));
        assert(texts.drop_first() =~= texts1);
        assert(texts.len() >= 2);
        assert(texts[0] == spec_row_text(r));
        assert(spec_join_comma(texts) == texts[0] + seq![','] + spec_join_comma(texts1));
        assert(rest1 =~= seq![','] + rest1.drop_first());
        assert(s =~= spec_row_text(r) + (seq![','] + (spec_join_comma(texts1) + seq![']']
            + rest)));
        assert(s =~= spec_join_comma(texts) + seq![']'] + rest);
        assert forall|i: int| 0 <= i < rows.len() implies spec_wf_row(#[trigger] rows[i]) by {
            if i > 0 {
                assert(rows[i] == rows1[i - 1]);
            }
        }
    }
}

/// Soundness of the decoder: a text it accepts is exactly the canonical
/// encoding of the rows it returns, which are all representable.  With
/// `lemma_doc_round_trip` this makes the canonical texts and the
/// representable row sequences correspond one to one.
pub proof fn lemma_parse_doc_sound(s: Seq<char>, rows: Seq<Seq<SpecScalar>>)
    requires
        spec_parse_doc(s) == Some(rows),
    ensures
        spec_wf_rows(rows),
        spec_doc_text(rows) == s,
{
    if s[1] == ']' {
        assert(rows =~= Seq::<Seq<SpecScalar>>::empty());
        let texts = rows.map_values(|x: Seq<SpecScalar>| spec_row_text(x));
        assert(texts =~= Seq::<Seq<char>>::empty());
        assert(spec_join_comma(texts) == Seq::<char>::empty());
        assert(spec_doc_text(rows) =~= seq!['[', ']']);
        assert(s =~= seq![s[0], s[1]]);
    } else {
        let (rs, rest) = spec_parse_doc_rows(s.drop_first())->Some_0;
        lemma_parse_doc_rows_sound(s.drop_first(), rs, rest);
        assert(rs == rows);
        assert(rest =~= Seq::<char>::empty());
        let texts = rows.map_values(|x: Seq<SpecScalar>| spec_row_text(x));
        assert(s.drop_first() =~= spec_join_comma(texts) + seq![']']);
        assert(s =~= seq![s[0]] + s.drop_first());
        assert(spec_doc_text(rows) =~= s);
    }
}


/// Whether every character of a text is a decimal digit.
pub open spec fn spec_all_digits(t: Seq<char>) -> bool {
    forall|i: int| 0 <= i < t.len() ==> spec_is_digit(#[trigger] t[i])
}

/// What the standard signed-integer read accepts: an optional single
/// sign, then one or more digits with leading zeros allowed, the
/// signed value within the machine range.
pub open spec fn spec_lenient_i64(s: Seq<char>) -> Option<int> {
    let neg = s.len() > 0 && s[0] == '-';
    let signed = s.len() > 0 && (s[0] == '-' || s[0] == '+');
    let t = if signed {
        s.drop_first()
    } else {
        s
    };
    if t.len() == 0 {
        None
    } else if !spec_all_digits(t) {
        None
    } else {
        let v = if neg {
            -spec_digits_value(t, t.len() as int)
        } else {
            spec_digits_value(t, t.len() as int)
        };
        if v < (i64::MIN as int) || (i64::MAX as int) < v {
            None
        } else {
            Some(v)
        }
    }
}

/// A digit-run value only grows as the run extends.
proof fn lemma_digits_value_grows(s: Seq<char>, j: int, k: int)
    requires
        0 <= j <= k,
    ensures
        spec_digits_value(s, j) <= spec_digits_value(s, k),
    decreases k,
{
    if j < k {
        lemma_digits_value_grows(s, j, k - 1);
        lemma_digits_value_bound(s, k - 1);
    }
}

/// Reads a whole text as one signed decimal, as the standard integer
/// read does: an optional sign, then digits, leading zeros allowed,
/// and the value must fit the machine range.
pub fn parse_i64_lenient(s: &str) -> (r: Option<i64>)
    ensures
        r matches Some(v) ==> spec_lenient_i64(s@) == Some(v as int),
        r is None ==> spec_lenient_i64(s@) is None,
{
    let n = s.unicode_len();
    if n == 0 {
        return None;
    }
    let c0 = s.get_char(0);
    let neg = c0 == '-';
    let signed = neg || c0 == '+';
    let i0: usize = if signed {
        1
    } else {
        0
    };
    let ghost t = s@.skip(i0 as int);
    proof {
        if !signed {
            assert(t =~= s@);
        } else {
            assert(t =~= s@.drop_first());
        }
    }
    if i0 >= n {
        return None;
    }
    let mut acc: u64 = 0;
    let mut overflowed: bool = false;
    let mut m: usize = i0;
    while m < n
        invariant
            i0 <= m <= n,
            n == s@.len(),
            i0 <= 1,
            (i0 == 1) <==> (s@.len() > 0 && (s@[0] == '-' || s@[0] == '+')),
            t == s@.skip(i0 as int),
            t.len() == n - i0,
            forall|j: int| 0 <= j < m - i0 ==> spec_is_digit(#[trigger] t[j]),
            !overflowed ==> acc as int == spec_digits_value(t, m - i0),
            overflowed ==> spec_digits_value(t, m - i0) > u64::MAX,
        decreases n - m,
    {
        let c = s.get_char(m);
        proof {
            assert(t[m - i0] == s@[m as int]);
        }
        if !(c >= '0' && c <= '9') {
            proof {
                if i0 == 1 {
                    assert(s@.drop_first() =~= s@.skip(1));
                } else {
                    assert(s@.skip(0) =~= s@);
                }
                let signed_spec = s@.len() > 0 && (s@[0] == '-' || s@[0] == '+');
                let t_spec = if signed_spec {
                    s@.drop_first()
                } else {
                    s@
                };
                assert(t_spec =~= t);
                assert(!spec_is_digit(t_spec[m - i0]));
                assert(!spec_all_digits(t_spec));
                assert(spec_lenient_i64(s@) is None);
            }
            return None;
        }
        let d: u64 = if c == '0' {
            0
        } else if c == '1' {
            1
        } else if c == '2' {
            2
        } else if c == '3' {
            3
        } else if c == '4' {
            4
        } else if c == '5' {
            5
        } else if c == '6' {
            6
        } else if c == '7' {
            7
        } else if c == '8' {
            8
        } else {
            9
        };
        proof {
            assert(d as int == spec_digit_val(t[m - i0]));
        }
        if !overflowed {
            if acc > (u64::MAX - d) / 10 {
                proof {
                    vstd::arithmetic::div_mod::lemma_fundamental_div_mod(
                        u64::MAX as int - d,
                        10,
                    );
                    assert(spec_digits_value(t, m + 1 - i0) == (acc as int) * 10 + d);
                    assert((acc as int) * 10 + d > u64::MAX);
                }
                overflowed = true;
            } else {
                proof {
                    vstd::arithmetic::div_mod::lemma_fundamental_div_mod(
                        u64::MAX as int - d,
                        10,
                    );
                    assert((acc as int) * 10 + d <= u64::MAX);
                }
                acc = acc * 10 + d;
            }
        } else {
            proof {
                assert(spec_digits_value(t, m + 1 - i0) == spec_digits_value(t, m - i0) * 10
                    + d);
                assert(spec_digits_value(t, m - i0) * 10 > u64::MAX);
            }
        }
        m = m + 1;
    }
    proof {
        assert(m - i0 == t.len());
    }
    if overflowed {
        proof {
            assert(spec_digits_value(t, t.len() as int) > u64::MAX);
        }
        return None;
    }
    if neg {
        if acc > 9223372036854775808u64 {
            None
        } else if acc == 9223372036854775808u64 {
            Some(i64::MIN)
        } else {
            Some(-(acc as i64))
        }
    } else {
        if acc > 9223372036854775807u64 {
            None
        } else {
            Some(acc as i64)
        }
    }
}

/// The standard integer read accepts every canonical text and gives
/// the number back.
pub proof fn lemma_lenient_of_int_text(v: int)
    requires
        i64::MIN <= v <= i64::MAX,
    ensures
        spec_lenient_i64(spec_int_text(v)) == Some(v),
{
    if v >= 0 {
        let d = spec_dec_digits(v);
        crate::text::lemma_dec_digits_shape(v);
        assert(spec_is_digit(d[0]));
        assert(d[0] != '-' && d[0] != '+');
        lemma_dec_digits_value(v);
    } else {
        let d = spec_dec_digits(-v);
        crate::text::lemma_dec_digits_shape(-v);
        let s = spec_int_text(v);
        assert(s == seq!['-'] + d);
        assert(s[0] == '-');
        assert(s.drop_first() =~= d);
        lemma_dec_digits_value(-v);
        assert(spec_digits_value(d, d.len() as int) == -v);
    }
}

} // verus!
