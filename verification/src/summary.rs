//! The record summary: counts a decoded kline file and reports its
//! span, as the console command prints it.
//!
//! The duration is broken down into whole days, hours and minutes of
//! the distance from the first record's open instant to the last
//! record's close instant, each count rendered with an underscore
//! between digit groups; the two boundary instants are shown as UTC
//! calendar text.

use vstd::prelude::*;
use vstd::string::*;

use crate::binance::{decode_binance, spec_binance_row, spec_binance_rows_ok, BinanceKline};
use crate::errors::{Error, Result};
use crate::gate::{decode_gate, spec_gate_row_matches, spec_gate_rows_ok, spec_secs_to_ms, GateKline};
use crate::codec::{spec_lenient_i64, spec_parse_doc, SpecScalar};
use crate::market::Kline;
use crate::text::{separator, spec_dec_digits, spec_separated, u64_string};

verus! {

/// The UTC calendar text of a millisecond instant, as the outside
/// datetime library renders it.
pub uninterp spec fn utc_text_of(ms: int) -> Seq<char>;

/// The smallest millisecond instant the UTC calendar represents: the
/// timestamp of `DateTime::<Utc>::MIN_UTC`, midnight of the calendar's
/// first day.
pub const MIN_UTC_MS: i64 = -8_334_601_228_800_000;

/// The largest millisecond instant the UTC calendar represents: the
/// last millisecond of the calendar's final day, the timestamp of
/// `DateTime::<Utc>::MAX_UTC` rounded down to whole milliseconds.
pub const MAX_UTC_MS: i64 = 8_210_266_876_799_999;

/// Whether the UTC calendar represents a millisecond instant.
pub open spec fn spec_utc_in_range(ms: int) -> bool {
    MIN_UTC_MS <= ms <= MAX_UTC_MS
}

/// Relies on chrono: `DateTime::<Utc>::from_timestamp_millis` turns a
/// millisecond instant into a UTC datetime exactly when it lies
/// between `MIN_UTC` and `MAX_UTC` (the two constants above) and
/// returns nothing otherwise, and the `Display` of `DateTime<Utc>`
/// renders a text that depends on the instant alone.
#[verifier::external_body]
fn utc_datetime_text(ms: i64) -> (r: Option<String>)
    ensures
        r is Some <==> spec_utc_in_range(ms as int),
        r matches Some(t) ==> t@ == utc_text_of(ms as int),
{
    match chrono::DateTime::<chrono::Utc>::from_timestamp_millis(ms) {
        Some(dt) => Some(dt.to_string()),
        None => None,
    }
}

/// Division rounded toward zero, as the duration is broken into whole
/// days, hours and minutes.
pub open spec fn spec_div_trunc(a: int, b: int) -> int {
    if a >= 0 {
        a / b
    } else {
        -((-a) / b)
    }
}

/// Divides rounding toward zero.
fn div_trunc(a: i64, b: u64) -> (r: i64)
    requires
        2 <= b <= u32::MAX,
    ensures
        r as int == spec_div_trunc(a as int, b as int),
{
    if a >= 0 {
        let r = ((a as u64) / b) as i64;
        proof {
            vstd::arithmetic::div_mod::lemma_fundamental_div_mod(a as int, b as int);
        }
        r
    } else {
        let m1: u64 = (-(a + 1)) as u64;
        let m: u64 = m1 + 1;
        let q: u64 = m / b;
        proof {
            assert(m == -(a as int));
            vstd::arithmetic::div_mod::lemma_fundamental_div_mod(m as int, b as int);
            vstd::arithmetic::mul::lemma_mul_inequality(2, b as int, q as int);
            assert(2 * (q as int) <= (b as int) * (q as int));
            assert((b as int) * (q as int) <= m as int);
            assert(q as int <= i64::MAX);
        }
        -(q as i64)
    }
}

/// The duration line: days, hours and minutes where the span reaches a
/// minute, days and hours where it reaches an hour, bare days below
/// that.
pub open spec fn spec_duration_text(dur_ms: int) -> Seq<char> {
    let days = spec_div_trunc(dur_ms, 86_400_000);
    let hours = spec_div_trunc(dur_ms, 3_600_000);
    let minutes = spec_div_trunc(dur_ms, 60_000);
    if minutes > 0 {
        spec_separated(days, "_"@) + "D / "@ + spec_separated(hours, "_"@) + "H / "@
            + spec_separated(minutes, "_"@) + "m"@
    } else if hours > 0 {
        spec_separated(days, "_"@) + "D / "@ + spec_separated(hours, "_"@) + "H"@
    } else {
        spec_separated(days, "_"@) + "D"@
    }
}

/// The whole summary block for a record set: its size, its span, and
/// its two boundary instants.
pub open spec fn spec_summary_text(
    n: int,
    dur_ms: int,
    open_text: Seq<char>,
    close_text: Seq<char>,
) -> Seq<char> {
    "\n========================\nNumber of elements: "@ + spec_dec_digits(n) + "\nDuration: "@
        + spec_duration_text(dur_ms) + "\nIt started from "@ + open_text + ",\nand ended at "@
        + close_text + ".\n========================\n"@
}

/// Builds the duration line for a span in milliseconds.
fn duration_text(dur_ms: i64) -> (r: String)
    ensures
        r@ == spec_duration_text(dur_ms as int),
{
    let days = div_trunc(dur_ms, 86_400_000);
    let hours = div_trunc(dur_ms, 3_600_000);
    let minutes = div_trunc(dur_ms, 60_000);
    let mut out = String::new();
    let days_text = separator(days, "_");
    out.append(days_text.as_str());
    if minutes > 0 {
        out.append("D / ");
        let hours_text = separator(hours, "_");
        out.append(hours_text.as_str());
        out.append("H / ");
        let minutes_text = separator(minutes, "_");
        out.append(minutes_text.as_str());
        out.append("m");
        proof {
            assert(out@ =~= spec_duration_text(dur_ms as int));
        }
    } else if hours > 0 {
        out.append("D / ");
        let hours_text = separator(hours, "_");
        out.append(hours_text.as_str());
        out.append("H");
        proof {
            assert(out@ =~= spec_duration_text(dur_ms as int));
        }
    } else {
        out.append("D");
        proof {
            assert(out@ =~= spec_duration_text(dur_ms as int));
        }
    }
    out
}

/// Builds the summary block from plain values: the record count, the
/// span, and the two boundary instants' calendar texts.
pub fn render_summary(n: usize, dur_ms: i64, open_text: &str, close_text: &str) -> (r: String)
    ensures
        r@ == spec_summary_text(n as int, dur_ms as int, open_text@, close_text@),
{
    let mut out = String::new();
    out.append("\n========================\nNumber of elements: ");
    let n_text = u64_string(n as u64);
    out.append(n_text.as_str());
    out.append("\nDuration: ");
    let dur_text = duration_text(dur_ms);
    out.append(dur_text.as_str());
    out.append("\nIt started from ");
    out.append(open_text);
    out.append(",\nand ended at ");
    out.append(close_text);
    out.append(".\n========================\n");
    proof {
        assert(out@ =~= spec_summary_text(n as int, dur_ms as int, open_text@, close_text@));
    }
    out
}

/// Summarizes a collection of klines: their number, the span from the
/// first record's open to the last record's close, and both boundary
/// instants.  An empty collection has no boundaries to report; a span
/// or an instant outside the representable range is rejected.
pub fn print_info<T: Kline>(data: &Vec<T>) -> (r: Result<String>)
    ensures
        data@.len() == 0 <==> r == Err::<String, Error>(Error::MissingData),
        data@.len() > 0 ==> (r is Ok <==> spec_utc_in_range(data@[0].spec_open_time())
            && spec_utc_in_range(data@[data@.len() - 1].spec_close_time())),
        r matches Ok(t) ==> data@.len() > 0 && t@ == spec_summary_text(
            data@.len() as int,
            data@[data@.len() - 1].spec_close_time() - data@[0].spec_open_time(),
            utc_text_of(data@[0].spec_open_time()),
            utc_text_of(data@[data@.len() - 1].spec_close_time()),
        ),
        r matches Err(e) ==> e == Error::MissingData || e == Error::InvalidDatetime,
{
    if data.len() == 0 {
        return Err(Error::MissingData);
    }
    let first = &data[0];
    let last = &data[data.len() - 1];
    let open = first.open_time();
    let close = last.close_time();
    let dur_ms = match close.checked_sub(open) {
        Some(d) => d,
        None => {
            return Err(Error::InvalidDatetime);
        },
    };
    let open_text = match utc_datetime_text(open) {
        Some(t) => t,
        None => {
            return Err(Error::InvalidDatetime);
        },
    };
    let close_text = match utc_datetime_text(close) {
        Some(t) => t,
        None => {
            return Err(Error::InvalidDatetime);
        },
    };
    Ok(render_summary(data.len(), dur_ms, open_text.as_str(), close_text.as_str()))
}

/// Whether a text decodes as a non-empty Binance kline document.
pub open spec fn spec_binance_doc(s: Seq<char>) -> bool {
    spec_parse_doc(s) matches Some(rows) && spec_binance_rows_ok(rows)
}

/// Whether a text decodes as a non-empty Gate kline document.
pub open spec fn spec_gate_doc(s: Seq<char>) -> bool {
    spec_parse_doc(s) matches Some(rows) && spec_gate_rows_ok(rows)
}

/// The summary of a Binance document: the row count, and the span from
/// the first row's open instant to the last row's close instant.
pub open spec fn spec_binance_summary(s: Seq<char>) -> Seq<char> {
    let rows = spec_parse_doc(s)->Some_0;
    let open = rows[0][0]->Int_0;
    let close = rows[rows.len() - 1][6]->Int_0;
    spec_summary_text(rows.len() as int, close - open, utc_text_of(open), utc_text_of(close))
}

/// The bucket instant of a Gate row, in milliseconds: the seconds its
/// first field reads as, clamped to the machine range.
pub open spec fn spec_gate_row_ms(row: Seq<SpecScalar>) -> int {
    spec_secs_to_ms(spec_lenient_i64(row[0]->Str_0)->Some_0)
}

/// The summary of a Gate document: the row count, and the span between
/// the first and last rows' bucket instants.
pub open spec fn spec_gate_summary(s: Seq<char>) -> Seq<char> {
    let rows = spec_parse_doc(s)->Some_0;
    let open = spec_gate_row_ms(rows[0]);
    let close = spec_gate_row_ms(rows[rows.len() - 1]);
    spec_summary_text(rows.len() as int, close - open, utc_text_of(open), utc_text_of(close))
}

/// Displays information about a kline document: tries the known record
/// codecs in turn and summarizes the first that fits.  A text that no
/// codec decodes is an invalid file, and only such a text is; a
/// decodable but empty document has no boundaries to report; a
/// decodable document whose boundary instants the calendar cannot
/// represent is rejected as an invalid datetime.
pub fn info(s: &str) -> (r: Result<String>)
    ensures
        r == Err::<String, Error>(Error::InvalidFile) <==> !spec_binance_doc(s@) && !spec_gate_doc(
            s@,
        ),
        spec_binance_doc(s@) ==> {
            let rows = spec_parse_doc(s@)->Some_0;
            &&& rows.len() == 0 ==> r == Err::<String, Error>(Error::MissingData)
            &&& rows.len() > 0 ==> {
                &&& r is Ok <==> spec_utc_in_range(rows[0][0]->Int_0) && spec_utc_in_range(
                    rows[rows.len() - 1][6]->Int_0,
                )
                &&& r matches Ok(t) ==> t@ == spec_binance_summary(s@)
                &&& r matches Err(e) ==> e == Error::InvalidDatetime
            }
        },
        !spec_binance_doc(s@) && spec_gate_doc(s@) ==> {
            let rows = spec_parse_doc(s@)->Some_0;
            &&& rows.len() == 0 ==> r == Err::<String, Error>(Error::MissingData)
            &&& rows.len() > 0 ==> {
                &&& r is Ok <==> spec_utc_in_range(spec_gate_row_ms(rows[0]))
                    && spec_utc_in_range(spec_gate_row_ms(rows[rows.len() - 1]))
                &&& r matches Ok(t) ==> t@ == spec_gate_summary(s@)
                &&& r matches Err(e) ==> e == Error::InvalidDatetime
            }
        },
{
    match decode_binance(s) {
        Ok(data) => {
            proof {
                let rows = spec_parse_doc(s@)->Some_0;
                assert(rows == data@.map_values(|k: BinanceKline| spec_binance_row(k)));
                if data@.len() > 0 {
                    assert(rows[0] == spec_binance_row(data@[0]));
                    assert(rows[rows.len() - 1] == spec_binance_row(data@[data@.len() - 1]));
                    assert(rows[0][0]->Int_0 == data@[0].spec_open_time());
                    assert(rows[rows.len() - 1][6]->Int_0 == data@[data@.len()
                        - 1].spec_close_time());
                }
            }
            return print_info(&data);
        },
        Err(_) => {},
    }
    match decode_gate(s) {
        Ok(data) => {
            proof {
                let rows = spec_parse_doc(s@)->Some_0;
                assert(rows.len() == data@.len());
                if data@.len() > 0 {
                    assert(spec_gate_row_matches(data@[0], rows[0]));
                    assert(spec_gate_row_matches(
                        data@[data@.len() - 1],
                        rows[rows.len() - 1],
                    ));
                    assert(spec_gate_row_ms(rows[0]) == data@[0].spec_open_time());
                    assert(spec_gate_row_ms(rows[rows.len() - 1]) == data@[data@.len()
                        - 1].spec_close_time());
                }
            }
            return print_info(&data);
        },
        Err(_) => {},
    }
    Err(Error::InvalidFile)
}

} // verus!
