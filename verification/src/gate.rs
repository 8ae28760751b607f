//! Request URLs against Gate's candlestick API, which takes
//! second-precision timestamps and caps each response at 1000 candles.

use vstd::prelude::*;
use vstd::string::*;

use crate::cli::{spec_interval_token, spec_max_span_ms, spec_step_ms, Command};
use crate::codec::{decode_doc, parse_i64_lenient, spec_lenient_i64, spec_parse_doc, spec_row_view, spec_rows_view, Row, Scalar, SpecScalar};
use crate::errors::Error;
use crate::market::{spec_url_views, Endpoint, Kline};
use crate::split::{spec_split, split_intervals};
use crate::text::{i64_string, spec_int_text};

verus! {

/// A wrapper for Gate.io's exchange configuration.
pub struct Gate<'b>(pub &'b Command);

impl<'b> Gate<'b> {
    pub fn build(command: &'b Command) -> (r: Self)
        ensures
            r.0 == command,
    {
        Gate(command)
    }
}

/// A millisecond instant in whole seconds, rounded toward minus
/// infinity, as the second-precision exchange expects its bounds.
pub open spec fn spec_ms_to_secs(ms: int) -> int {
    ms / 1000
}

/// Converts a millisecond instant to whole seconds, rounding toward
/// minus infinity.
pub fn ms_to_secs(ms: i64) -> (r: i64)
    ensures
        r as int == spec_ms_to_secs(ms as int),
{
    if ms >= 0 {
        let r = ((ms as u64) / 1000) as i64;
        proof {
            vstd::arithmetic::div_mod::lemma_fundamental_div_mod(ms as int, 1000);
        }
        r
    } else {
        // magnitude minus one stays in range even for the smallest value
        let m1: u64 = (-(ms + 1)) as u64;
        let q: u64 = (m1 + 1000) / 1000;
        let r = -(q as i64);
        proof {
            let m = m1 as int + 1;  // m == -ms
            vstd::arithmetic::div_mod::lemma_fundamental_div_mod(m1 as int + 1000, 1000);
            let qq = (m1 as int + 1000) / 1000;
            let rr = (m1 as int + 1000) % 1000;
            // m1 + 1000 == 1000 * qq + rr, so -ms == 1000 * (qq - 1) + (rr + 1)
            // and ms == 1000 * (-qq) + (999 - rr) with 0 <= 999 - rr < 1000.
            vstd::arithmetic::div_mod::lemma_fundamental_div_mod_converse(
                ms as int,
                1000,
                -qq,
                999 - rr,
            );
        }
        r
    }
}

/// The query prefix shared by every Gate URL: endpoint, currency pair
/// and interval token.
pub open spec fn spec_gate_query(cmd: Command) -> Seq<char> {
    "https://api.gateio.ws/api/v4/spot/candlesticks?currency_pair="@ + cmd.symbol@ + "&interval="@
        + spec_interval_token(cmd.interval)
}

/// The full Gate URL for one sub-range, both bounds given in
/// milliseconds and sent in whole seconds.
pub open spec fn spec_gate_range_url(cmd: Command, sub: (int, int)) -> Seq<char> {
    spec_gate_query(cmd) + "&from="@ + spec_int_text(spec_ms_to_secs(sub.0)) + "&to="@
        + spec_int_text(spec_ms_to_secs(sub.1))
}

/// One Gate URL per sub-range of a sequence, in order.
pub open spec fn spec_gate_range_urls(cmd: Command, subs: Seq<(int, int)>) -> Seq<Seq<char>> {
    subs.map_values(|sub: (int, int)| spec_gate_range_url(cmd, sub))
}

/// All Gate URLs for a command: one per sub-range when both dates are
/// given, else a single URL that is open-ended or takes the default
/// most-recent window.
pub open spec fn spec_gate_urls(cmd: Command) -> Seq<Seq<char>> {
    match (cmd.from_date, cmd.to_date) {
        (Some(f), Some(t)) => spec_gate_range_urls(
            cmd,
            spec_split(
                f as int,
                t as int,
                spec_step_ms(cmd.interval),
                spec_max_span_ms(cmd.interval),
            ),
        ),
        (Some(f), None) => seq![
            spec_gate_query(cmd) + "&from="@ + spec_int_text(spec_ms_to_secs(f as int)),
        ],
        (None, Some(t)) => seq![
            spec_gate_query(cmd) + "&to="@ + spec_int_text(spec_ms_to_secs(t as int)),
        ],
        (None, None) => seq![spec_gate_query(cmd) + "&limit=1000"@],
    }
}

impl<'b> Endpoint for Gate<'b> {
    open spec fn spec_wf(&self) -> bool {
        match (self.0.from_date, self.0.to_date) {
            (Some(f), Some(t)) => f <= t && t + spec_max_span_ms(self.0.interval) + spec_step_ms(
                self.0.interval,
            ) <= i64::MAX,
            _ => true,
        }
    }

    open spec fn spec_urls(&self) -> Seq<Seq<char>> {
        spec_gate_urls(*self.0)
    }

    fn urls(&self) -> (r: Vec<String>) {
        let cmd = self.0;
        let mut url = String::new();
        url.append("https://api.gateio.ws/api/v4/spot/candlesticks?currency_pair=");
        url.append(cmd.symbol.as_str());
        url.append("&interval=");
        url.append(cmd.interval.token());
        proof {
            assert(url@ =~= spec_gate_query(*cmd));
        }

        if let (Some(start), Some(end)) = (cmd.from_date, cmd.to_date) {
            let datetimes = split_intervals(start, end, &cmd.interval);
            let ghost subs = spec_split(
                start as int,
                end as int,
                spec_step_ms(cmd.interval),
                spec_max_span_ms(cmd.interval),
            );
            let mut urls: Vec<String> = Vec::new();
            let mut i: usize = 0;
            while i < datetimes.len()
                invariant
                    0 <= i <= datetimes.len(),
                    url@ == spec_gate_query(*cmd),
                    crate::split::spec_ranges_view(datetimes@) == subs,
                    datetimes@.len() == subs.len(),
                    urls@.len() == i,
                    forall|k: int|
                        0 <= k < i ==> (#[trigger] urls@[k])@ == spec_gate_range_url(
                            *cmd,
                            subs[k],
                        ),
                decreases datetimes.len() - i,
            {
                let sub = datetimes[i];
                let mut u = url.clone();
                u.append("&from=");
                let from_text = i64_string(ms_to_secs(sub.start));
                u.append(from_text.as_str());
                u.append("&to=");
                let to_text = i64_string(ms_to_secs(sub.end));
                u.append(to_text.as_str());
                proof {
                    assert(subs[i as int] == (sub.start as int, sub.end as int));
                    assert(u@ =~= spec_gate_range_url(*cmd, subs[i as int]));
                }
                urls.push(u);
                i = i + 1;
            }
            proof {
                assert(spec_url_views(urls@) =~= spec_gate_urls(*cmd));
            }
            return urls;
        }

        if let (Some(start), None) = (cmd.from_date, cmd.to_date) {
            url.append("&from=");
            let t = i64_string(ms_to_secs(start));
            url.append(t.as_str());
        } else if let (None, Some(end)) = (cmd.from_date, cmd.to_date) {
            url.append("&to=");
            let t = i64_string(ms_to_secs(end));
            url.append(t.as_str());
        } else {
            url.append("&limit=1000");
        }
        let mut urls: Vec<String> = Vec::new();
        urls.push(url);
        proof {
            assert(spec_url_views(urls@) =~= spec_gate_urls(*cmd));
        }
        urls
    }
}


/// The widest second-precision instant whose milliseconds fit the
/// machine range.
pub const MAX_GATE_SECS: i64 = 9_223_372_036_854_775;

/// Represents a single candlestick (kline) from Gate: the bucket
/// instant in whole seconds as the wire carries it, every price and
/// volume as its verbatim wire string, and the closed-window flag.
#[derive(Debug, Clone, PartialEq, Eq)]
pub struct GateKline {
    pub time: i64,
    pub quote_volume: String,
    pub close_price: String,
    pub high_price: String,
    pub low_price: String,
    pub open_price: String,
    pub base_volume: String,
    pub window: bool,
}

/// Whether a decoded row has Gate's kline layout: eight quoted
/// strings, the first reading as a signed number of seconds (as the
/// standard integer read accepts it) whose milliseconds fit the
/// machine range, the last `true` or `false`.
pub open spec fn spec_gate_row_ok(row: Seq<SpecScalar>) -> bool {
    row.len() == 8 && row[0] is Str && row[1] is Str && row[2] is Str && row[3] is Str && row[4]
        is Str && row[5] is Str && row[6] is Str && row[7] is Str && (spec_lenient_i64(
        row[0]->Str_0,
    ) matches Some(v) && -MAX_GATE_SECS <= v <= MAX_GATE_SECS) && (row[7]->Str_0 == "true"@
        || row[7]->Str_0 == "false"@)
}

/// How a Gate kline relates to the decoded row it was read from: the
/// bucket instant is the seconds its first field reads as, every other
/// field is carried verbatim, and the flag mirrors the last field.
pub open spec fn spec_gate_row_matches(k: GateKline, row: Seq<SpecScalar>) -> bool {
    row.len() == 8 && row[0] is Str && row[1] is Str && row[2] is Str && row[3] is Str && row[4]
        is Str && row[5] is Str && row[6] is Str && row[7] is Str && spec_lenient_i64(
        row[0]->Str_0,
    ) == Some(k.time as int) && row[1]->Str_0 == k.quote_volume@ && row[2]->Str_0
        == k.close_price@ && row[3]->Str_0 == k.high_price@ && row[4]->Str_0 == k.low_price@
        && row[5]->Str_0 == k.open_price@ && row[6]->Str_0 == k.base_volume@ && row[7]->Str_0
        == (if k.window {
        "true"@
    } else {
        "false"@
    })
}

/// The wire row of a Gate kline, field for field.
pub open spec fn spec_gate_row(k: GateKline) -> Seq<SpecScalar> {
    seq![
        SpecScalar::Str(crate::text::spec_int_text(k.time as int)),
        SpecScalar::Str(k.quote_volume@),
        SpecScalar::Str(k.close_price@),
        SpecScalar::Str(k.high_price@),
        SpecScalar::Str(k.low_price@),
        SpecScalar::Str(k.open_price@),
        SpecScalar::Str(k.base_volume@),
        SpecScalar::Str(if k.window {
            "true"@
        } else {
            "false"@
        }),
    ]
}

impl GateKline {
    /// Reads one decoded row as a Gate kline, if and only if the row
    /// has Gate's layout.
    pub fn from_row(row: &Row) -> (r: Option<GateKline>)
        ensures
            r is Some <==> spec_gate_row_ok(spec_row_view(row@)),
            r matches Some(k) ==> spec_gate_row_matches(k, spec_row_view(row@)) && -MAX_GATE_SECS
                <= k.time <= MAX_GATE_SECS,
    {
        let ghost rv = spec_row_view(row@);
        if row.len() != 8 {
            return None;
        }
        proof {
            assert forall|i: int| 0 <= i < 8 implies rv[i] == row@[i]@ by {}
        }
        let time_text: &String = match &row[0] {
            Scalar::Str(s) => s,
            _ => { return None; },
        };
        let time: i64 = match parse_i64_lenient(time_text.as_str()) {
            Some(v) => {
                if v < -MAX_GATE_SECS || v > MAX_GATE_SECS {
                    return None;
                }
                v
            },
            None => { return None; },
        };
        let quote_volume: String = match &row[1] {
            Scalar::Str(s) => s.clone(),
            _ => { return None; },
        };
        let close_price: String = match &row[2] {
            Scalar::Str(s) => s.clone(),
            _ => { return None; },
        };
        let high_price: String = match &row[3] {
            Scalar::Str(s) => s.clone(),
            _ => { return None; },
        };
        let low_price: String = match &row[4] {
            Scalar::Str(s) => s.clone(),
            _ => { return None; },
        };
        let open_price: String = match &row[5] {
            Scalar::Str(s) => s.clone(),
            _ => { return None; },
        };
        let base_volume: String = match &row[6] {
            Scalar::Str(s) => s.clone(),
            _ => { return None; },
        };
        let window_text: &String = match &row[7] {
            Scalar::Str(s) => s,
            _ => { return None; },
        };
        let truth = String::from_str("true");
        let falsity = String::from_str("false");
        let window: bool = if window_text.eq(&truth) {
            true
        } else if window_text.eq(&falsity) {
            false
        } else {
            return None;
        };
        let k = GateKline {
            time,
            quote_volume,
            close_price,
            high_price,
            low_price,
            open_price,
            base_volume,
            window,
        };
        proof {
            assert(spec_gate_row_matches(k, rv));
        }
        Some(k)
    }

    /// Writes this kline back as its wire row, field for field, the
    /// bucket instant in canonical decimal.
    pub fn format(&self) -> (r: Row)
        ensures
            spec_row_view(r@) == spec_gate_row(*self),
            spec_gate_row_matches(*self, spec_row_view(r@)),
    {
        let mut row: Vec<Scalar> = Vec::new();
        row.push(Scalar::Str(crate::text::i64_string(self.time)));
        row.push(Scalar::Str(self.quote_volume.clone()));
        row.push(Scalar::Str(self.close_price.clone()));
        row.push(Scalar::Str(self.high_price.clone()));
        row.push(Scalar::Str(self.low_price.clone()));
        row.push(Scalar::Str(self.open_price.clone()));
        row.push(Scalar::Str(self.base_volume.clone()));
        if self.window {
            row.push(Scalar::Str(String::from_str("true")));
        } else {
            row.push(Scalar::Str(String::from_str("false")));
        }
        proof {
            assert(spec_row_view(row@) =~= spec_gate_row(*self));
            crate::codec::lemma_lenient_of_int_text(self.time as int);
        }
        row
    }
}

/// An instant in whole seconds taken to milliseconds, clamped at the
/// machine range.
pub open spec fn spec_secs_to_ms(secs: int) -> int {
    if secs > MAX_GATE_SECS as int {
        i64::MAX as int
    } else if secs < -(MAX_GATE_SECS as int) {
        i64::MIN as int
    } else {
        1000 * secs
    }
}

impl Kline for GateKline {
    open spec fn spec_open_time(&self) -> int {
        spec_secs_to_ms(self.time as int)
    }

    open spec fn spec_close_time(&self) -> int {
        spec_secs_to_ms(self.time as int)
    }

    fn open_time(&self) -> (r: i64) {
        if self.time > MAX_GATE_SECS {
            i64::MAX
        } else if self.time < -MAX_GATE_SECS {
            i64::MIN
        } else {
            self.time * 1000
        }
    }

    fn close_time(&self) -> (r: i64) {
        if self.time > MAX_GATE_SECS {
            i64::MAX
        } else if self.time < -MAX_GATE_SECS {
            i64::MIN
        } else {
            self.time * 1000
        }
    }
}

/// Reads a second-precision timestamp text into a millisecond instant.
///
/// The text must read as a signed number of seconds, as the standard
/// integer read accepts it, whose milliseconds fit the machine range;
/// anything else is rejected.
pub fn to_datetime(s: &str) -> (r: Result<i64, Error>)
    ensures
        r is Ok <==> (spec_lenient_i64(s@) matches Some(v) && -MAX_GATE_SECS <= v
            <= MAX_GATE_SECS),
        r matches Ok(ms) ==> (spec_lenient_i64(s@) matches Some(v) && ms == 1000 * v),
        r matches Err(e) ==> e == Error::InvalidDatetime,
{
    match parse_i64_lenient(s) {
        Some(v) => {
            if v < -MAX_GATE_SECS || v > MAX_GATE_SECS {
                return Err(Error::InvalidDatetime);
            }
            Ok(v * 1000)
        },
        None => Err(Error::InvalidDatetime),
    }
}


/// Whether every decoded row of a document has Gate's layout.
pub open spec fn spec_gate_rows_ok(rows: Seq<Seq<SpecScalar>>) -> bool {
    forall|i: int| 0 <= i < rows.len() ==> spec_gate_row_ok(#[trigger] rows[i])
}

/// Decodes a whole document as Gate klines: succeeds exactly when the
/// text is a canonical document whose every row has Gate's layout,
/// and then returns those klines row for row.
pub fn decode_gate(s: &str) -> (r: core::result::Result<Vec<GateKline>, Error>)
    ensures
        r is Ok <==> (spec_parse_doc(s@) matches Some(rows) && spec_gate_rows_ok(rows)),
        r matches Ok(ks) ==> (spec_parse_doc(s@) matches Some(rows) && rows.len() == ks@.len()
            && (forall|i: int|
            0 <= i < ks@.len() ==> spec_gate_row_matches(#[trigger] ks@[i], rows[i]))),
        r matches Err(e) ==> e == Error::Decode,
{
    let rows = match decode_doc(s) {
        Ok(rows) => rows,
        Err(_) => {
            return Err(Error::Decode);
        },
    };
    let ghost rv = spec_rows_view(rows@);
    let mut klines: Vec<GateKline> = Vec::new();
    let mut i: usize = 0;
    while i < rows.len()
        invariant
            0 <= i <= rows.len(),
            rv == spec_rows_view(rows@),
            spec_parse_doc(s@) == Some(rv),
            rv.len() == rows@.len(),
            klines@.len() == i,
            forall|k: int| 0 <= k < i ==> spec_gate_row_ok(#[trigger] rv[k]),
            forall|k: int| 0 <= k < i ==> spec_gate_row_matches(#[trigger] klines@[k], rv[k]),
        decreases rows.len() - i,
    {
        proof {
            assert(rv[i as int] == spec_row_view(rows@[i as int]@));
        }
        match GateKline::from_row(&rows[i]) {
            Some(k) => {
                klines.push(k);
            },
            None => {
                proof {
                    assert(!spec_gate_row_ok(rv[i as int]));
                }
                return Err(Error::Decode);
            },
        }
        i = i + 1;
    }
    Ok(klines)
}

} // verus!
