//! The Binance endpoint: request URLs against its kline API, which takes
//! millisecond timestamps and caps each response at 1000 candles.

use vstd::prelude::*;
use vstd::string::*;

use crate::cli::{spec_interval_token, spec_max_span_ms, spec_step_ms, Command};
use crate::codec::{decode_doc, spec_parse_doc, spec_row_view, spec_rows_view, Row, Scalar, SpecScalar};
use crate::errors::Error;
use crate::market::{spec_url_views, Endpoint, Kline};
use crate::split::{spec_split, split_intervals};
use crate::text::{i64_string, spec_int_text};

verus! {

/// A wrapper for the Binance exchange configuration.
pub struct Binance<'b>(pub &'b Command);

impl<'b> Binance<'b> {
    pub fn build(command: &'b Command) -> (r: Self)
        ensures
            r.0 == command,
    {
        Binance(command)
    }
}

/// The query prefix shared by every Binance URL: endpoint, symbol,
/// interval token and the per-request candle cap.
pub open spec fn spec_binance_query(cmd: Command) -> Seq<char> {
    "https://api.binance.com/api/v3/klines?symbol="@ + cmd.symbol@ + "&interval="@
        + spec_interval_token(cmd.interval) + "&limit=1000"@
}

/// The full Binance URL for one sub-range, both bounds in milliseconds.
pub open spec fn spec_binance_range_url(cmd: Command, sub: (int, int)) -> Seq<char> {
    spec_binance_query(cmd) + "&startTime="@ + spec_int_text(sub.0) + "&endTime="@ + spec_int_text(
        sub.1,
    )
}

/// The Binance URLs of a sequence of sub-ranges, in order.
pub open spec fn spec_binance_range_urls(cmd: Command, subs: Seq<(int, int)>) -> Seq<Seq<char>> {
    subs.map_values(|sub: (int, int)| spec_binance_range_url(cmd, sub))
}

/// All Binance URLs for a command: one per sub-range when both dates are
/// given, else a single URL that is open-ended or takes the default
/// most-recent window.
pub open spec fn spec_binance_urls(cmd: Command) -> Seq<Seq<char>> {
    match (cmd.from_date, cmd.to_date) {
        (Some(f), Some(t)) => spec_binance_range_urls(
            cmd,
            spec_split(
                f as int,
                t as int,
                spec_step_ms(cmd.interval),
                spec_max_span_ms(cmd.interval),
            ),
        ),
        (Some(f), None) => seq![
            spec_binance_query(cmd) + "&startTime="@ + spec_int_text(f as int),
        ],
        (None, Some(t)) => seq![spec_binance_query(cmd) + "&endTime="@ + spec_int_text(t as int)],
        (None, None) => seq![spec_binance_query(cmd)],
    }
}

impl<'b> Endpoint for Binance<'b> {
    open spec fn spec_wf(&self) -> bool {
        match (self.0.from_date, self.0.to_date) {
            (Some(f), Some(t)) => f <= t && t + spec_max_span_ms(self.0.interval) + spec_step_ms(
                self.0.interval,
            ) <= i64::MAX,
            _ => true,
        }
    }

    open spec fn spec_urls(&self) -> Seq<Seq<char>> {
        spec_binance_urls(*self.0)
    }

    fn urls(&self) -> (r: Vec<String>) {
        let cmd = self.0;
        let mut url = String::new();
        url.append("https://api.binance.com/api/v3/klines?symbol=");
        url.append(cmd.symbol.as_str());
        url.append("&interval=");
        url.append(cmd.interval.token());
        url.append("&limit=1000");
        proof {
            assert(url@ =~= spec_binance_query(*cmd));
        }

        if let (Some(start), Some(end)) = (cmd.from_date, cmd.to_date) {
            let datetimes = split_intervals(start, end, &cmd.interval);
            let ghost subs = spec_split(
                start as int,
                end as int,
                spec_step_ms(cmd.interval),
                spec_max_span_ms(cmd.interval),
            );
            let mut urls: Vec<String> = Vec::new();
            let mut i: usize = 0;
            while i < datetimes.len()
                invariant
                    0 <= i <= datetimes.len(),
                    url@ == spec_binance_query(*cmd),
                    crate::split::spec_ranges_view(datetimes@) == subs,
                    datetimes@.len() == subs.len(),
                    urls@.len() == i,
                    forall|k: int|
                        0 <= k < i ==> (#[trigger] urls@[k])@ == spec_binance_range_url(
                            *cmd,
                            subs[k],
                        ),
                decreases datetimes.len() - i,
            {
                let sub = datetimes[i];
                let mut u = url.clone();
                u.append("&startTime=");
                let start_text = i64_string(sub.start);
                u.append(start_text.as_str());
                u.append("&endTime=");
                let end_text = i64_string(sub.end);
                u.append(end_text.as_str());
                proof {
                    assert(subs[i as int] == (sub.start as int, sub.end as int));
                    assert(u@ =~= spec_binance_range_url(*cmd, subs[i as int]));
                }
                urls.push(u);
                i = i + 1;
            }
            proof {
                assert(spec_url_views(urls@) =~= spec_binance_urls(*cmd));
            }
            return urls;
        }

        if let (Some(start), None) = (cmd.from_date, cmd.to_date) {
            url.append("&startTime=");
            let t = i64_string(start);
            url.append(t.as_str());
        } else if let (None, Some(end)) = (cmd.from_date, cmd.to_date) {
            url.append("&endTime=");
            let t = i64_string(end);
            url.append(t.as_str());
        }
        let mut urls: Vec<String> = Vec::new();
        urls.push(url);
        proof {
            assert(spec_url_views(urls@) =~= spec_binance_urls(*cmd));
        }
        urls
    }
}


/// Represents a single candlestick (kline) from Binance: millisecond
/// timestamps and the trade count as bare numbers, every price and
/// volume as its verbatim wire string.
#[derive(Debug, Clone, PartialEq, Eq)]
pub struct BinanceKline {
    pub open_time: i64,
    pub open_price: String,
    pub high_price: String,
    pub low_price: String,
    pub close_price: String,
    pub volume: String,
    pub close_time: i64,
    pub quote_asset_volume: String,
    pub number_of_trades: u64,
    pub taker_buy_base_volume: String,
    pub taker_buy_quote_volume: String,
    pub ignore: String,
}

/// Whether a decoded row has the Binance kline layout: twelve fields,
/// bare numbers at the two timestamps and the trade count (the count
/// non-negative), strings everywhere else.
pub open spec fn spec_binance_row_ok(row: Seq<SpecScalar>) -> bool {
    row.len() == 12 && row[0] is Int && row[1] is Str && row[2] is Str && row[3] is Str && row[4]
        is Str && row[5] is Str && row[6] is Int && row[7] is Str && row[8] is Int && row[8]->Int_0
        >= 0 && row[9] is Str && row[10] is Str && row[11] is Str
}

/// The wire row of a Binance kline, field for field.
pub open spec fn spec_binance_row(k: BinanceKline) -> Seq<SpecScalar> {
    seq![
        SpecScalar::Int(k.open_time as int),
        SpecScalar::Str(k.open_price@),
        SpecScalar::Str(k.high_price@),
        SpecScalar::Str(k.low_price@),
        SpecScalar::Str(k.close_price@),
        SpecScalar::Str(k.volume@),
        SpecScalar::Int(k.close_time as int),
        SpecScalar::Str(k.quote_asset_volume@),
        SpecScalar::Int(k.number_of_trades as int),
        SpecScalar::Str(k.taker_buy_base_volume@),
        SpecScalar::Str(k.taker_buy_quote_volume@),
        SpecScalar::Str(k.ignore@),
    ]
}

impl BinanceKline {
    /// Reads one decoded row as a Binance kline, if and only if the row
    /// has the Binance layout.
    pub fn from_row(row: &Row) -> (r: Option<BinanceKline>)
        ensures
            r is Some <==> spec_binance_row_ok(spec_row_view(row@)),
            r matches Some(k) ==> spec_binance_row(k) == spec_row_view(row@),
    {
        let ghost rv = spec_row_view(row@);
        if row.len() != 12 {
            return None;
        }
        proof {
            assert forall|i: int| 0 <= i < 12 implies rv[i] == row@[i]@ by {}
        }
        let open_time: i64 = match &row[0] {
            Scalar::Int(n) => *n,
            _ => { return None; },
        };
        let open_price: String = match &row[1] {
            Scalar::Str(s) => s.clone(),
            _ => { return None; },
        };
        let high_price: String = match &row[2] {
            Scalar::Str(s) => s.clone(),
            _ => { return None; },
        };
        let low_price: String = match &row[3] {
            Scalar::Str(s) => s.clone(),
            _ => { return None; },
        };
        let close_price: String = match &row[4] {
            Scalar::Str(s) => s.clone(),
            _ => { return None; },
        };
        let volume: String = match &row[5] {
            Scalar::Str(s) => s.clone(),
            _ => { return None; },
        };
        let close_time: i64 = match &row[6] {
            Scalar::Int(n) => *n,
            _ => { return None; },
        };
        let quote_asset_volume: String = match &row[7] {
            Scalar::Str(s) => s.clone(),
            _ => { return None; },
        };
        let number_of_trades: u64 = match &row[8] {
            Scalar::Int(n) => {
                if *n < 0 {
                    return None;
                }
                *n as u64
            },
            _ => { return None; },
        };
        let taker_buy_base_volume: String = match &row[9] {
            Scalar::Str(s) => s.clone(),
            _ => { return None; },
        };
        let taker_buy_quote_volume: String = match &row[10] {
            Scalar::Str(s) => s.clone(),
            _ => { return None; },
        };
        let ignore: String = match &row[11] {
            Scalar::Str(s) => s.clone(),
            _ => { return None; },
        };
        let k = BinanceKline {
            open_time,
            open_price,
            high_price,
            low_price,
            close_price,
            volume,
            close_time,
            quote_asset_volume,
            number_of_trades,
            taker_buy_base_volume,
            taker_buy_quote_volume,
            ignore,
        };
        proof {
            assert(spec_binance_row(k) =~= rv);
        }
        Some(k)
    }

    /// Writes this kline back as its wire row, field for field.  The
    /// trade count must fit the wire's signed number range.
    pub fn format(&self) -> (r: Row)
        requires
            self.number_of_trades <= i64::MAX as u64,
        ensures
            spec_row_view(r@) == spec_binance_row(*self),
    {
        let mut row: Vec<Scalar> = Vec::new();
        row.push(Scalar::Int(self.open_time));
        row.push(Scalar::Str(self.open_price.clone()));
        row.push(Scalar::Str(self.high_price.clone()));
        row.push(Scalar::Str(self.low_price.clone()));
        row.push(Scalar::Str(self.close_price.clone()));
        row.push(Scalar::Str(self.volume.clone()));
        row.push(Scalar::Int(self.close_time));
        row.push(Scalar::Str(self.quote_asset_volume.clone()));
        row.push(Scalar::Int(self.number_of_trades as i64));
        row.push(Scalar::Str(self.taker_buy_base_volume.clone()));
        row.push(Scalar::Str(self.taker_buy_quote_volume.clone()));
        row.push(Scalar::Str(self.ignore.clone()));
        proof {
            assert(spec_row_view(row@) =~= spec_binance_row(*self));
        }
        row
    }
}

impl Kline for BinanceKline {
    open spec fn spec_open_time(&self) -> int {
        self.open_time as int
    }

    open spec fn spec_close_time(&self) -> int {
        self.close_time as int
    }

    fn open_time(&self) -> (r: i64) {
        self.open_time
    }

    fn close_time(&self) -> (r: i64) {
        self.close_time
    }
}


/// Whether every decoded row of a document has the Binance layout.
pub open spec fn spec_binance_rows_ok(rows: Seq<Seq<SpecScalar>>) -> bool {
    forall|i: int| 0 <= i < rows.len() ==> spec_binance_row_ok(#[trigger] rows[i])
}

/// Decodes a whole document as Binance klines: succeeds exactly when
/// the text is a canonical document whose every row has the Binance
/// layout, and then returns those klines row for row.
pub fn decode_binance(s: &str) -> (r: core::result::Result<Vec<BinanceKline>, Error>)
    ensures
        r is Ok <==> (spec_parse_doc(s@) matches Some(rows) && spec_binance_rows_ok(rows)),
        r matches Ok(ks) ==> spec_parse_doc(s@) == Some(
            ks@.map_values(|k: BinanceKline| spec_binance_row(k)),
        ),
        r matches Err(e) ==> e == Error::Decode,
{
    let rows = match decode_doc(s) {
        Ok(rows) => rows,
        Err(_) => {
            return Err(Error::Decode);
        },
    };
    let ghost rv = spec_rows_view(rows@);
    let mut klines: Vec<BinanceKline> = Vec::new();
    let mut i: usize = 0;
    while i < rows.len()
        invariant
            0 <= i <= rows.len(),
            rv == spec_rows_view(rows@),
            spec_parse_doc(s@) == Some(rv),
            rv.len() == rows@.len(),
            klines@.len() == i,
            forall|k: int| 0 <= k < i ==> spec_binance_row_ok(#[trigger] rv[k]),
            forall|k: int|
                0 <= k < i ==> spec_binance_row(#[trigger] klines@[k]) == rv[k],
        decreases rows.len() - i,
    {
        proof {
            assert(rv[i as int] == spec_row_view(rows@[i as int]@));
        }
        match BinanceKline::from_row(&rows[i]) {
            Some(k) => {
                klines.push(k);
            },
            None => {
                proof {
                    assert(!spec_binance_row_ok(rv[i as int]));
                }
                return Err(Error::Decode);
            },
        }
        i = i + 1;
    }
    proof {
        assert(klines@.map_values(|k: BinanceKline| spec_binance_row(k)) =~= rv);
    }
    Ok(klines)
}

} // verus!
