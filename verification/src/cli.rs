//! The request a caller makes of the library: market, symbol, granularity
//! and an optional time range, all as plain values.
//!
//! Instants are UTC timestamps in milliseconds since the Unix epoch; each
//! granularity carries its step (the bucket size) and the largest span one
//! exchange request may cover, which is always the step times the fixed
//! per-request candle cap of 1000.

use vstd::prelude::*;

use crate::errors::{Error, Result};

verus! {

/// Supported market to fetch the data.
#[derive(Clone, Copy, Debug, PartialEq, Eq, Structural)]
pub enum Market {
    Binance,
    Gate,
}

impl Market {
    /// The lowercase name used to select the market.
    pub fn token(&self) -> (r: &'static str)
        ensures
            r@ == spec_market_token(*self),
    {
        match self {
            Market::Binance => "binance",
            Market::Gate => "gate",
        }
    }
}

/// The text `Market::token` returns for each market.
pub open spec fn spec_market_token(m: Market) -> Seq<char> {
    match m {
        Market::Binance => "binance"@,
        Market::Gate => "gate"@,
    }
}

/// Supported time intervals for klines.
#[derive(Clone, Copy, Debug, PartialEq, Eq, Structural)]
pub enum Interval {
    /// 1 second
    S1,
    /// 1 minute
    M1,
    /// 3 minutes
    M3,
    /// 5 minutes
    M5,
    /// 15 minutes
    M15,
    /// 30 minutes
    M30,
    /// 1 hour
    H1,
    /// 2 hours
    H2,
    /// 4 hours
    H4,
    /// 6 hours
    H6,
    /// 8 hours
    H8,
    /// 12 hours
    H12,
    /// 1 day
    D1,
    /// 3 days
    D3,
    /// 1 week
    W1,
    /// 1 month
    MM1,
}

/// The token of each interval as the exchanges spell it.
pub open spec fn spec_interval_token(i: Interval) -> Seq<char> {
    match i {
        Interval::S1 => "1s"@,
        Interval::M1 => "1m"@,
        Interval::M3 => "3m"@,
        Interval::M5 => "5m"@,
        Interval::M15 => "15m"@,
        Interval::M30 => "30m"@,
        Interval::H1 => "1h"@,
        Interval::H2 => "2h"@,
        Interval::H4 => "4h"@,
        Interval::H6 => "6h"@,
        Interval::H8 => "8h"@,
        Interval::H12 => "12h"@,
        Interval::D1 => "1d"@,
        Interval::D3 => "3d"@,
        Interval::W1 => "1w"@,
        Interval::MM1 => "1M"@,
    }
}

/// The step of each interval: the duration of one candle bucket, in
/// milliseconds.
pub open spec fn spec_step_ms(i: Interval) -> int {
    match i {
        Interval::S1 => 1_000,
        Interval::M1 => 60_000,
        Interval::M3 => 180_000,
        Interval::M5 => 300_000,
        Interval::M15 => 900_000,
        Interval::M30 => 1_800_000,
        Interval::H1 => 3_600_000,
        Interval::H2 => 7_200_000,
        Interval::H4 => 14_400_000,
        Interval::H6 => 21_600_000,
        Interval::H8 => 28_800_000,
        Interval::H12 => 43_200_000,
        Interval::D1 => 86_400_000,
        Interval::D3 => 259_200_000,
        Interval::W1 => 604_800_000,
        Interval::MM1 => 2_419_200_000,
    }
}

/// The per-request candle cap shared by the supported exchanges.
pub const CANDLE_CAP: i64 = 1000;

/// The widest span one request may cover for each interval, in
/// milliseconds: the step times the per-request candle cap, so that
/// one sub-range never asks for more candles than one request may
/// return.
pub open spec fn spec_max_span_ms(i: Interval) -> int {
    match i {
        Interval::S1 => 1_000_000,
        Interval::M1 => 60_000_000,
        Interval::M3 => 180_000_000,
        Interval::M5 => 300_000_000,
        Interval::M15 => 900_000_000,
        Interval::M30 => 1_800_000_000,
        Interval::H1 => 3_600_000_000,
        Interval::H2 => 7_200_000_000,
        Interval::H4 => 14_400_000_000,
        Interval::H6 => 21_600_000_000,
        Interval::H8 => 28_800_000_000,
        Interval::H12 => 43_200_000_000,
        Interval::D1 => 86_400_000_000,
        Interval::D3 => 259_200_000_000,
        Interval::W1 => 604_800_000_000,
        Interval::MM1 => 2_419_200_000_000,
    }
}

/// The catalog's invariant: every interval's widest span is its step
/// times the fixed per-request candle cap.
pub proof fn lemma_max_span_is_step_times_cap(i: Interval)
    ensures
        spec_max_span_ms(i) == CANDLE_CAP * spec_step_ms(i),
{
}

impl Interval {
    /// The interval token as the exchanges spell it.
    pub fn token(&self) -> (r: &'static str)
        ensures
            r@ == spec_interval_token(*self),
    {
        match self {
            Interval::S1 => "1s",
            Interval::M1 => "1m",
            Interval::M3 => "3m",
            Interval::M5 => "5m",
            Interval::M15 => "15m",
            Interval::M30 => "30m",
            Interval::H1 => "1h",
            Interval::H2 => "2h",
            Interval::H4 => "4h",
            Interval::H6 => "6h",
            Interval::H8 => "8h",
            Interval::H12 => "12h",
            Interval::D1 => "1d",
            Interval::D3 => "3d",
            Interval::W1 => "1w",
            Interval::MM1 => "1M",
        }
    }

    /// The duration of one candle bucket, in milliseconds.
    pub fn step_ms(&self) -> (r: i64)
        ensures
            r as int == spec_step_ms(*self),
    {
        match self {
            Interval::S1 => 1_000,
            Interval::M1 => 60_000,
            Interval::M3 => 180_000,
            Interval::M5 => 300_000,
            Interval::M15 => 900_000,
            Interval::M30 => 1_800_000,
            Interval::H1 => 3_600_000,
            Interval::H2 => 7_200_000,
            Interval::H4 => 14_400_000,
            Interval::H6 => 21_600_000,
            Interval::H8 => 28_800_000,
            Interval::H12 => 43_200_000,
            Interval::D1 => 86_400_000,
            Interval::D3 => 259_200_000,
            Interval::W1 => 604_800_000,
            Interval::MM1 => 2_419_200_000,
        }
    }

    /// The widest span one request may cover, in milliseconds: the
    /// step times the per-request candle cap.
    pub fn max_span_ms(&self) -> (r: i64)
        ensures
            r as int == spec_max_span_ms(*self),
            r as int == CANDLE_CAP * spec_step_ms(*self),
    {
        proof {
            lemma_max_span_is_step_times_cap(*self);
        }
        match self {
            Interval::S1 => 1_000_000,
            Interval::M1 => 60_000_000,
            Interval::M3 => 180_000_000,
            Interval::M5 => 300_000_000,
            Interval::M15 => 900_000_000,
            Interval::M30 => 1_800_000_000,
            Interval::H1 => 3_600_000_000,
            Interval::H2 => 7_200_000_000,
            Interval::H4 => 14_400_000_000,
            Interval::H6 => 21_600_000_000,
            Interval::H8 => 28_800_000_000,
            Interval::H12 => 43_200_000_000,
            Interval::D1 => 86_400_000_000,
            Interval::D3 => 259_200_000_000,
            Interval::W1 => 604_800_000_000,
            Interval::MM1 => 2_419_200_000_000,
        }
    }
}

/// One fetch request as the caller states it.  `from_date` and `to_date`
/// are UTC timestamps in milliseconds; `output_file` is kept verbatim for
/// the caller and never opened by the library.
#[derive(Clone, Debug)]
pub struct Command {
    /// The market to fetch the data (e.g., binance).
    pub market: Market,
    /// The trading pair symbol (e.g., BTCUSDT, ETHUSDT).
    pub symbol: String,
    /// The time interval for klines.
    pub interval: Interval,
    /// Start date for fetching klines, milliseconds since the Unix epoch.
    pub from_date: Option<i64>,
    /// End date for fetching klines, milliseconds since the Unix epoch.
    pub to_date: Option<i64>,
    /// Output file path to save the klines in JSON format.
    pub output_file: Option<String>,
}

/// A command is valid when its dates, where both are given, are in order.
pub open spec fn spec_dates_in_order(from_date: Option<i64>, to_date: Option<i64>) -> bool {
    match (from_date, to_date) {
        (Some(f), Some(t)) => f <= t,
        _ => true,
    }
}

impl Command {
    /// Validates a command: where both dates are given, the end must not
    /// precede the start.  Rejected commands never reach request
    /// planning.
    pub fn new(
        market: Market,
        symbol: String,
        interval: Interval,
        from_date: Option<i64>,
        to_date: Option<i64>,
        output_file: Option<String>,
    ) -> (r: Result<Command>)
        ensures
            r is Ok <==> spec_dates_in_order(from_date, to_date),
            r matches Ok(c) ==> c == (Command {
                market,
                symbol,
                interval,
                from_date,
                to_date,
                output_file,
            }),
            r matches Err(e) ==> e == Error::InvalidDatetime,
    {
        if let (Some(f), Some(t)) = (from_date, to_date) {
            if t < f {
                return Err(Error::InvalidDatetime);
            }
        }
        Ok(Command { market, symbol, interval, from_date, to_date, output_file })
    }
}

} // verus!
