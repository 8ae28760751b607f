//! The range splitter and the per-exchange request plans.

use download_ticks::cli::{Command, Interval, Market};
use download_ticks::errors::Error;
use download_ticks::market::Endpoint;
use download_ticks::split::{split_intervals, TimeRange};
use download_ticks::binance::Binance;
use download_ticks::gate::{ms_to_secs, Gate};

const JAN_1_2019: i64 = 1_546_300_800_000;
const MAR_1_2019: i64 = 1_551_398_400_000;

fn hourly_command(market: Market) -> Command {
    Command::new(
        market,
        String::from("BTCUSDT"),
        Interval::H1,
        Some(JAN_1_2019),
        Some(MAR_1_2019),
        None,
    )
    .unwrap()
}

#[test]
fn split_two_months_hourly() {
    // 1416 hours at a 1000-candle cap: two sub-ranges with a one-hour
    // gap at the boundary.
    let ranges = split_intervals(JAN_1_2019, MAR_1_2019, &Interval::H1);
    assert_eq!(
        ranges,
        vec![
            TimeRange { start: JAN_1_2019, end: 1_549_900_800_000 }, // 2019-02-11T16:00:00Z
            TimeRange { start: 1_549_904_400_000, end: MAR_1_2019 }, // 2019-02-11T17:00:00Z
        ]
    );
}

#[test]
fn split_degenerate_range_is_empty() {
    let ranges = split_intervals(JAN_1_2019, JAN_1_2019, &Interval::M1);
    assert!(ranges.is_empty());
}

#[test]
fn split_adjacent_gap_is_one_step() {
    let step = Interval::M5.step_ms();
    let max_span = Interval::M5.max_span_ms();
    let end = JAN_1_2019 + 5 * max_span;
    let ranges = split_intervals(JAN_1_2019, end, &Interval::M5);
    assert!(ranges.len() > 1);
    for pair in ranges.windows(2) {
        assert_eq!(pair[1].start, pair[0].end + step);
    }
    assert_eq!(ranges[0].start, JAN_1_2019);
    assert_eq!(ranges.last().unwrap().end, end);
    for r in &ranges {
        assert!(r.start <= r.end);
        assert!(r.end - r.start <= max_span);
    }
}

#[test]
fn split_single_chunk_when_range_fits() {
    let ranges = split_intervals(JAN_1_2019, JAN_1_2019 + 3_600_000, &Interval::H1);
    assert_eq!(ranges, vec![TimeRange { start: JAN_1_2019, end: JAN_1_2019 + 3_600_000 }]);
}

#[test]
fn interval_tokens_and_steps() {
    assert_eq!(Interval::S1.token(), "1s");
    assert_eq!(Interval::M1.token(), "1m");
    assert_eq!(Interval::H1.token(), "1h");
    assert_eq!(Interval::MM1.token(), "1M");
    assert_eq!(Interval::H1.step_ms(), 3_600_000);
    assert_eq!(Interval::H1.max_span_ms(), 3_600_000_000);
    assert_eq!(Interval::S1.max_span_ms(), 1_000_000);
    assert_eq!(Interval::D1.max_span_ms(), 86_400_000_000);
    assert_eq!(Interval::MM1.max_span_ms(), 2_419_200_000_000);
    assert_eq!(Market::Binance.token(), "binance");
    assert_eq!(Market::Gate.token(), "gate");
}

#[test]
fn max_span_is_step_times_candle_cap() {
    let all = [
        Interval::S1,
        Interval::M1,
        Interval::M3,
        Interval::M5,
        Interval::M15,
        Interval::M30,
        Interval::H1,
        Interval::H2,
        Interval::H4,
        Interval::H6,
        Interval::H8,
        Interval::H12,
        Interval::D1,
        Interval::D3,
        Interval::W1,
        Interval::MM1,
    ];
    for interval in all {
        assert_eq!(interval.max_span_ms(), 1000 * interval.step_ms());
    }
}

#[test]
fn split_one_second_interval_respects_candle_cap() {
    // 2000 one-second candles at a 1000-candle cap: two sub-ranges of
    // at most 1000 seconds each.
    let ranges = split_intervals(0, 2_000_000, &Interval::S1);
    assert_eq!(
        ranges,
        vec![
            TimeRange { start: 0, end: 1_000_000 },
            TimeRange { start: 1_001_000, end: 2_000_000 },
        ]
    );
}

#[test]
fn command_rejects_reversed_dates() {
    let r = Command::new(
        Market::Binance,
        String::from("BTCUSDT"),
        Interval::H1,
        Some(MAR_1_2019),
        Some(JAN_1_2019),
        None,
    );
    assert_eq!(r.unwrap_err(), Error::InvalidDatetime);
}

#[test]
fn binance_urls_cover_both_subranges() {
    let cmd = hourly_command(Market::Binance);
    let urls = Binance::build(&cmd).urls();
    assert_eq!(
        urls,
        vec![
            String::from(
                "https://api.binance.com/api/v3/klines?symbol=BTCUSDT&interval=1h&limit=1000&startTime=1546300800000&endTime=1549900800000"
            ),
            String::from(
                "https://api.binance.com/api/v3/klines?symbol=BTCUSDT&interval=1h&limit=1000&startTime=1549904400000&endTime=1551398400000"
            ),
        ]
    );
}

#[test]
fn binance_url_open_ended_forward() {
    let cmd = Command::new(
        Market::Binance,
        String::from("ETHUSDT"),
        Interval::M1,
        Some(JAN_1_2019),
        None,
        None,
    )
    .unwrap();
    let urls = Binance::build(&cmd).urls();
    assert_eq!(
        urls,
        vec![String::from(
            "https://api.binance.com/api/v3/klines?symbol=ETHUSDT&interval=1m&limit=1000&startTime=1546300800000"
        )]
    );
}

#[test]
fn binance_url_default_window() {
    let cmd = Command::new(
        Market::Binance,
        String::from("ETHUSDT"),
        Interval::D1,
        None,
        None,
        None,
    )
    .unwrap();
    let urls = Binance::build(&cmd).urls();
    assert_eq!(
        urls,
        vec![String::from(
            "https://api.binance.com/api/v3/klines?symbol=ETHUSDT&interval=1d&limit=1000"
        )]
    );
}

#[test]
fn gate_urls_use_whole_seconds() {
    let mut cmd = hourly_command(Market::Gate);
    cmd.symbol = String::from("BTC_USDT");
    let urls = Gate::build(&cmd).urls();
    assert_eq!(
        urls,
        vec![
            String::from(
                "https://api.gateio.ws/api/v4/spot/candlesticks?currency_pair=BTC_USDT&interval=1h&from=1546300800&to=1549900800"
            ),
            String::from(
                "https://api.gateio.ws/api/v4/spot/candlesticks?currency_pair=BTC_USDT&interval=1h&from=1549904400&to=1551398400"
            ),
        ]
    );
}

#[test]
fn gate_url_default_window() {
    let cmd = Command::new(
        Market::Gate,
        String::from("BTC_USDT"),
        Interval::H4,
        None,
        None,
        None,
    )
    .unwrap();
    let urls = Gate::build(&cmd).urls();
    assert_eq!(
        urls,
        vec![String::from(
            "https://api.gateio.ws/api/v4/spot/candlesticks?currency_pair=BTC_USDT&interval=4h&limit=1000"
        )]
    );
}

#[test]
fn ms_to_secs_rounds_toward_minus_infinity() {
    assert_eq!(ms_to_secs(1_546_300_800_000), 1_546_300_800);
    assert_eq!(ms_to_secs(1_999), 1);
    assert_eq!(ms_to_secs(-1), -1);
    assert_eq!(ms_to_secs(-1_000), -1);
    assert_eq!(ms_to_secs(-1_001), -2);
    assert_eq!(ms_to_secs(i64::MIN), i64::MIN / 1000 - 1);
}
