//! The record summary and the number formatting behind it.

use download_ticks::errors::Error;
use download_ticks::summary::{info, print_info, MAX_UTC_MS, MIN_UTC_MS};
use download_ticks::binance::BinanceKline;
use download_ticks::text::{i64_string, separator, u64_string};

fn binance_doc() -> String {
    let first = "[[1546300800000,\"16541.77\",\"16545.70\",\"16508.39\",\"16529.67\",\"4087.94\",1546304399999,\"67592553.61\",117596,\"2033.55\",\"33626.88\",\"0\"],";
    let second = "[1546304400000,\"16529.67\",\"16532.10\",\"16501.00\",\"16510.22\",\"3999.01\",1546307999999,\"66123456.78\",98765,\"1999.55\",\"31626.00\",\"0\"]]";
    format!("{first}{second}")
}

#[test]
fn info_summarizes_binance_file() {
    let text = info(&binance_doc()).unwrap();
    assert_eq!(
        text,
        "\n========================\n\
         Number of elements: 2\n\
         Duration: 0D / 1H / 119m\n\
         It started from 2019-01-01 00:00:00 UTC,\n\
         and ended at 2019-01-01 01:59:59.999 UTC.\n\
         ========================\n"
    );
}

#[test]
fn info_summarizes_gate_file() {
    let doc = "[[\"1546300800\",\"1.0\",\"2.0\",\"3.0\",\"4.0\",\"5.0\",\"6.0\",\"true\"],[\"1546560000\",\"1.0\",\"2.0\",\"3.0\",\"4.0\",\"5.0\",\"6.0\",\"true\"]]";
    let text = info(doc).unwrap();
    assert_eq!(
        text,
        "\n========================\n\
         Number of elements: 2\n\
         Duration: 3D / 72H / 4_320m\n\
         It started from 2019-01-01 00:00:00 UTC,\n\
         and ended at 2019-01-04 00:00:00 UTC.\n\
         ========================\n"
    );
}

#[test]
fn info_rejects_undecodable_file() {
    assert_eq!(info("not a kline file").unwrap_err(), Error::InvalidFile);
    assert_eq!(info("{\"rows\": []}").unwrap_err(), Error::InvalidFile);
}

#[test]
fn info_rejects_empty_record_set() {
    assert_eq!(info("[]").unwrap_err(), Error::MissingData);
}

#[test]
fn info_rejects_out_of_calendar_instants() {
    // Decodes as a Binance row, but no calendar can render instants
    // this far out: the file is fine, the datetime is not.
    let doc = "[[9223372036854775000,\"1\",\"1\",\"1\",\"1\",\"1\",9223372036854775001,\"1\",1,\"1\",\"1\",\"0\"]]";
    assert_eq!(info(doc).unwrap_err(), Error::InvalidDatetime);
}

fn kline_spanning(open_time: i64, close_time: i64) -> BinanceKline {
    BinanceKline {
        open_time,
        open_price: String::from("1.0"),
        high_price: String::from("1.0"),
        low_price: String::from("1.0"),
        close_price: String::from("1.0"),
        volume: String::from("0.0"),
        close_time,
        quote_asset_volume: String::from("0.0"),
        number_of_trades: 0,
        taker_buy_base_volume: String::from("0.0"),
        taker_buy_quote_volume: String::from("0.0"),
        ignore: String::from("0"),
    }
}

#[test]
fn summary_covers_the_whole_calendar_range() {
    // The calendar's first and last representable milliseconds are
    // both summarizable; one step beyond either is not.
    let whole = vec![kline_spanning(MIN_UTC_MS, MAX_UTC_MS)];
    assert!(print_info(&whole).is_ok());
    let before_dawn = vec![kline_spanning(MIN_UTC_MS - 1, 0)];
    assert_eq!(print_info(&before_dawn).unwrap_err(), Error::InvalidDatetime);
    let past_dusk = vec![kline_spanning(0, MAX_UTC_MS + 1)];
    assert_eq!(print_info(&past_dusk).unwrap_err(), Error::InvalidDatetime);
}

#[test]
fn empty_record_set_has_no_boundaries() {
    let none: Vec<BinanceKline> = Vec::new();
    assert_eq!(print_info(&none).unwrap_err(), Error::MissingData);
}

#[test]
fn separator_groups_digits_by_thousands() {
    assert_eq!(separator(0, "_"), "0");
    assert_eq!(separator(999, "_"), "999");
    assert_eq!(separator(1_000, "_"), "1_000");
    assert_eq!(separator(1_234_567, "_"), "1_234_567");
    assert_eq!(separator(-1_234_567, "_"), "-1_234_567");
    assert_eq!(separator(1_234_567, ","), "1,234,567");
}

#[test]
fn integer_rendering_is_canonical() {
    assert_eq!(u64_string(0), "0");
    assert_eq!(u64_string(18_446_744_073_709_551_615), "18446744073709551615");
    assert_eq!(i64_string(-9_223_372_036_854_775_808), "-9223372036854775808");
    assert_eq!(i64_string(42), "42");
}

#[test]
fn error_messages_name_their_causes() {
    assert_eq!(Error::MissingData.message(), "Check the first/last kline data.");
    assert_eq!(
        Error::InvalidFile.message(),
        "Unable to read you input file. Make sure it is json kline valid data."
    );
    assert_eq!(Error::InvalidDatetime.message(), "Invalid given datetime.");
}
