//! The wire codec and the typed records of both exchanges.

use download_ticks::binance::{decode_binance, BinanceKline};
use download_ticks::codec::{decode_doc, encode_doc, encode_row, parse_i64_lenient, Scalar};
use download_ticks::errors::Error;
use download_ticks::gate::{decode_gate, to_datetime, GateKline};
use download_ticks::market::Kline;

fn sample_binance_text() -> &'static str {
    "[[1546300800000,\"16541.77\",\"16545.70\",\"16508.39\",\"16529.67\",\"4087.94\",1546304399999,\"67592553.61\",117596,\"2033.55\",\"33626.88\",\"0\"]]"
}

fn sample_binance_kline() -> BinanceKline {
    BinanceKline {
        open_time: 1_546_300_800_000,
        open_price: String::from("16541.77"),
        high_price: String::from("16545.70"),
        low_price: String::from("16508.39"),
        close_price: String::from("16529.67"),
        volume: String::from("4087.94"),
        close_time: 1_546_304_399_999,
        quote_asset_volume: String::from("67592553.61"),
        number_of_trades: 117_596,
        taker_buy_base_volume: String::from("2033.55"),
        taker_buy_quote_volume: String::from("33626.88"),
        ignore: String::from("0"),
    }
}

#[test]
fn encode_binance_row_matches_wire_text() {
    let text = encode_row(&sample_binance_kline().format());
    assert_eq!(
        text,
        "[1546300800000,\"16541.77\",\"16545.70\",\"16508.39\",\"16529.67\",\"4087.94\",1546304399999,\"67592553.61\",117596,\"2033.55\",\"33626.88\",\"0\"]"
    );
}

#[test]
fn decode_then_encode_reproduces_document() {
    let rows = decode_doc(sample_binance_text()).unwrap();
    assert_eq!(encode_doc(&rows), sample_binance_text());
}

#[test]
fn decode_binance_document() {
    let klines = decode_binance(sample_binance_text()).unwrap();
    assert_eq!(klines, vec![sample_binance_kline()]);
    assert_eq!(klines[0].open_time(), 1_546_300_800_000);
    assert_eq!(klines[0].close_time(), 1_546_304_399_999);
}

#[test]
fn binance_kline_row_round_trip() {
    let k = sample_binance_kline();
    assert_eq!(BinanceKline::from_row(&k.format()), Some(k));
}

#[test]
fn empty_document_decodes_to_no_rows() {
    assert_eq!(decode_doc("[]").unwrap(), Vec::<Vec<Scalar>>::new());
    assert_eq!(encode_doc(&Vec::new()), "[]");
}

#[test]
fn decode_rejects_malformed_documents() {
    for bad in [
        "",
        "[",
        "]",
        "[]]",
        "[[]",
        "[ [1] ]",
        "[[1,]]",
        "[[01]]",
        "[[-0]]",
        "[[+1]]",
        "[[1.5]]",
        "[[\"a]]",
        "[[\"a\\\"b\"]]",
        "[[9223372036854775808]]",
        "[[12345678901234567890123]]",
        "{\"a\":1}",
    ] {
        assert_eq!(decode_doc(bad).unwrap_err(), Error::Decode, "accepted {bad:?}");
    }
}

#[test]
fn decode_accepts_machine_range_numbers() {
    let rows = decode_doc("[[9223372036854775807,-9223372036854775808,0]]").unwrap();
    assert_eq!(
        rows,
        vec![vec![Scalar::Int(i64::MAX), Scalar::Int(i64::MIN), Scalar::Int(0)]]
    );
}

#[test]
fn lenient_integer_read_matches_standard_parse() {
    for text in [
        "0", "7", "+7", "-42", "007", "-0", "+0", "1546300800",
        "9223372036854775807", "-9223372036854775808",
        "000000000000000000009223372036854775807", "",
        "+", "-", "12a", "a12", "+-7", "--7", " 7", "7 ",
        "9223372036854775808", "-9223372036854775809",
        "18446744073709551615", "99999999999999999999999999",
    ] {
        assert_eq!(parse_i64_lenient(text), text.parse::<i64>().ok(), "on {text:?}");
    }
}

fn sample_gate_text() -> &'static str {
    "[[\"1546300800\",\"229833.5291\",\"16534.67\",\"16549.42\",\"16508.39\",\"16541.77\",\"13.8974\",\"true\"]]"
}

fn sample_gate_kline() -> GateKline {
    GateKline {
        time: 1_546_300_800,
        quote_volume: String::from("229833.5291"),
        close_price: String::from("16534.67"),
        high_price: String::from("16549.42"),
        low_price: String::from("16508.39"),
        open_price: String::from("16541.77"),
        base_volume: String::from("13.8974"),
        window: true,
    }
}

#[test]
fn decode_gate_document() {
    let klines = decode_gate(sample_gate_text()).unwrap();
    assert_eq!(klines, vec![sample_gate_kline()]);
    assert_eq!(klines[0].open_time(), 1_546_300_800_000);
    assert_eq!(klines[0].close_time(), 1_546_300_800_000);
}

#[test]
fn gate_kline_row_round_trip() {
    let k = sample_gate_kline();
    assert_eq!(GateKline::from_row(&k.format()), Some(k));
    let mut closed = sample_gate_kline();
    closed.window = false;
    assert_eq!(GateKline::from_row(&closed.format()), Some(closed));
}

#[test]
fn gate_rejects_binance_layout_and_vice_versa() {
    assert_eq!(decode_gate(sample_binance_text()).unwrap_err(), Error::Decode);
    assert_eq!(decode_binance(sample_gate_text()).unwrap_err(), Error::Decode);
}

#[test]
fn to_datetime_reads_second_timestamps() {
    assert_eq!(to_datetime("1546300800"), Ok(1_546_300_800_000));
    assert_eq!(to_datetime("-1"), Ok(-1000));
    assert_eq!(to_datetime("007"), Ok(7000));
    assert_eq!(to_datetime("+7"), Ok(7000));
    assert_eq!(to_datetime("tomorrow"), Err(Error::InvalidDatetime));
    assert_eq!(to_datetime("9223372036854776"), Err(Error::InvalidDatetime));
}

#[test]
fn gate_accepts_zero_padded_timestamps() {
    // The bucket field is read as std reads integers: leading zeros
    // and an explicit sign are fine.
    let doc = "[[\"+01546300800\",\"1.0\",\"2.0\",\"3.0\",\"4.0\",\"5.0\",\"6.0\",\"false\"]]";
    let klines = decode_gate(doc).unwrap();
    assert_eq!(klines[0].time, 1_546_300_800);
    assert!(!klines[0].window);
}
