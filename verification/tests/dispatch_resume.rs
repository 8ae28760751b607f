//! The dispatcher's ordering and retry decisions, and the resume logic.

use download_ticks::binance::BinanceKline;
use download_ticks::codec::Scalar;
use download_ticks::dispatch::{
    collect_outcomes, drive_request, gather_rows, retry_step, AttemptResult, Dispatcher,
    FetchOutcome, NextStep, RetryPolicy, CONCURRENCY_LIMIT,
};
use download_ticks::errors::Error;
use download_ticks::resume::{merge_records, plan_resume};

fn rows_of(values: &[i64]) -> Vec<Vec<Scalar>> {
    values.iter().map(|v| vec![Scalar::Int(*v)]).collect()
}

fn policy() -> RetryPolicy {
    RetryPolicy { retry_limit: 2, retry_pause_ms: 250 }
}

#[test]
fn concurrency_cap_is_fixed() {
    assert_eq!(CONCURRENCY_LIMIT, 90);
}

#[test]
fn retry_step_decodes_successful_body() {
    let step = retry_step(&policy(), 0, AttemptResult::Body(String::from("[[7]]")));
    assert_eq!(step, NextStep::Done(FetchOutcome::Fetched(rows_of(&[7]))));
}

#[test]
fn retry_step_retries_transport_failures_until_budget_spent() {
    let p = policy();
    for attempts_done in 0..2 {
        let step = retry_step(
            &p,
            attempts_done,
            AttemptResult::TransportError(String::from("connection reset")),
        );
        assert_eq!(step, NextStep::RetryAfter(250));
    }
    let last = retry_step(&p, 2, AttemptResult::TransportError(String::from("connection reset")));
    assert_eq!(last, NextStep::Done(FetchOutcome::Failed(String::from("connection reset"))));
}

#[test]
fn retry_step_treats_decode_errors_like_transport_errors() {
    let p = policy();
    let step = retry_step(&p, 0, AttemptResult::Body(String::from("not json")));
    assert_eq!(step, NextStep::RetryAfter(250));
    let last = retry_step(&p, 2, AttemptResult::Body(String::from("not json")));
    assert_eq!(
        last,
        NextStep::Done(FetchOutcome::Failed(String::from(
            "Unable to decode the response body as kline data."
        )))
    );
}

#[test]
fn drive_request_settles_on_last_failure_when_budget_spent() {
    let p = policy();
    let attempts = vec![
        AttemptResult::TransportError(String::from("first")),
        AttemptResult::TransportError(String::from("second")),
        AttemptResult::TransportError(String::from("third")),
        AttemptResult::TransportError(String::from("never reached")),
    ];
    assert_eq!(
        drive_request(&p, attempts),
        Some(FetchOutcome::Failed(String::from("third")))
    );
}

#[test]
fn drive_request_settles_early_on_success() {
    let p = policy();
    let attempts = vec![
        AttemptResult::TransportError(String::from("first")),
        AttemptResult::Body(String::from("[[5]]")),
        AttemptResult::TransportError(String::from("never reached")),
    ];
    assert_eq!(
        drive_request(&p, attempts),
        Some(FetchOutcome::Fetched(rows_of(&[5])))
    );
}

#[test]
fn outcomes_follow_submission_order_not_completion_order() {
    // Adversarially shuffled completion order: the output still lines
    // up index for index with the submitted requests.
    let completions = vec![
        (2usize, FetchOutcome::Fetched(rows_of(&[30]))),
        (0usize, FetchOutcome::Fetched(rows_of(&[10]))),
        (3usize, FetchOutcome::Fetched(rows_of(&[40]))),
        (1usize, FetchOutcome::Fetched(rows_of(&[20]))),
    ];
    let out = collect_outcomes(4, completions).unwrap();
    assert_eq!(
        out,
        vec![
            FetchOutcome::Fetched(rows_of(&[10])),
            FetchOutcome::Fetched(rows_of(&[20])),
            FetchOutcome::Fetched(rows_of(&[30])),
            FetchOutcome::Fetched(rows_of(&[40])),
        ]
    );
}

#[test]
fn collect_rejects_duplicate_missing_or_out_of_range_indices() {
    let o = || FetchOutcome::Fetched(Vec::new());
    assert!(collect_outcomes(2, vec![(0, o()), (0, o())]).is_none());
    assert!(collect_outcomes(2, vec![(0, o())]).is_none());
    assert!(collect_outcomes(2, vec![(0, o()), (2, o())]).is_none());
}

#[test]
fn failed_subrange_leaves_other_outcomes_untouched() {
    // Sub-range 1 fails for good after its retries; the run still
    // completes with an outcome for every sub-range.
    let p = policy();
    let mut dispatcher = Dispatcher::new(3);
    for index in [2usize, 1, 0] {
        let mut attempts: u32 = 0;
        loop {
            let attempt = if index == 1 {
                AttemptResult::TransportError(String::from("boom"))
            } else {
                AttemptResult::Body(format!("[[{index}]]"))
            };
            match retry_step(&p, attempts, attempt) {
                NextStep::Done(outcome) => {
                    dispatcher.record(index, outcome);
                    break;
                },
                NextStep::RetryAfter(pause) => {
                    assert_eq!(pause, 250);
                    attempts += 1;
                },
            }
        }
    }
    assert!(dispatcher.is_complete());
    let outcomes = dispatcher.into_outcomes();
    assert_eq!(
        outcomes,
        vec![
            FetchOutcome::Fetched(rows_of(&[0])),
            FetchOutcome::Failed(String::from("boom")),
            FetchOutcome::Fetched(rows_of(&[2])),
        ]
    );
    let gathered = gather_rows(outcomes);
    assert_eq!(gathered, rows_of(&[0, 2]));
}

#[test]
fn gather_concatenates_successes_in_order() {
    let outcomes = vec![
        FetchOutcome::Fetched(rows_of(&[1, 2])),
        FetchOutcome::Failed(String::from("gap")),
        FetchOutcome::Fetched(rows_of(&[3])),
    ];
    assert_eq!(gather_rows(outcomes), rows_of(&[1, 2, 3]));
}

fn kline_closing_at(close_time: i64) -> BinanceKline {
    BinanceKline {
        open_time: close_time - 3_599_999,
        open_price: String::from("1.0"),
        high_price: String::from("1.0"),
        low_price: String::from("1.0"),
        close_price: String::from("1.0"),
        volume: String::from("0.0"),
        close_time,
        quote_asset_volume: String::from("0.0"),
        number_of_trades: 0,
        taker_buy_base_volume: String::from("0.0"),
        taker_buy_quote_volume: String::from("0.0"),
        ignore: String::from("0"),
    }
}

#[test]
fn resume_advances_past_last_persisted_record() {
    // The persisted file closes at T; resuming with an earlier
    // requested start must begin at T plus one step.
    let t = 1_549_900_799_999i64;
    let requested_start = 1_546_300_800_000i64;
    let existing = vec![kline_closing_at(t - 7_200_000), kline_closing_at(t)];
    let step = 3_600_000i64;
    assert!(requested_start < t);
    assert_eq!(plan_resume(Some(&existing), requested_start, step), Ok(t + step));
}

#[test]
fn resume_without_records_keeps_requested_start() {
    let none: Option<&Vec<BinanceKline>> = None;
    assert_eq!(plan_resume(none, 42, 1000), Ok(42));
    let empty: Vec<BinanceKline> = Vec::new();
    assert_eq!(plan_resume(Some(&empty), 42, 1000), Ok(42));
}

#[test]
fn resume_rejects_unrepresentable_advance() {
    let existing = vec![kline_closing_at(i64::MAX)];
    assert_eq!(plan_resume(Some(&existing), 0, 1000), Err(Error::InvalidDatetime));
}

#[test]
fn merge_keeps_old_records_before_new_ones() {
    let old_records = vec![kline_closing_at(1_000_000), kline_closing_at(2_000_000)];
    let new_records = vec![kline_closing_at(3_000_000)];
    let merged = merge_records(old_records.clone(), new_records.clone());
    assert_eq!(merged.len(), 3);
    assert_eq!(&merged[..2], &old_records[..]);
    assert_eq!(&merged[2..], &new_records[..]);
}
