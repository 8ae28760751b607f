//! Resume and merge: continuing a partial download past what a
//! destination already holds.
//!
//! When the destination holds records, the effective start moves one
//! step past the last record's close instant, so nothing already
//! persisted is fetched again; the splitter's gap rule then keeps the
//! new sub-ranges disjoint from the old records.  On completion the old
//! records simply precede the new ones; no deduplication pass runs.

use vstd::prelude::*;

use crate::errors::{Error, Result};
use crate::market::Kline;

verus! {

/// Picks the effective start of a run: one step past the last
/// persisted record's close instant when any record exists, else the
/// requested start itself.  A record set whose advance would leave the
/// representable range is rejected rather than wrapped around.
pub fn plan_resume<T: Kline>(existing: Option<&Vec<T>>, requested_start: i64, step: i64) -> (r:
    Result<i64>)
    requires
        step >= 1,
    ensures
        existing is None ==> r == Ok::<i64, Error>(requested_start),
        existing matches Some(v) ==> {
            if v@.len() == 0 {
                r == Ok::<i64, Error>(requested_start)
            } else {
                let last_close = v@[v@.len() - 1].spec_close_time();
                if last_close + step <= i64::MAX {
                    r matches Ok(e) && e == last_close + step
                } else {
                    r == Err::<i64, Error>(Error::InvalidDatetime)
                }
            }
        },
{
    match existing {
        None => Ok(requested_start),
        Some(v) => {
            if v.len() == 0 {
                return Ok(requested_start);
            }
            let last = &v[v.len() - 1];
            let close = last.close_time();
            match close.checked_add(step) {
                Some(effective) => Ok(effective),
                None => Err(Error::InvalidDatetime),
            }
        },
    }
}

/// Appends the freshly fetched records to the previously persisted
/// ones: the final set is the old records followed by the new, in that
/// order, with nothing dropped and nothing reordered.
pub fn merge_records<T>(existing: Vec<T>, fresh: Vec<T>) -> (r: Vec<T>)
    ensures
        r@ == existing@ + fresh@,
{
    let mut merged = existing;
    let mut incoming = fresh;
    merged.append(&mut incoming);
    merged
}

} // verus!
