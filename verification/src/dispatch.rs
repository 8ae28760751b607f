//! The fetch dispatcher's decisions: per-attempt retry, and the indexed
//! slot array that keeps outcomes in submission order however the
//! requests complete.
//!
//! The driver that actually performs requests hands every completion
//! back as a pair of submission index and outcome.  Each outcome lands
//! in the slot of its index, so reading the slots back in order yields
//! one outcome per request, index-aligned with the input sequence, with
//! no sorting and no dependence on completion order.  A sub-range that
//! fails for good occupies its slot with the final error and leaves
//! every other sub-range untouched.

use vstd::prelude::*;

use crate::codec::{decode_doc, spec_parse_doc, spec_rows_view, Row};
use crate::errors::{spec_error_message, Error};

verus! {

/// How many requests are in flight at most.
pub const CONCURRENCY_LIMIT: usize = 90;

/// Retry policy: how many further attempts one sub-range gets after a
/// failure, and the fixed pause before each, in milliseconds.
#[derive(Clone, Copy, Debug, PartialEq, Eq, Structural)]
pub struct RetryPolicy {
    pub retry_limit: u32,
    pub retry_pause_ms: u64,
}

/// What one attempt at a sub-range produced: a response body, or a
/// transport failure described by the driver.
#[derive(Debug, Clone, PartialEq, Eq)]
pub enum AttemptResult {
    Body(String),
    TransportError(String),
}

/// The final outcome of one sub-range: its decoded rows, or the last
/// error after the retry budget ran out.
#[derive(Debug, Clone, PartialEq, Eq)]
pub enum FetchOutcome {
    Fetched(Vec<Row>),
    Failed(String),
}

/// The dispatcher's next move for one sub-range.
#[derive(Debug, Clone, PartialEq, Eq)]
pub enum NextStep {
    Done(FetchOutcome),
    RetryAfter(u64),
}

/// Decides what happens after one attempt: a body that decodes ends the
/// sub-range with its rows; a transport failure or an undecodable body
/// is retried until the budget is spent, then recorded as the final
/// failure.  No failure ever aborts the run as a whole.
pub fn retry_step(policy: &RetryPolicy, attempts_done: u32, attempt: AttemptResult) -> (r:
    NextStep)
    ensures
        attempt matches AttemptResult::Body(b) ==> (spec_parse_doc(b@) is Some ==> (r matches
            NextStep::Done(o) && o matches FetchOutcome::Fetched(rows) && spec_parse_doc(b@)
            == Some(spec_rows_view(rows@)))),
        attempt matches AttemptResult::Body(b) ==> (spec_parse_doc(b@) is None && attempts_done
            < policy.retry_limit ==> r == NextStep::RetryAfter(policy.retry_pause_ms)),
        attempt matches AttemptResult::Body(b) ==> (spec_parse_doc(b@) is None && attempts_done
            >= policy.retry_limit ==> (r matches NextStep::Done(o) && o matches
            FetchOutcome::Failed(m) && m@ == spec_error_message(Error::Decode))),
        attempt matches AttemptResult::TransportError(m) ==> (attempts_done < policy.retry_limit
            ==> r == NextStep::RetryAfter(policy.retry_pause_ms)),
        attempt matches AttemptResult::TransportError(m) ==> (attempts_done >= policy.retry_limit
            ==> r == NextStep::Done(FetchOutcome::Failed(m))),
{
    match attempt {
        AttemptResult::Body(b) => {
            match decode_doc(b.as_str()) {
                Ok(rows) => NextStep::Done(FetchOutcome::Fetched(rows)),
                Err(e) => {
                    if attempts_done < policy.retry_limit {
                        NextStep::RetryAfter(policy.retry_pause_ms)
                    } else {
                        let mut msg = String::new();
                        msg.append(e.message());
                        proof {
                            assert(msg@ =~= spec_error_message(Error::Decode));
                        }
                        NextStep::Done(FetchOutcome::Failed(msg))
                    }
                },
            }
        },
        AttemptResult::TransportError(m) => {
            if attempts_done < policy.retry_limit {
                NextStep::RetryAfter(policy.retry_pause_ms)
            } else {
                NextStep::Done(FetchOutcome::Failed(m))
            }
        },
    }
}

/// Whether one attempt fails: a transport error, or a body that does
/// not decode.
pub open spec fn spec_attempt_fails(a: AttemptResult) -> bool {
    match a {
        AttemptResult::Body(b) => spec_parse_doc(b@) is None,
        AttemptResult::TransportError(_) => true,
    }
}

/// Drives one sub-range to its outcome: feeds successive attempt
/// results to the retry decision until it settles.  Within the retry
/// budget the sub-range always settles: the first attempt whose body
/// decodes settles it with those rows, one that fails at every attempt
/// settles on the last failure the moment the budget is spent, and a
/// run never hangs on one sub-range.
pub fn drive_request(policy: &RetryPolicy, attempts: Vec<AttemptResult>) -> (r: Option<
    FetchOutcome,
>)
    ensures
        attempts@.len() > policy.retry_limit ==> r is Some,
        (forall|k: int| 0 <= k < attempts@.len() ==> #[trigger] attempts@[k] is TransportError)
            && attempts@.len() > policy.retry_limit ==> (r matches Some(o) && o matches
            FetchOutcome::Failed(m) && m@ == attempts@[
            policy.retry_limit as int
        ]->TransportError_0@),
        forall|k: int|
            (0 <= k < attempts@.len() && k <= policy.retry_limit && !spec_attempt_fails(
                #[trigger] attempts@[k],
            ) && (forall|j: int| 0 <= j < k ==> spec_attempt_fails(#[trigger] attempts@[j])))
                ==> (r matches Some(o) && o matches FetchOutcome::Fetched(rows)
                && spec_parse_doc(attempts@[k]->Body_0@) == Some(spec_rows_view(rows@))),
{
    let ghost orig = attempts@;
    let mut remaining = attempts;
    let mut done: u32 = 0;
    while remaining.len() > 0
        invariant
            orig == attempts@,
            remaining@ == orig.skip(done as int),
            done as int + remaining@.len() == orig.len(),
            done <= policy.retry_limit,
            forall|j: int| 0 <= j < done ==> spec_attempt_fails(#[trigger] orig[j]),
        decreases remaining.len(),
    {
        let ghost dcount = done as int;
        let attempt = remaining.remove(0);
        let ghost this_attempt = attempt;
        proof {
            assert(this_attempt == orig.skip(dcount)[0]);
            assert(this_attempt == orig[dcount]);
            assert(remaining@ =~= orig.skip(dcount + 1));
        }
        match retry_step(policy, done, attempt) {
            NextStep::Done(outcome) => {
                proof {
                    if (forall|k: int|
                        0 <= k < orig.len() ==> #[trigger] orig[k] is TransportError)
                        && orig.len() > policy.retry_limit {
                        assert(orig[dcount] is TransportError);
                        assert(done >= policy.retry_limit);
                        assert(dcount == policy.retry_limit as int);
                        assert(outcome == FetchOutcome::Failed(
                            this_attempt->TransportError_0,
                        ));
                    }
                    assert forall|k: int|
                        (0 <= k < orig.len() && k <= policy.retry_limit && !spec_attempt_fails(
                            #[trigger] orig[k],
                        ) && (forall|j: int|
                            0 <= j < k ==> spec_attempt_fails(#[trigger] orig[j])))
                            implies (Some(outcome) matches Some(o) && o matches
                        FetchOutcome::Fetched(rows) && spec_parse_doc(orig[k]->Body_0@) == Some(
                        spec_rows_view(rows@),
                    )) by {
                        if k < dcount {
                            assert(spec_attempt_fails(orig[k]));
                            assert(false);
                        } else if k > dcount {
                            // the attempt that settled here failed, so the
                            // budget must have been spent already
                            assert(spec_attempt_fails(orig[dcount]));
                            match this_attempt {
                                AttemptResult::Body(b) => {
                                    assert(spec_parse_doc(b@) is None);
                                    assert(done >= policy.retry_limit);
                                },
                                AttemptResult::TransportError(_) => {
                                    assert(done >= policy.retry_limit);
                                },
                            }
                            assert(k > policy.retry_limit);
                            assert(false);
                        } else {
                            assert(this_attempt == orig[k]);
                            assert(!spec_attempt_fails(this_attempt));
                            match this_attempt {
                                AttemptResult::Body(b) => {
                                    assert(spec_parse_doc(b@) is Some);
                                },
                                AttemptResult::TransportError(_) => {
                                    assert(false);
                                },
                            }
                        }
                    }
                }
                return Some(outcome);
            },
            NextStep::RetryAfter(_) => {
                proof {
                    match this_attempt {
                        AttemptResult::Body(b) => {
                            if crate::codec::spec_parse_doc(b@) is Some {
                                assert(false);
                            }
                        },
                        AttemptResult::TransportError(_) => {},
                    }
                    assert(spec_attempt_fails(this_attempt));
                    assert(done < policy.retry_limit);
                }
                done = done + 1;
            },
        }
    }
    proof {
        assert(orig.len() == done as int);
        assert(orig.len() <= policy.retry_limit);
    }
    None
}

/// How many slots hold an outcome.
pub open spec fn spec_count_some(s: Seq<Option<FetchOutcome>>) -> int
    decreases s.len(),
{
    if s.len() == 0 {
        0
    } else {
        spec_count_some(s.drop_last()) + if s.last() is Some {
            1int
        } else {
            0int
        }
    }
}

/// The count never exceeds the slot count.
proof fn lemma_count_some_le(s: Seq<Option<FetchOutcome>>)
    ensures
        0 <= spec_count_some(s) <= s.len(),
    decreases s.len(),
{
    if s.len() > 0 {
        lemma_count_some_le(s.drop_last());
    }
}

/// Filling an empty slot raises the count by one.
proof fn lemma_count_some_update(s: Seq<Option<FetchOutcome>>, i: int, v: FetchOutcome)
    requires
        0 <= i < s.len(),
        s[i] is None,
    ensures
        spec_count_some(s.update(i, Some(v))) == spec_count_some(s) + 1,
    decreases s.len(),
{
    let t = s.update(i, Some(v));
    if i == s.len() - 1 {
        assert(t.drop_last() =~= s.drop_last());
    } else {
        lemma_count_some_update(s.drop_last(), i, v);
        assert(t.drop_last() =~= s.drop_last().update(i, Some(v)));
        assert(t.last() == s.last());
    }
}

/// A full count means every slot holds an outcome.
proof fn lemma_count_some_full(s: Seq<Option<FetchOutcome>>)
    requires
        spec_count_some(s) == s.len(),
    ensures
        forall|i: int| 0 <= i < s.len() ==> #[trigger] s[i] is Some,
    decreases s.len(),
{
    if s.len() > 0 {
        lemma_count_some_le(s.drop_last());
        lemma_count_some_full(s.drop_last());
        assert forall|i: int| 0 <= i < s.len() implies #[trigger] s[i] is Some by {
            if i < s.len() - 1 {
                assert(s.drop_last()[i] == s[i]);
            }
        }
    }
}

/// The order-preserving result collector: one slot per submitted
/// request, filled as completions arrive in any order.
pub struct Dispatcher {
    slots: Vec<Option<FetchOutcome>>,
    filled: usize,
}

impl Dispatcher {
    /// The slot array.
    pub closed spec fn spec_slots(&self) -> Seq<Option<FetchOutcome>> {
        self.slots@
    }

    /// The bookkeeping invariant: the fill counter matches the slots.
    pub closed spec fn spec_wf(&self) -> bool {
        self.filled as int == spec_count_some(self.slots@)
    }

    /// Prepares one empty slot per submitted request.
    pub fn new(n: usize) -> (r: Dispatcher)
        ensures
            r.spec_wf(),
            r.spec_slots().len() == n,
            spec_count_some(r.spec_slots()) == 0,
            forall|i: int| 0 <= i < n ==> r.spec_slots()[i] is None,
    {
        let mut slots: Vec<Option<FetchOutcome>> = Vec::new();
        let mut i: usize = 0;
        while i < n
            invariant
                0 <= i <= n,
                slots@.len() == i,
                forall|k: int| 0 <= k < i ==> slots@[k] is None,
                spec_count_some(slots@) == 0,
            decreases n - i,
        {
            let ghost old_slots = slots@;
            slots.push(None);
            proof {
                assert(slots@.drop_last() =~= old_slots);
            }
            i = i + 1;
        }
        Dispatcher { slots, filled: 0 }
    }

    /// Records the outcome of the request submitted at `index`.  Each
    /// slot is written exactly once, whatever order completions take.
    pub fn record(&mut self, index: usize, outcome: FetchOutcome)
        requires
            old(self).spec_wf(),
            index < old(self).spec_slots().len(),
            old(self).spec_slots()[index as int] is None,
        ensures
            final(self).spec_wf(),
            final(self).spec_slots() == old(self).spec_slots().update(index as int, Some(outcome)),
            spec_count_some(final(self).spec_slots()) == spec_count_some(old(self).spec_slots())
                + 1,
    {
        let cap = self.slots.len();
        proof {
            lemma_count_some_update(self.slots@, index as int, outcome);
            lemma_count_some_le(self.slots@.update(index as int, Some(outcome)));
            assert(self.filled < cap);
        }
        self.slots.set(index, Some(outcome));
        self.filled = self.filled + 1;
    }

    /// Whether the slot of `index` already holds an outcome.
    pub fn slot_filled(&self, index: usize) -> (r: bool)
        requires
            index < self.spec_slots().len(),
        ensures
            r == self.spec_slots()[index as int] is Some,
    {
        self.slots[index].is_some()
    }

    /// Whether every slot holds an outcome.
    pub fn is_complete(&self) -> (r: bool)
        requires
            self.spec_wf(),
        ensures
            r ==> forall|i: int| 0 <= i < self.spec_slots().len() ==> self.spec_slots()[i] is Some,
            r <==> spec_count_some(self.spec_slots()) == self.spec_slots().len(),
    {
        proof {
            if self.filled == self.slots.len() {
                lemma_count_some_full(self.slots@);
            }
        }
        self.filled == self.slots.len()
    }

    /// Reads the outcomes back in submission order, one per request.
    pub fn into_outcomes(self) -> (r: Vec<FetchOutcome>)
        requires
            self.spec_wf(),
            spec_count_some(self.spec_slots()) == self.spec_slots().len(),
        ensures
            r@.len() == self.spec_slots().len(),
            forall|i: int| 0 <= i < r@.len() ==> self.spec_slots()[i] == Some(#[trigger] r@[i]),
    {
        proof {
            lemma_count_some_full(self.slots@);
        }
        let ghost all = self.slots@;
        let Dispatcher { mut slots, filled: _ } = self;
        let mut out: Vec<FetchOutcome> = Vec::new();
        while slots.len() > 0
            invariant
                slots@ == all.take(slots@.len() as int),
                slots@.len() + out@.len() == all.len(),
                forall|k: int| 0 <= k < all.len() ==> #[trigger] all[k] is Some,
                forall|k: int|
                    0 <= k < out@.len() ==> all[slots@.len() + k] == Some(#[trigger] out@[k]),
            decreases slots.len(),
        {
            let ghost slen = slots@.len() as int;
            let ghost old_out = out@;
            let popped = slots.pop();
            match popped {
                Some(Some(o)) => {
                    proof {
                        assert(all.take(slen).last() == all[slen - 1]);
                        assert(slots@ =~= all.take(slen - 1));
                    }
                    out.insert(0, o);
                    proof {
                        assert forall|k: int|
                            0 <= k < out@.len() implies all[slots@.len() + k] == Some(
                            #[trigger] out@[k],
                        ) by {
                            if k > 0 {
                                assert(out@[k] == old_out[k - 1]);
                            }
                        }
                    }
                },
                _ => {
                    proof {
                        assert(all.take(slen)[slen - 1] == all[slen - 1]);
                        assert(false);
                    }
                },
            }
        }
        proof {
            assert(out@.len() == all.len());
        }
        out
    }
}

/// A valid completion record for `n` requests: one pair per request,
/// every index in range and no index twice.
pub open spec fn spec_valid_completions(c: Seq<(usize, FetchOutcome)>, n: int) -> bool {
    c.len() == n && (forall|k: int| 0 <= k < c.len() ==> (#[trigger] c[k]).0 < n) && (forall|
        k1: int,
        k2: int,
    |
        0 <= k1 < k2 < c.len() ==> (#[trigger] c[k1]).0 != (#[trigger] c[k2]).0)
}

/// Every submission position got the outcome the driver reported for
/// it: position `i` of `out` holds the outcome of the completion pair
/// whose index is `i`.
pub open spec fn spec_reported_at(
    c: Seq<(usize, FetchOutcome)>,
    out: Seq<FetchOutcome>,
    i: int,
) -> bool {
    exists|k: int| 0 <= k < c.len() && (#[trigger] c[k]).0 == i && c[k].1 == out[i]
}

pub open spec fn spec_outcomes_reported(
    c: Seq<(usize, FetchOutcome)>,
    out: Seq<FetchOutcome>,
    n: int,
) -> bool {
    forall|i: int| 0 <= i < n ==> #[trigger] spec_reported_at(c, out, i)
}

/// Runs the collector over a complete set of completions, in whatever
/// order they arrived, and returns the outcomes in submission order:
/// the outcome at position `i` is exactly the one the driver reported
/// for index `i`.  A completion set that repeats or misses an index is
/// refused whole.
pub fn collect_outcomes(n: usize, completions: Vec<(usize, FetchOutcome)>) -> (r: Option<
    Vec<FetchOutcome>,
>)
    ensures
        r is Some <==> spec_valid_completions(completions@, n as int),
        r matches Some(out) ==> out@.len() == n && (forall|k: int|
            0 <= k < completions@.len() ==> out@[(#[trigger] completions@[k]).0 as int]
                == completions@[k].1) && spec_outcomes_reported(completions@, out@, n as int),
{
    let ghost orig = completions@;
    if completions.len() != n {
        return None;
    }
    let mut pending = completions;
    let mut dispatcher = Dispatcher::new(n);
    while pending.len() > 0
        invariant
            orig == completions@,
            dispatcher.spec_wf(),
            dispatcher.spec_slots().len() == n,
            pending@ == orig.take(pending@.len() as int),
            pending@.len() <= orig.len(),
            orig.len() == n,
            spec_count_some(dispatcher.spec_slots()) == orig.len() - pending@.len(),
            forall|j: int|
                pending@.len() <= j < orig.len() ==> (#[trigger] orig[j]).0 < n
                    && dispatcher.spec_slots()[orig[j].0 as int] == Some(orig[j].1),
            forall|idx: int|
                0 <= idx < n ==> ((#[trigger] dispatcher.spec_slots()[idx]) is Some <==> exists|
                    j: int,
                |
                    pending@.len() <= j < orig.len() && (#[trigger] orig[j]).0 == idx),
            forall|j1: int, j2: int|
                pending@.len() <= j1 < j2 < orig.len() ==> (#[trigger] orig[j1]).0 != (
                #[trigger] orig[j2]).0,
        decreases pending.len(),
    {
        let ghost plen = pending@.len() as int;
        let popped = pending.pop();
        let (index, outcome) = match popped {
            Some(p) => p,
            None => {
                proof {
                    assert(false);
                }
                return None;
            },
        };
        proof {
            assert(orig.take(plen).last() == orig[plen - 1]);
            assert(pending@ =~= orig.take(plen - 1));
            assert((index, outcome) == orig[plen - 1]);
        }
        if index >= n {
            proof {
                if spec_valid_completions(orig, n as int) {
                    assert(orig[plen - 1].0 < n);
                    assert(false);
                }
            }
            return None;
        }
        if dispatcher.slot_filled(index) {
            proof {
                let j = choose|j: int|
                    plen <= j < orig.len() && (#[trigger] orig[j]).0 == index as int;
                assert(orig[plen - 1].0 == orig[j].0);
                assert(plen - 1 < j);
                if spec_valid_completions(orig, n as int) {
                    assert(orig[plen - 1].0 != orig[j].0);
                    assert(false);
                }
            }
            return None;
        }
        let ghost old_slots = dispatcher.spec_slots();
        dispatcher.record(index, outcome);
        proof {
            assert forall|idx: int|
                0 <= idx < n implies ((#[trigger] dispatcher.spec_slots()[idx]) is Some <==> exists|
                j: int,
            |
                pending@.len() <= j < orig.len() && (#[trigger] orig[j]).0 == idx) by {
                if idx == index as int {
                    assert(orig[plen - 1].0 == idx);
                    assert(pending@.len() <= plen - 1 < orig.len());
                } else {
                    assert(dispatcher.spec_slots()[idx] == old_slots[idx]);
                    if exists|j: int|
                        pending@.len() <= j < orig.len() && (#[trigger] orig[j]).0 == idx {
                        let j = choose|j: int|
                            pending@.len() <= j < orig.len() && (#[trigger] orig[j]).0 == idx;
                        assert(j != plen - 1);
                        assert(plen <= j < orig.len());
                    }
                }
            }
            assert forall|j1: int, j2: int|
                pending@.len() <= j1 < j2 < orig.len() implies (#[trigger] orig[j1]).0 != (
            #[trigger] orig[j2]).0 by {
                if j1 == plen - 1 {
                    assert(old_slots[orig[j2].0 as int] == Some(orig[j2].1));
                }
            }
        }
    }
    proof {
        assert(pending@.len() == 0);
        assert(spec_count_some(dispatcher.spec_slots()) == n);
        lemma_count_some_full(dispatcher.spec_slots());
        assert(spec_valid_completions(orig, n as int));
    }
    let ghost final_slots = dispatcher.spec_slots();
    let out = dispatcher.into_outcomes();
    proof {
        assert forall|k: int|
            0 <= k < orig.len() implies out@[(#[trigger] orig[k]).0 as int] == orig[k].1 by {
            assert(final_slots[orig[k].0 as int] == Some(orig[k].1));
            assert(final_slots[orig[k].0 as int] == Some(out@[orig[k].0 as int]));
        }
        assert forall|i: int|
            0 <= i < n as int implies #[trigger] spec_reported_at(completions@, out@, i) by {
            assert(final_slots[i] is Some);
            let j = choose|j: int|
                pending@.len() <= j < orig.len() && (#[trigger] orig[j]).0 == i;
            assert(0 <= j < orig.len());
            assert(final_slots[orig[j].0 as int] == Some(orig[j].1));
            assert(final_slots[i] == Some(out@[i]));
            assert(orig[j].1 == out@[i]);
            assert(completions@[j].0 == i && completions@[j].1 == out@[i]);
        }
        assert(spec_outcomes_reported(completions@, out@, n as int));
    }
    Some(out)
}

/// Order preservation: two runs that were handed the same completions,
/// in whatever two orders, return the same outcome sequence; the
/// outcome at position `i` always belongs to the request submitted at
/// position `i`.  The requirements are exactly what `collect_outcomes`
/// ensures about each run.
pub proof fn lemma_order_preservation(
    c1: Seq<(usize, FetchOutcome)>,
    c2: Seq<(usize, FetchOutcome)>,
    out1: Seq<FetchOutcome>,
    out2: Seq<FetchOutcome>,
    n: int,
)
    requires
        out1.len() == n,
        out2.len() == n,
        spec_outcomes_reported(c1, out1, n),
        forall|k: int| 0 <= k < c2.len() ==> out2[(#[trigger] c2[k]).0 as int] == c2[k].1,
        forall|k: int| 0 <= k < c1.len() ==> c2.contains(#[trigger] c1[k]),
    ensures
        out1 == out2,
{
    assert forall|i: int| 0 <= i < n implies out1[i] == out2[i] by {
        assert(spec_reported_at(c1, out1, i));
        let k = choose|k: int| 0 <= k < c1.len() && (#[trigger] c1[k]).0 == i && c1[k].1 == out1[i];
        assert(c2.contains(c1[k]));
        let k2 = choose|k2: int| 0 <= k2 < c2.len() && c2[k2] == c1[k];
        assert(out2[c2[k2].0 as int] == c2[k2].1);
    }
    assert(out1 =~= out2);
}

/// The rows of the successful outcomes, concatenated in submission
/// order; failed sub-ranges contribute nothing and abort nothing.
pub open spec fn spec_gathered(outs: Seq<FetchOutcome>) -> Seq<Row>
    decreases outs.len(),
{
    if outs.len() == 0 {
        Seq::empty()
    } else {
        (match outs[0] {
            FetchOutcome::Fetched(rows) => rows@,
            FetchOutcome::Failed(_) => Seq::empty(),
        }) + spec_gathered(outs.drop_first())
    }
}

/// Folds the ordered outcomes into one chronological row buffer, as
/// the aggregation step does while it advances the progress counter.
pub fn gather_rows(outcomes: Vec<FetchOutcome>) -> (r: Vec<Row>)
    ensures
        r@ == spec_gathered(outcomes@),
{
    let ghost orig = outcomes@;
    let mut remaining = outcomes;
    let mut out: Vec<Row> = Vec::new();
    while remaining.len() > 0
        invariant
            spec_gathered(orig) == out@ + spec_gathered(remaining@),
        decreases remaining.len(),
    {
        let ghost before = remaining@;
        let head = remaining.remove(0);
        proof {
            assert(remaining@ =~= before.drop_first());
            assert(head == before[0]);
        }
        match head {
            FetchOutcome::Fetched(rows) => {
                let mut rows = rows;
                out.append(&mut rows);
            },
            FetchOutcome::Failed(_) => {},
        }
    }
    proof {
        assert(remaining@ =~= Seq::<FetchOutcome>::empty());
        assert(out@ =~= spec_gathered(orig));
    }
    out
}

} // verus!
