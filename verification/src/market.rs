//! The two polymorphism boundaries of the library: a kline exposes its
//! open and close instants however its exchange lays records out, and an
//! endpoint turns one command into the ordered request URLs that cover
//! its time range.

use vstd::prelude::*;

verus! {

/// Trait for kline data.  Implementations expose the record's open and
/// close instants in milliseconds since the Unix epoch.
pub trait Kline {
    /// The open instant, in milliseconds.
    spec fn spec_open_time(&self) -> int;

    /// The close instant, in milliseconds.
    spec fn spec_close_time(&self) -> int;

    fn open_time(&self) -> (r: i64)
        ensures
            r as int == self.spec_open_time(),
    ;

    fn close_time(&self) -> (r: i64)
        ensures
            r as int == self.spec_close_time(),
    ;
}

/// The text of each string in a vector, in order.
pub open spec fn spec_url_views(v: Seq<String>) -> Seq<Seq<char>> {
    v.map_values(|s: String| s@)
}

/// Trait to compute urls.  One URL is produced per sub-range of the
/// command's time range; with an open-ended or missing range, a single
/// URL with the exchange's default window semantics.
pub trait Endpoint {
    /// When the request plan is well-defined: dates in order and far
    /// enough from the numeric limit for the splitter's arithmetic.
    spec fn spec_wf(&self) -> bool;

    /// The full text of every URL, in submission order.
    spec fn spec_urls(&self) -> Seq<Seq<char>>;

    fn urls(&self) -> (r: Vec<String>)
        requires
            self.spec_wf(),
        ensures
            spec_url_views(r@) == self.spec_urls(),
    ;
}

} // verus!
