//! The clock.
use std::time::{Duration, SystemTime};

use vstd::prelude::*;

verus! {

/// A point in time.
#[verifier::external_type_specification]
#[verifier::external_body]
pub struct ExSystemTime(SystemTime);

/// `SystemTime::now`: the current time, of which nothing is claimed.
#[verifier::external_body]
fn system_now() -> (r: SystemTime) {
    SystemTime::now()
}

/// `SystemTime::duration_since` the Unix epoch: `None` where the clock stands before it. Nothing is
/// claimed of the span: it depends on the machine's clock.
#[verifier::external_body]
fn since_epoch(t: SystemTime) -> (r: Option<Duration>) {
    t.duration_since(SystemTime::UNIX_EPOCH).ok()
}

/// `Duration::as_millis`: the whole milliseconds of a span. Nothing is claimed of them: the span
/// itself is opaque.
#[verifier::external_body]
fn millis(d: &Duration) -> (r: u128) {
    d.as_millis()
}

/// `Duration::as_secs`: the whole seconds of a span. Nothing is claimed of them: the span itself is
/// opaque.
#[verifier::external_body]
fn whole_secs(d: &Duration) -> (r: u64) {
    d.as_secs()
}

/// The timestamp for a number of milliseconds since the Unix epoch: its low 64 bits, and 0 for a
/// clock that stands before the epoch.
pub open spec fn timestamp_of(millis: Option<u128>) -> u64 {
    match millis {
        Some(ms) => (ms % 0x1_0000_0000_0000_0000) as u64,
        None => 0,
    }
}

/// The timestamp for a number of milliseconds since the Unix epoch.
pub fn timestamp(millis: Option<u128>) -> (r: u64)
    ensures
        r == timestamp_of(millis),
{
    match millis {
        Some(ms) => (ms % 0x1_0000_0000_0000_0000) as u64,
        None => 0,
    }
}

/// Asks for something that depends on nothing given.
fn ask<T, F: Fn() -> T>(question: F) -> (r: T)
    requires
        call_requires(question, ()),
    ensures
        call_ensures(question, (), r),
{
    question()
}

/// Asks for something that depends on what is given.
fn ask_of<S, T, F: Fn(S) -> T>(question: F, of: S) -> (r: T)
    requires
        call_requires(question, (of,)),
    ensures
        call_ensures(question, (of,), r),
{
    question(of)
}

/// Asks for something of a span.
fn ask_span<T, F: Fn(&Duration) -> T>(question: F, span: &Duration) -> (r: T)
    requires
        call_requires(question, (span,)),
    ensures
        call_ensures(question, (span,), r),
{
    question(span)
}

/// The clock may show this span since the Unix epoch, or that it stands before it.
spec fn shows_span(span: Option<Duration>) -> bool {
    exists|t: SystemTime|
        call_ensures(system_now, (), t) && #[trigger] call_ensures(since_epoch, (t,), span)
}

/// The span may have this many whole milliseconds.
spec fn span_millis(span: Duration, n: u128) -> bool {
    call_ensures(millis, (&span,), n)
}

/// The span may have this many whole seconds.
spec fn span_secs(span: Duration, n: u64) -> bool {
    call_ensures(whole_secs, (&span,), n)
}

/// The clock may show a span with this many whole milliseconds.
spec fn may_have_millis(n: u128) -> bool {
    exists|d: Duration| shows_span(Some(d)) && #[trigger] span_millis(d, n)
}

/// The clock may show a span with this many whole seconds.
spec fn may_have_secs(n: u64) -> bool {
    exists|d: Duration| shows_span(Some(d)) && #[trigger] span_secs(d, n)
}

/// The clock may show this many milliseconds since the Unix epoch, or that it stands before it.
pub closed spec fn shows_millis(ms: Option<u128>) -> bool {
    match ms {
        Some(n) => may_have_millis(n),
        None => shows_span(None),
    }
}

/// The clock may show this many whole seconds since the Unix epoch, or that it stands before it.
pub closed spec fn shows_secs(secs: Option<u64>) -> bool {
    match secs {
        Some(n) => may_have_secs(n),
        None => shows_span(None),
    }
}

/// What the clock shows.
fn clock_span() -> (r: Option<Duration>)
    ensures
        shows_span(r),
{
    let t = ask(system_now);
    ask_of(since_epoch, t)
}

/// Milliseconds since the Unix epoch; 0 where the clock stands before it.
pub fn now_ms() -> (r: u64)
    ensures
        exists|ms: Option<u128>| r == #[trigger] timestamp_of(ms) && shows_millis(ms),
{
    let ms = match clock_span() {
        Some(d) => {
            let n: u128 = ask_span(millis, &d);
            assert(span_millis(d, n));
            assert(may_have_millis(n));
            assert(shows_millis(Some(n)));
            Some(n)
        },
        None => None,
    };
    timestamp(ms)
}

/// The seconds for a span since the Unix epoch: 0 for a clock that stands before the epoch.
pub fn seconds(span: Option<u64>) -> (r: u64)
    ensures
        r == (match span {
            Some(secs) => secs,
            None => 0,
        }),
{
    match span {
        Some(secs) => secs,
        None => 0,
    }
}

/// Whole seconds since the Unix epoch; 0 where the clock stands before it. Nothing more is claimed of
/// the number: every one may be what the machine's clock shows.
pub(crate) fn now_secs() -> (r: u64)
    ensures
        shows_secs(Some(r)) || r == 0 && shows_secs(None),
{
    let span = match clock_span() {
        Some(d) => {
            let n: u64 = ask_span(whole_secs, &d);
            assert(span_secs(d, n));
            assert(may_have_secs(n));
            assert(shows_secs(Some(n)));
            Some(n)
        },
        None => None,
    };
    seconds(span)
}

/// A timestamp is the number of milliseconds itself, as far as 64 bits reach.
pub proof fn lemma_timestamps(ms: u128)
    ensures
        ms < 0x1_0000_0000_0000_0000 ==> timestamp_of(Some(ms)) == ms,
        timestamp_of(None) == 0,
{
}

} // verus!
