//! The `Date` header value, formatted once per wall-clock second.

use vstd::prelude::*;

verus! {

/// The last second the formatter accepts: 9999-12-31T23:59:59Z.
pub const MAX_DATE_SECONDS: i64 = 253402300799;

/// The HTTP date (`Thu, 22 Mar 2012 14:53:18 GMT`) of `secs` seconds after
/// the Unix epoch, as the `time` crate formats it.
pub uninterp spec fn http_date_of(secs: int) -> Seq<u8>;

/// Relies on `time::at_utc` and `time::Tm::rfc822`: the UTC calendar time of
/// `secs`, formatted as `%a, %d %b %Y %T GMT`. The text depends on `secs` alone.
#[verifier::external_body]
fn format_http_date(secs: i64) -> (r: Vec<u8>)
    requires
        0 <= secs <= MAX_DATE_SECONDS,
    ensures
        r@ == http_date_of(secs as int),
{
    let tm = time::at_utc(time::Timespec::new(secs, 0));
    format!("{}", tm.rfc822()).into_bytes()
}

/// Relies on `time::get_time`: the seconds part of the current wall-clock time.
/// Nothing is promised of the value.
#[verifier::external_body]
fn wall_clock_seconds() -> (r: i64) {
    time::get_time().sec
}

/// The cached text and the second it was made for.
pub struct DateCache {
    second: i64,
    text: Vec<u8>,
}

/// What the cache holds after it is asked for the date at second `now`: it is
/// refreshed when the second has changed and the formatter accepts `now`.
pub open spec fn date_step(second: int, text: Seq<u8>, now: int) -> (int, Seq<u8>) {
    if now != second && 0 <= now <= MAX_DATE_SECONDS {
        (now, http_date_of(now))
    } else {
        (second, text)
    }
}

impl DateCache {
    /// The second the cached text was made for.
    pub closed spec fn second(&self) -> int {
        self.second as int
    }

    /// The cached text.
    pub closed spec fn text(&self) -> Seq<u8> {
        self.text@
    }

    /// The text is the date of the second it was made for.
    pub open spec fn wf(&self) -> bool {
        0 <= self.second() <= MAX_DATE_SECONDS && self.text() == http_date_of(self.second())
    }

    /// A cache holding the date of second `now`.
    pub fn new(now: i64) -> (r: DateCache)
        requires
            0 <= now <= MAX_DATE_SECONDS,
        ensures
            r.wf(),
            r.second() == now,
    {
        DateCache { second: now, text: format_http_date(now) }
    }

    /// The date text for second `now`, formatted again only when the second
    /// has changed since the last call.
    pub fn at(&mut self, now: i64) -> (r: Vec<u8>)
        requires
            old(self).wf(),
        ensures
            final(self).wf(),
            (final(self).second(), final(self).text()) == date_step(
                old(self).second(),
                old(self).text(),
                now as int,
            ),
            r@ == final(self).text(),
    {
        if now != self.second && 0 <= now && now <= MAX_DATE_SECONDS {
            self.second = now;
            self.text = format_http_date(now);
        }
        self.text.clone()
    }

    /// The date text for the current second of the wall clock.
    pub fn current(&mut self) -> (r: Vec<u8>)
        requires
            old(self).wf(),
        ensures
            final(self).wf(),
            r@ == final(self).text(),
            exists|now: int| (final(self).second(), final(self).text()) == date_step(
                old(self).second(),
                old(self).text(),
                now,
            ),
    {
        let now = wall_clock_seconds();
        self.at(now)
    }
}

/// Two requests for the date within one second give the same text; across a
/// change of second the text is the formatter's for the new second.
pub proof fn lemma_date_freshness(second: int, text: Seq<u8>, t1: int, t2: int)
    requires
        0 <= second <= MAX_DATE_SECONDS,
        text == http_date_of(second),
        0 <= t1 <= MAX_DATE_SECONDS,
        0 <= t2 <= MAX_DATE_SECONDS,
    ensures
        ({
            let first = date_step(second, text, t1);
            let again = date_step(first.0, first.1, t2);
            &&& first.1 == http_date_of(t1)
            &&& t1 == t2 ==> again.1 == first.1
            &&& again.1 == http_date_of(t2)
        }),
{
}

} // verus!
