use vstd::prelude::*;

use crate::elapsed::{Elapsed, MAX_NANOS};
use crate::rate::Rate;

verus! {

/// What came of one attempt to move a buffer over a connection.
#[derive(Clone, Copy, Debug)]
pub enum Outcome {
    /// The whole buffer was moved, in the time given.
    Moved(Elapsed),
    /// The buffer was moved but the clock could not say how long it took.
    ClockFailed,
    /// The connection failed or was closed.
    LinkFailed,
}

impl Outcome {
    /// Whether the buffer was moved.
    pub fn is_moved(&self) -> (r: bool)
        ensures
            r == self is Moved,
    {
        match self {
            Outcome::Moved(_) => true,
            _ => false,
        }
    }
}

/// A meter's reading as plain numbers: bytes, then nanoseconds.
pub type Tally = (int, int);

/// The reading after one attempt of `size` bytes.
pub open spec fn tally_after(t: Tally, size: int, outcome: Outcome) -> Tally {
    match outcome {
        Outcome::Moved(e) => (t.0 + size, t.1 + e@),
        _ => t,
    }
}

/// The reading after a whole run of attempts, starting from nothing.
pub open spec fn tally_run(size: int, outcomes: Seq<Outcome>) -> Tally
    decreases outcomes.len(),
{
    if outcomes.len() == 0 {
        (0, 0)
    } else {
        tally_after(tally_run(size, outcomes.drop_last()), size, outcomes.last())
    }
}

/// How many attempts of a run moved their buffer.
pub open spec fn moved_count(outcomes: Seq<Outcome>) -> int
    decreases outcomes.len(),
{
    if outcomes.len() == 0 {
        0
    } else {
        moved_count(outcomes.drop_last()) + if outcomes.last() is Moved {
            1int
        } else {
            0int
        }
    }
}

/// The time taken by the attempts of a run that moved their buffer.
pub open spec fn moved_nanos(outcomes: Seq<Outcome>) -> int
    decreases outcomes.len(),
{
    if outcomes.len() == 0 {
        0
    } else {
        moved_nanos(outcomes.drop_last()) + match outcomes.last() {
            Outcome::Moved(e) => e@ as int,
            _ => 0int,
        }
    }
}

/// The bytes and time counted on one connection.
#[derive(Debug)]
pub struct Meter {
    pub bytes: u64,
    pub elapsed: Elapsed,
}

impl Meter {
    /// The reading of the meter as plain numbers.
    pub open spec fn tally(&self) -> Tally {
        (self.bytes as int, self.elapsed@ as int)
    }

    /// Whether one more attempt of `size` bytes can be counted without the
    /// byte count or the time leaving their range.
    pub open spec fn can_count(&self, size: usize, outcome: Outcome) -> bool {
        outcome matches Outcome::Moved(e) ==> {
            &&& self.bytes + size <= u64::MAX
            &&& self.elapsed@ + e@ <= MAX_NANOS
        }
    }

    /// A meter that has counted nothing.
    pub fn new() -> (m: Meter)
        ensures
            m.tally() == (0int, 0int),
    {
        Meter { bytes: 0, elapsed: Elapsed::zero() }
    }

    /// Whether one more attempt can be counted (see [`Meter::can_count`]).
    pub fn fits(&self, size: usize, outcome: Outcome) -> (r: bool)
        ensures
            r == self.can_count(size, outcome),
            r == (outcome matches Outcome::Moved(e) ==> {
                &&& self.bytes + size <= u64::MAX
                &&& self.elapsed@ + e@ <= (u64::MAX as int) * 1_000_000_000 + 999_999_999
            }),
    {
        match outcome {
            Outcome::Moved(e) => {
                let room = u64::MAX - self.bytes;
                (size as u64) <= room && self.elapsed.checked_add(&e).is_some()
            },
            _ => true,
        }
    }

    /// Counts one attempt of `size` bytes: a moved buffer adds its size and
    /// its time, anything else adds nothing.
    pub fn count(&mut self, size: usize, outcome: Outcome)
        requires
            old(self).can_count(size, outcome),
        ensures
            final(self).tally() == tally_after(old(self).tally(), size as int, outcome),
    {
        if let Outcome::Moved(e) = outcome {
            self.bytes = self.bytes + size as u64;
            self.elapsed = self.elapsed.add(&e);
        }
    }

    /// One step on the receiving side: counts the attempt, and goes on
    /// exactly while buffers keep arriving.
    pub fn record_received(&mut self, size: usize, outcome: Outcome) -> (go_on: bool)
        requires
            old(self).can_count(size, outcome),
        ensures
            final(self).tally() == tally_after(old(self).tally(), size as int, outcome),
            go_on == outcome is Moved,
    {
        self.count(size, outcome);
        outcome.is_moved()
    }

    /// One step on the sending side: counts the attempt, and goes on while
    /// buffers keep leaving and the time counted is not beyond `limit`.
    pub fn record_sent(&mut self, size: usize, limit: &Elapsed, outcome: Outcome) -> (go_on: bool)
        requires
            old(self).can_count(size, outcome),
        ensures
            final(self).tally() == tally_after(old(self).tally(), size as int, outcome),
            go_on == (outcome is Moved && final(self).elapsed@ <= limit@),
    {
        self.count(size, outcome);
        outcome.is_moved() && !self.elapsed.is_longer_than(limit)
    }

    /// The measurement of a single stream between `local` and `peer`.
    pub fn into_rate(self, local: String, peer: String) -> (r: Rate)
        ensures
            r.local == local,
            r.peer == peer,
            r.bytes == self.bytes,
            r.elapsed == self.elapsed,
            r.threads == 1,
    {
        Rate { local, peer, bytes: self.bytes, elapsed: self.elapsed, threads: 1 }
    }
}

/// Over any run of attempts, a meter that started from nothing holds the
/// buffer size times the number of buffers moved, and the sum of the times
/// those buffers took.
pub proof fn lemma_meter_counts_moved_buffers(size: nat, outcomes: Seq<Outcome>)
    ensures
        tally_run(size as int, outcomes) == (size * moved_count(outcomes), moved_nanos(outcomes)),
    decreases outcomes.len(),
{
    if outcomes.len() > 0 {
        let prefix = outcomes.drop_last();
        lemma_meter_counts_moved_buffers(size, prefix);
        let n = moved_count(prefix);
        assert(size * (n + 1) == size * n + size) by (nonlinear_arith);
    }
}

/// The reading of an interval meter as plain numbers: total bytes, total
/// nanoseconds, bytes of the open interval, and the time at which the last
/// interval closed.
pub type IntervalTally = (int, int, int, int);

/// An interval that was reported: its bytes and its length in nanoseconds.
pub type Report = (int, int);

/// The interval reading after one attempt of `size` bytes, and the interval
/// it reports, if any: an interval closes once the time since the last one
/// closed is longer than `interval`.
pub open spec fn interval_after(
    t: IntervalTally,
    size: int,
    interval: int,
    outcome: Outcome,
) -> (IntervalTally, Option<Report>) {
    match outcome {
        Outcome::Moved(e) => {
            let bytes = t.0 + size;
            let nanos = t.1 + e@;
            let open = t.2 + size;
            if nanos - t.3 > interval {
                ((bytes, nanos, 0, nanos), Some((open, nanos - t.3)))
            } else {
                ((bytes, nanos, open, t.3), None)
            }
        },
        _ => (t, None),
    }
}

/// An interval reading after a whole run of attempts from nothing, with the
/// bytes and the time of all intervals it reported.
pub open spec fn interval_run(size: int, interval: int, outcomes: Seq<Outcome>) -> (
    IntervalTally,
    Report,
)
    decreases outcomes.len(),
{
    if outcomes.len() == 0 {
        ((0, 0, 0, 0), (0, 0))
    } else {
        let (t, reported) = interval_run(size, interval, outcomes.drop_last());
        let (next, report) = interval_after(t, size, interval, outcomes.last());
        match report {
            Some(r) => (next, (reported.0 + r.0, reported.1 + r.1)),
            None => (next, reported),
        }
    }
}

/// The bytes and time counted on one connection, with the interval that is
/// open: bytes counted since the last report, and the time of that report.
/// The open interval always lies within the totals.
#[derive(Debug)]
pub struct IntervalMeter {
    total: Meter,
    interval_bytes: u64,
    previous: Elapsed,
}

/// What a report says as plain numbers.
pub open spec fn report_of(r: Option<Rate>) -> Option<Report> {
    match r {
        Some(rate) => Some((rate.bytes as int, rate.elapsed@ as int)),
        None => None,
    }
}

impl IntervalMeter {
    #[verifier::type_invariant]
    spec fn open_interval_within_totals(self) -> bool {
        &&& self.interval_bytes <= self.total.bytes
        &&& self.previous@ <= self.total.elapsed@
    }

    /// The reading of the meter as plain numbers.
    pub closed spec fn tally(&self) -> IntervalTally {
        (
            self.total.bytes as int,
            self.total.elapsed@ as int,
            self.interval_bytes as int,
            self.previous@ as int,
        )
    }

    /// Whether one more attempt of `size` bytes can be counted without the
    /// byte count or the time leaving their range.
    pub open spec fn can_count(&self, size: usize, outcome: Outcome) -> bool {
        outcome matches Outcome::Moved(e) ==> {
            &&& self.tally().0 + size <= u64::MAX
            &&& self.tally().1 + e@ <= MAX_NANOS
        }
    }

    /// A meter that has counted nothing.
    pub fn new() -> (m: IntervalMeter)
        ensures
            m.tally() == (0int, 0int, 0int, 0int),
    {
        IntervalMeter { total: Meter::new(), interval_bytes: 0, previous: Elapsed::zero() }
    }

    /// The bytes counted in all.
    pub fn total_bytes(&self) -> (r: u64)
        ensures
            r == self.tally().0,
    {
        self.total.bytes
    }

    /// The time counted in all.
    pub fn total_elapsed(&self) -> (r: Elapsed)
        ensures
            r@ == self.tally().1,
    {
        self.total.elapsed
    }

    /// The bytes counted since the last report.
    pub fn interval_bytes(&self) -> (r: u64)
        ensures
            r == self.tally().2,
    {
        self.interval_bytes
    }

    /// The time counted up to the last report.
    pub fn previous(&self) -> (r: Elapsed)
        ensures
            r@ == self.tally().3,
    {
        self.previous
    }

    /// Whether one more attempt can be counted (see
    /// [`IntervalMeter::can_count`]).
    pub fn fits(&self, size: usize, outcome: Outcome) -> (r: bool)
        ensures
            r == self.can_count(size, outcome),
            r == (outcome matches Outcome::Moved(e) ==> {
                &&& self.tally().0 + size <= u64::MAX
                &&& self.tally().1 + e@ <= (u64::MAX as int) * 1_000_000_000 + 999_999_999
            }),
    {
        self.total.fits(size, outcome)
    }

    /// One step on the sending side with interval reports: counts the
    /// attempt; reports the open interval, between `local` and `peer`, once
    /// the time since the last report is longer than `interval`; and goes on
    /// while buffers keep leaving and the time counted is not beyond `limit`.
    pub fn record_sent(
        &mut self,
        size: usize,
        interval: &Elapsed,
        limit: &Elapsed,
        outcome: Outcome,
        local: &String,
        peer: &String,
    ) -> (res: (bool, Option<Rate>))
        requires
            old(self).can_count(size, outcome),
        ensures
            final(self).tally() == interval_after(
                old(self).tally(),
                size as int,
                interval@ as int,
                outcome,
            ).0,
            report_of(res.1) == interval_after(
                old(self).tally(),
                size as int,
                interval@ as int,
                outcome,
            ).1,
            res.1 matches Some(r) ==> r.local@ == local@ && r.peer@ == peer@ && r.threads == 1,
            res.0 == (outcome is Moved && final(self).tally().1 <= limit@),
    {
        proof {
            use_type_invariant(&*self);
        }
        let mut report: Option<Rate> = None;
        if let Outcome::Moved(_) = outcome {
            let mut total = Meter { bytes: self.total.bytes, elapsed: self.total.elapsed };
            total.count(size, outcome);
            self.total = total;
            self.interval_bytes = self.interval_bytes + size as u64;
            let since = self.total.elapsed.sub(&self.previous);
            if since.is_longer_than(interval) {
                report = Some(
                    Rate {
                        local: local.clone(),
                        peer: peer.clone(),
                        bytes: self.interval_bytes,
                        elapsed: since,
                        threads: 1,
                    },
                );
                self.interval_bytes = 0;
                self.previous = self.total.elapsed;
            }
        }
        let go_on = outcome.is_moved() && !self.total.elapsed.is_longer_than(limit);
        (go_on, report)
    }

    /// The measurement of the whole stream between `local` and `peer`.
    pub fn into_rate(self, local: String, peer: String) -> (r: Rate)
        ensures
            r.local == local,
            r.peer == peer,
            r.bytes == self.tally().0,
            r.elapsed@ == self.tally().1,
            r.threads == 1,
    {
        self.total.into_rate(local, peer)
    }
}

/// Over any run of attempts from nothing, the bytes of all reported
/// intervals and of the open one add up to the total, and the reported
/// intervals together last exactly until the last report.
pub proof fn lemma_intervals_cover_total(size: nat, interval: nat, outcomes: Seq<Outcome>)
    ensures
        ({
            let (t, reported) = interval_run(size as int, interval as int, outcomes);
            &&& reported.0 + t.2 == t.0
            &&& reported.1 == t.3
            &&& 0 <= t.3 <= t.1
            &&& 0 <= t.2 <= t.0
        }),
    decreases outcomes.len(),
{
    if outcomes.len() > 0 {
        lemma_intervals_cover_total(size, interval, outcomes.drop_last());
    }
}


/// A meter refuses an attempt only where counting it would overflow: the
/// byte count past `u64::MAX`, or the time past `u64::MAX` seconds and
/// 999_999_999 nanoseconds. Anything but a moved buffer is always counted.
pub proof fn lemma_meter_refuses_only_overflow(m: Meter, size: usize, outcome: Outcome)
    ensures
        m.can_count(size, outcome) <==> (outcome matches Outcome::Moved(e) ==> {
            &&& m.bytes + size <= u64::MAX
            &&& m.elapsed@ + e@ <= (u64::MAX as int) * 1_000_000_000 + 999_999_999
        }),
{
}

/// An interval meter, likewise, refuses an attempt only where counting it
/// would overflow its totals.
pub proof fn lemma_interval_meter_refuses_only_overflow(m: IntervalMeter, size: usize, outcome: Outcome)
    ensures
        m.can_count(size, outcome) <==> (outcome matches Outcome::Moved(e) ==> {
            &&& m.tally().0 + size <= u64::MAX
            &&& m.tally().1 + e@ <= (u64::MAX as int) * 1_000_000_000 + 999_999_999
        }),
{
}

/// One step of an interval meter: a moved buffer adds its size and time to
/// the totals and to the open interval; a report comes exactly when the time
/// since the last report (the totals' time after the step, less the time of
/// the last report) is longer than `interval`, whatever came before; it
/// carries the open interval's bytes and that time, and starts a new
/// interval at the current total. Anything but a moved buffer changes
/// nothing and reports nothing.
pub proof fn lemma_interval_step(t: IntervalTally, size: nat, interval: nat, outcome: Outcome)
    ensures
        ({
            let (next, report) = interval_after(t, size as int, interval as int, outcome);
            match outcome {
                Outcome::Moved(e) => {
                    &&& next.0 == t.0 + size
                    &&& next.1 == t.1 + e@
                    &&& (report is Some <==> t.1 + e@ - t.3 > interval)
                    &&& report is Some ==> {
                        &&& report == Some((t.2 + size, t.1 + e@ - t.3))
                        &&& next.2 == 0
                        &&& next.3 == t.1 + e@
                    }
                    &&& report is None ==> next.2 == t.2 + size && next.3 == t.3
                },
                _ => next == t && report is None,
            }
        }),
{
}

/// However many intervals were reported before, the open interval never
/// lasts longer than `interval`: a step that makes it longer reports it and
/// starts a new one. So a stream keeps reporting once per interval for as
/// long as it sends.
pub proof fn lemma_no_overdue_interval(size: nat, interval: nat, outcomes: Seq<Outcome>)
    ensures
        ({
            let (t, reported) = interval_run(size as int, interval as int, outcomes);
            t.1 - t.3 <= interval
        }),
    decreases outcomes.len(),
{
    if outcomes.len() > 0 {
        lemma_no_overdue_interval(size, interval, outcomes.drop_last());
    }
}

} // verus!
