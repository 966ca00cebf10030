//! Progress of a download, reported at most once per interval.
use vstd::prelude::*;

verus! {

/// Counts the bytes of a download as they come, and decides when to report
/// progress: only when the total size is known, and no sooner than `gap`
/// after the last report. Times are instants of a monotonic clock, in
/// nanoseconds from any fixed origin.
#[derive(Clone, Copy, Debug, PartialEq, Eq, Structural)]
pub struct ProgressReporter {
    /// Bytes received so far.
    pub count: u64,
    /// The size of the whole download, when known.
    pub total: Option<u64>,
    /// When progress was last reported (or the download started).
    pub last_reported: u64,
    /// The least time between two reports.
    pub gap: u64,
}

/// The time from `earlier` to `later`, or zero when `later` comes first.
pub open spec fn elapsed(earlier: u64, later: u64) -> int {
    if later >= earlier {
        later - earlier
    } else {
        0
    }
}

impl ProgressReporter {
    /// A download of `total` bytes (when known) that starts at `now`.
    pub fn new(total: Option<u64>, now: u64, gap: u64) -> (r: ProgressReporter)
        ensures
            r == (ProgressReporter { count: 0, total, last_reported: now, gap }),
    {
        ProgressReporter { count: 0, total, last_reported: now, gap }
    }

    /// Count `len` more bytes, received at `now`. Returns the progress to
    /// report, bytes so far and total, when the total is known and `gap` has
    /// passed since the last report; the report time is then `now`.
    pub fn on_chunk(&mut self, len: u64, now: u64) -> (r: Option<(u64, u64)>)
        requires
            old(self).count + len <= u64::MAX,
        ensures
            final(self).count == old(self).count + len,
            final(self).total == old(self).total,
            final(self).gap == old(self).gap,
            r == (match old(self).total {
                Some(total) if elapsed(old(self).last_reported, now) >= old(self).gap => Some(
                    (final(self).count, total),
                ),
                _ => None,
            }),
            r.is_some() ==> final(self).last_reported == now,
            r.is_none() ==> final(self).last_reported == old(self).last_reported,
    {
        self.count = self.count + len;
        match self.total {
            Some(total) => {
                let elapsed = if now >= self.last_reported {
                    now - self.last_reported
                } else {
                    0
                };
                if elapsed >= self.gap {
                    self.last_reported = now;
                    Some((self.count, total))
                } else {
                    None
                }
            },
            None => None,
        }
    }
}

/// Two reports are never closer than the gap: a report at `now` after a
/// report at `last` (with a clock that does not go back) comes at least
/// `gap` later.
pub proof fn law_reports_spaced(before: ProgressReporter, after: ProgressReporter, len: u64, now: u64, r: Option<(u64, u64)>)
    requires
        before.count + len <= u64::MAX,
        now >= before.last_reported,
        after.count == before.count + len,
        r == (match before.total {
            Some(total) if elapsed(before.last_reported, now) >= before.gap => Some((after.count, total)),
            _ => None,
        }),
    ensures
        r.is_some() ==> now - before.last_reported >= before.gap,
        before.total.is_none() ==> r.is_none(),
{
}

/// The progress of several downloads at once, reported as one: the bytes
/// received by all of them, and the sum of the sizes that they announced.
/// Progress is reported no sooner than `gap` after the last report, which
/// is taken to be at time zero before the first.
#[derive(Clone, Copy, Debug, PartialEq, Eq, Structural)]
pub struct SharedProgress {
    /// Bytes received so far, by all downloads.
    pub count: u64,
    /// The sum of the sizes announced so far.
    pub total: u64,
    /// When progress was last reported.
    pub last_reported: u64,
    /// The least time between two reports.
    pub gap: u64,
}

impl SharedProgress {
    /// No bytes received, no size announced, and no report yet.
    pub fn new(gap: u64) -> (r: SharedProgress)
        ensures
            r == (SharedProgress { count: 0, total: 0, last_reported: 0, gap }),
    {
        SharedProgress { count: 0, total: 0, last_reported: 0, gap }
    }

    /// A download announces that it has `len` bytes.
    pub fn add_total(&mut self, len: u64)
        requires
            old(self).total + len <= u64::MAX,
        ensures
            *final(self) == (SharedProgress { total: (old(self).total + len) as u64, ..*old(self) }),
    {
        self.total = self.total + len;
    }

    /// Count `len` more bytes, received by any of the downloads at `now`.
    /// Returns the progress to report, bytes so far and the sizes announced,
    /// when `gap` has passed since the last report; the report time is then
    /// `now`.
    pub fn on_chunk(&mut self, len: u64, now: u64) -> (r: Option<(u64, u64)>)
        requires
            old(self).count + len <= u64::MAX,
        ensures
            final(self).count == old(self).count + len,
            final(self).total == old(self).total,
            final(self).gap == old(self).gap,
            r == (if elapsed(old(self).last_reported, now) >= old(self).gap {
                Some((final(self).count, final(self).total))
            } else {
                None
            }),
            r.is_some() ==> final(self).last_reported == now,
            r.is_none() ==> final(self).last_reported == old(self).last_reported,
    {
        self.count = self.count + len;
        let elapsed = if now >= self.last_reported {
            now - self.last_reported
        } else {
            0
        };
        if elapsed >= self.gap {
            self.last_reported = now;
            Some((self.count, self.total))
        } else {
            None
        }
    }
}

} // verus!
