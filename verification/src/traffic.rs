//! Byte counts of network traffic per connection, over all time and over a
//! sliding window of recent samples.
//!
//! Times are instants of a monotonic clock, in nanoseconds from any fixed
//! origin; the caller reads the clock.
use vstd::prelude::*;

use std::collections::VecDeque;

use vstd::std_specs::convert::{FromSpec, FromSpecImpl};

verus! {

/// Which way a packet went, seen from this machine.
#[derive(Clone, Copy, Debug, PartialEq, Eq, Structural)]
pub enum PacketDirection {
    Down,
    Up,
}

/// How a packet between `src` and `dst` counts: traffic from a local
/// address to a global one goes up and counts for `dst`, traffic from a
/// global address to a local one goes down and counts for `src`; any other
/// packet does not count.
pub fn packet_direction<I: Copy>(src: I, dst: I, src_global: bool, dst_global: bool) -> (r: Option<
    (PacketDirection, I),
>)
    ensures
        r == (if !src_global && dst_global {
            Some((PacketDirection::Up, dst))
        } else if src_global && !dst_global {
            Some((PacketDirection::Down, src))
        } else {
            None
        }),
{
    match (src_global, dst_global) {
        (false, true) => Some((PacketDirection::Up, dst)),
        (true, false) => Some((PacketDirection::Down, src)),
        _ => None,
    }
}

/// Which way most of a connection's traffic goes.
#[derive(Clone, Copy, Debug, PartialEq, Eq, Structural)]
pub enum ConnectionDirection {
    Mixed,
    Up,
    Down,
}

impl Default for ConnectionDirection {
    /// Traffic both ways.
    fn default() -> (r: ConnectionDirection)
        ensures
            r == ConnectionDirection::Mixed,
    {
        ConnectionDirection::Mixed
    }
}

/// The sum of the byte counts of `samples`.
pub open spec fn bytes_sum(samples: Seq<(usize, u64)>) -> int
    decreases samples.len(),
{
    if samples.len() == 0 {
        0
    } else {
        samples[0].0 + bytes_sum(samples.drop_first())
    }
}

/// Adding a sample at the back adds its byte count.
pub proof fn lemma_bytes_sum_push(samples: Seq<(usize, u64)>, s: (usize, u64))
    ensures
        bytes_sum(samples.push(s)) == bytes_sum(samples) + s.0,
    decreases samples.len(),
{
    if samples.len() == 0 {
        assert(samples.push(s).drop_first() =~= Seq::<(usize, u64)>::empty());
        assert(bytes_sum(samples.push(s).drop_first()) == 0);
    } else {
        assert(samples.push(s).drop_first() =~= samples.drop_first().push(s));
        assert(samples.push(s)[0] == samples[0]);
        lemma_bytes_sum_push(samples.drop_first(), s);
    }
}

/// A byte count is no more than the sum it is part of.
pub proof fn lemma_bytes_sum_nonneg(samples: Seq<(usize, u64)>)
    ensures
        bytes_sum(samples) >= 0,
    decreases samples.len(),
{
    if samples.len() > 0 {
        lemma_bytes_sum_nonneg(samples.drop_first());
    }
}

/// The sample taken at `t` is older than `timeout` at `now` (a later
/// sample time than `now` counts as no time at all).
pub open spec fn expired(t: u64, now: u64, timeout: u64) -> bool {
    now > t && now - t > timeout
}

/// The samples of `samples` that a sweep at `now` keeps: the oldest ones
/// are dropped, from the front, for as long as they are expired.
pub open spec fn swept(samples: Seq<(usize, u64)>, now: u64, timeout: u64) -> Seq<(usize, u64)>
    decreases samples.len(),
{
    if samples.len() > 0 && expired(samples[0].1, now, timeout) {
        swept(samples.drop_first(), now, timeout)
    } else {
        samples
    }
}

/// The traffic of one direction of a connection: all bytes ever counted,
/// and the samples of the current window with their sum.
pub struct ThroughputTracker {
    /// The samples, oldest first: byte count and time.
    data: VecDeque<(usize, u64)>,
    /// All bytes ever counted.
    total_bytes: usize,
    /// The sum of the byte counts of `data`.
    current_window_sum: usize,
}

impl ThroughputTracker {
    /// The window sum is the sum of the samples, and no more than the total.
    pub closed spec fn wf(&self) -> bool {
        &&& self.current_window_sum == bytes_sum(self.data@)
        &&& self.current_window_sum <= self.total_bytes
    }

    /// The samples of the window, oldest first.
    pub closed spec fn samples(&self) -> Seq<(usize, u64)> {
        self.data@
    }

    /// All bytes ever counted.
    pub closed spec fn total(&self) -> nat {
        self.total_bytes as nat
    }

    /// All bytes ever counted.
    pub fn total_bytes(&self) -> (r: usize)
        ensures
            r == self.total(),
    {
        self.total_bytes
    }

    /// The total fits a `usize`.
    pub proof fn lemma_total_fits(&self)
        ensures
            self.total() <= usize::MAX,
    {
    }

    /// A tracker that has counted nothing.
    pub fn new() -> (r: ThroughputTracker)
        ensures
            r.wf(),
            r.samples() == Seq::<(usize, u64)>::empty(),
            r.total() == 0,
    {
        Self::with_total(0)
    }

    /// A tracker that has counted `total` bytes and has no recent sample.
    pub fn with_total(total: usize) -> (r: ThroughputTracker)
        ensures
            r.wf(),
            r.samples() == Seq::<(usize, u64)>::empty(),
            r.total() == total,
    {
        ThroughputTracker { data: VecDeque::new(), total_bytes: total, current_window_sum: 0 }
    }

    /// Count `bytes` bytes, seen at `now`.
    pub fn add_sample(&mut self, bytes: usize, now: u64)
        requires
            old(self).wf(),
            old(self).total() + bytes <= usize::MAX,
        ensures
            final(self).wf(),
            final(self).samples() == old(self).samples().push((bytes, now)),
            final(self).total() == old(self).total() + bytes,
    {
        proof {
            lemma_bytes_sum_push(self.data@, (bytes, now));
        }
        self.total_bytes = self.total_bytes + bytes;
        self.current_window_sum = self.current_window_sum + bytes;
        self.data.push_back((bytes, now));
    }

    /// Drop the samples that are too old at `now`, oldest first, and return
    /// all bytes ever counted and the bytes of the samples that remain.
    pub fn info(&mut self, now: u64, connection_timeout: u64) -> (r: (usize, usize))
        requires
            old(self).wf(),
        ensures
            final(self).wf(),
            final(self).samples() == swept(old(self).samples(), now, connection_timeout),
            final(self).total() == old(self).total(),
            r == (final(self).total() as usize, bytes_sum(final(self).samples()) as usize),
    {
        let ghost start = self.data@;
        loop
            invariant
                self.wf(),
                self.total() == old(self).total(),
                swept(self.data@, now, connection_timeout) == swept(start, now, connection_timeout),
                start == old(self).samples(),
            ensures
                self.wf(),
                self.total() == old(self).total(),
                self.data@ == swept(start, now, connection_timeout),
            decreases self.data@.len(),
        {
            if self.data.len() == 0 {
                break;
            }
            let (old_bytes, timestamp) = self.data[0];
            if now > timestamp && now - timestamp > connection_timeout {
                proof {
                    lemma_bytes_sum_nonneg(self.data@.drop_first());
                }
                self.current_window_sum = self.current_window_sum - old_bytes;
                let _ = self.data.pop_front();
            } else {
                break;
            }
        }
        (self.total_bytes, self.current_window_sum)
    }
}

/// The traffic of a connection that is still active, both ways.
pub struct ActiveConnectionTracker {
    pub up: ThroughputTracker,
    pub down: ThroughputTracker,
}

impl ActiveConnectionTracker {
    /// Both directions are well formed.
    pub open spec fn wf(&self) -> bool {
        self.up.wf() && self.down.wf()
    }

    /// A connection that has counted nothing.
    pub fn new() -> (r: ActiveConnectionTracker)
        ensures
            r.wf(),
            r.up.samples() == Seq::<(usize, u64)>::empty(),
            r.down.samples() == Seq::<(usize, u64)>::empty(),
            r.up.total() == 0,
            r.down.total() == 0,
    {
        ActiveConnectionTracker { up: ThroughputTracker::new(), down: ThroughputTracker::new() }
    }

    /// Count a packet of `len` bytes seen at `now`, in its direction.
    pub fn add_sample(&mut self, direction: PacketDirection, len: usize, now: u64)
        requires
            old(self).wf(),
            direction == PacketDirection::Up ==> old(self).up.total() + len <= usize::MAX,
            direction == PacketDirection::Down ==> old(self).down.total() + len <= usize::MAX,
        ensures
            final(self).wf(),
            direction == PacketDirection::Up ==> {
                &&& final(self).up.samples() == old(self).up.samples().push((len, now))
                &&& final(self).up.total() == old(self).up.total() + len
                &&& final(self).down == old(self).down
            },
            direction == PacketDirection::Down ==> {
                &&& final(self).down.samples() == old(self).down.samples().push((len, now))
                &&& final(self).down.total() == old(self).down.total() + len
                &&& final(self).up == old(self).up
            },
    {
        match direction {
            PacketDirection::Up => self.up.add_sample(len, now),
            PacketDirection::Down => self.down.add_sample(len, now),
        }
    }

    /// Drop the samples of both directions that are too old at `now`, and
    /// return for each direction, up first, all bytes ever counted and the
    /// bytes of the samples that remain.
    pub fn info(&mut self, now: u64, connection_timeout: u64) -> (r: ((usize, usize), (usize, usize)))
        requires
            old(self).wf(),
        ensures
            final(self).wf(),
            final(self).up.samples() == swept(old(self).up.samples(), now, connection_timeout),
            final(self).down.samples() == swept(old(self).down.samples(), now, connection_timeout),
            final(self).up.total() == old(self).up.total(),
            final(self).down.total() == old(self).down.total(),
            r.0 == (final(self).up.total() as usize, bytes_sum(final(self).up.samples()) as usize),
            r.1 == (final(self).down.total() as usize, bytes_sum(final(self).down.samples()) as usize),
    {
        let up = self.up.info(now, connection_timeout);
        let down = self.down.info(now, connection_timeout);
        (up, down)
    }

    /// A connection that comes back after being inactive: its totals carry
    /// on, its window starts empty.
    pub fn from_record(record: InactiveConnectionRecord) -> (r: ActiveConnectionTracker)
        ensures
            r.wf(),
            r.up.samples() == Seq::<(usize, u64)>::empty(),
            r.down.samples() == Seq::<(usize, u64)>::empty(),
            r.up.total() == record.up_total,
            r.down.total() == record.down_total,
    {
        ActiveConnectionTracker {
            up: ThroughputTracker::with_total(record.up_total),
            down: ThroughputTracker::with_total(record.down_total),
        }
    }
}

/// What is kept of a connection that is no longer active: its totals.
#[derive(Clone, Copy, Debug, PartialEq, Eq, Structural)]
pub struct InactiveConnectionRecord {
    pub up_total: usize,
    pub down_total: usize,
}

impl From<ActiveConnectionTracker> for InactiveConnectionRecord {
    fn from(value: ActiveConnectionTracker) -> (r: InactiveConnectionRecord) {
        InactiveConnectionRecord { up_total: value.up.total_bytes, down_total: value.down.total_bytes }
    }
}

impl FromSpecImpl<ActiveConnectionTracker> for InactiveConnectionRecord {
    open spec fn obeys_from_spec() -> bool {
        true
    }

    open spec fn from_spec(v: ActiveConnectionTracker) -> InactiveConnectionRecord {
        InactiveConnectionRecord { up_total: v.up.total() as usize, down_total: v.down.total() as usize }
    }
}

/// The samples are in time order, oldest first.
pub open spec fn time_ordered(samples: Seq<(usize, u64)>) -> bool {
    forall|i: int, j: int| 0 <= i <= j < samples.len() ==> (#[trigger] samples[i]).1 <= (#[trigger] samples[j]).1
}

/// A sweep keeps the most recent samples, in order: what it drops was
/// expired, and when the samples are in time order, none that it keeps is.
pub proof fn law_sweep_keeps_recent(samples: Seq<(usize, u64)>, now: u64, timeout: u64)
    ensures
        ({
            let kept = swept(samples, now, timeout);
            let dropped = samples.len() - kept.len();
            &&& kept.len() <= samples.len()
            &&& kept == samples.skip(dropped)
            &&& forall|i: int| 0 <= i < dropped ==> expired(#[trigger] samples[i].1, now, timeout)
            &&& time_ordered(samples) ==> forall|i: int| 0 <= i < kept.len() ==> !expired(#[trigger] kept[i].1, now, timeout)
        }),
    decreases samples.len(),
{
    if samples.len() > 0 && expired(samples[0].1, now, timeout) {
        let rest = samples.drop_first();
        law_sweep_keeps_recent(rest, now, timeout);
        let kept = swept(rest, now, timeout);
        let dropped = samples.len() - kept.len();
        assert(rest.skip(rest.len() - kept.len()) =~= samples.skip(dropped));
        assert forall|i: int| 0 <= i < dropped implies expired(#[trigger] samples[i].1, now, timeout) by {
            if i > 0 {
                assert(samples[i] == rest[i - 1]);
            }
        }
        if time_ordered(samples) {
            assert(time_ordered(rest)) by {
                assert forall|i: int, j: int| 0 <= i <= j < rest.len() implies (#[trigger] rest[i]).1 <= (
                #[trigger] rest[j]).1 by {
                    assert(rest[i] == samples[i + 1]);
                    assert(rest[j] == samples[j + 1]);
                }
            }
        }
    } else {
        assert(samples.skip(0) =~= samples);
        if time_ordered(samples) && samples.len() > 0 {
            assert forall|i: int| 0 <= i < samples.len() implies !expired(#[trigger] samples[i].1, now, timeout) by {
                assert(samples[0].1 <= samples[i].1);
            }
        }
    }
}

/// A connection put aside keeps its totals, and comes back with them.
pub proof fn law_record_keeps_totals(t: ActiveConnectionTracker, record: InactiveConnectionRecord, back: ActiveConnectionTracker)
    requires
        record == <InactiveConnectionRecord as FromSpec<ActiveConnectionTracker>>::from_spec(t),
        back.up.total() == record.up_total,
        back.down.total() == record.down_total,
    ensures
        back.up.total() == t.up.total(),
        back.down.total() == t.down.total(),
{
    t.up.lemma_total_fits();
    t.down.lemma_total_fits();
}

} // verus!
