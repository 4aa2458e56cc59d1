//! Rolling-window traffic statistics: arrivals inside a sliding window, and
//! all-time totals.

use vstd::prelude::*;
use std::collections::VecDeque;
use crate::clock::now_millis;
use crate::text::{decimal, decimal_spec, fixed, fixed_spec, joined};

verus! {

pub const KB: u64 = 1024;
pub const MB: u64 = 1024 * 1024;
pub const GB: u64 = 1024 * 1024 * 1024;

/// Whether an arrival at `t` lies in the window of `w` seconds ending at `now`
/// (the window's start included).
pub open spec fn in_window(t: i64, now: i64, w: u64) -> bool {
    t >= now - 1000 * w
}

/// How many leading arrivals of `ts` lie before the window.
pub open spec fn stale_prefix(ts: Seq<i64>, now: i64, w: u64) -> nat
    decreases ts.len(),
{
    if ts.len() == 0 || in_window(ts[0], now, w) {
        0
    } else {
        1 + stale_prefix(ts.drop_first(), now, w)
    }
}

/// Number of arrivals of `ts` inside the window.
pub open spec fn count_in_window(ts: Seq<i64>, now: i64, w: u64) -> nat
    decreases ts.len(),
{
    if ts.len() == 0 {
        0
    } else {
        count_in_window(ts.drop_last(), now, w) + if in_window(ts.last(), now, w) {
            1nat
        } else {
            0nat
        }
    }
}

/// Bytes of the arrivals inside the window.
pub open spec fn bytes_in_window(ts: Seq<i64>, sizes: Seq<usize>, now: i64, w: u64) -> nat
    decreases ts.len(),
{
    if ts.len() == 0 || sizes.len() == 0 {
        0
    } else {
        bytes_in_window(ts.drop_last(), sizes.drop_last(), now, w) + if in_window(
            ts.last(),
            now,
            w,
        ) {
            sizes.last() as nat
        } else {
            0nat
        }
    }
}

pub open spec fn sat_add(a: u64, b: int) -> u64 {
    if a + b <= u64::MAX {
        (a + b) as u64
    } else {
        u64::MAX
    }
}

/// `post` is `pre` after a message of `size` bytes arrived at `now`: both
/// totals count it (saturating), it joins the window, and the leading arrivals
/// before the window leave it.
pub open spec fn record_effect(pre: Stats, post: Stats, now: i64, size: usize) -> bool {
    let ts = pre.message_times@.push(now);
    let k = stale_prefix(ts, now, pre.window_secs) as int;
    &&& post.message_times@ == ts.skip(k)
    &&& post.message_sizes@ == pre.message_sizes@.push(size).skip(k)
    &&& post.total_messages == sat_add(pre.total_messages, 1)
    &&& post.total_bytes == sat_add(pre.total_bytes, size as int)
    &&& post.window_secs == pre.window_secs
    &&& post.start_time == pre.start_time
}

/// Arrival times (Unix milliseconds) and sizes of recent messages, the
/// all-time totals, and the time counting started.
#[derive(Debug)]
pub struct Stats {
    pub window_secs: u64,
    pub message_times: VecDeque<i64>,
    pub message_sizes: VecDeque<usize>,
    pub total_messages: u64,
    pub total_bytes: u64,
    pub start_time: i64,
}

impl Stats {
    pub open spec fn wf(&self) -> bool {
        self.message_times@.len() == self.message_sizes@.len()
    }

    /// Statistics over a window of `window_secs` seconds, started at `now`.
    pub fn new_at(window_secs: u64, now: i64) -> (r: Self)
        ensures
            r.wf(),
            r.window_secs == window_secs,
            r.message_times@.len() == 0,
            r.total_messages == 0,
            r.total_bytes == 0,
            r.start_time == now,
    {
        Stats {
            window_secs,
            message_times: VecDeque::new(),
            message_sizes: VecDeque::new(),
            total_messages: 0,
            total_bytes: 0,
            start_time: now,
        }
    }

    /// Statistics over a window of `window_secs` seconds, started now.
    pub fn new(window_secs: u64) -> (r: Self)
        ensures
            r.wf(),
            r.window_secs == window_secs,
            r.message_times@.len() == 0,
            r.total_messages == 0,
            r.total_bytes == 0,
    {
        Self::new_at(window_secs, now_millis())
    }

    /// Records a message of `payload_size` bytes arriving at `now`, then drops
    /// the leading arrivals that lie before the window. Totals saturate.
    pub fn record_message_at(&mut self, now: i64, payload_size: usize)
        requires
            old(self).wf(),
        ensures
            final(self).wf(),
            record_effect(*old(self), *final(self), now, payload_size),
    {
        self.message_times.push_back(now);
        self.message_sizes.push_back(payload_size);
        if self.total_messages < u64::MAX {
            self.total_messages = self.total_messages + 1;
        }
        let size = payload_size as u64;
        if self.total_bytes <= u64::MAX - size {
            self.total_bytes = self.total_bytes + size;
        } else {
            self.total_bytes = u64::MAX;
        }
        self.prune_old_entries(now);
    }

    /// Records a message of `payload_size` bytes arriving now.
    pub fn record_message(&mut self, payload_size: usize)
        requires
            old(self).wf(),
        ensures
            final(self).wf(),
            exists|now: i64| #[trigger] record_effect(*old(self), *final(self), now, payload_size),
    {
        let now = now_millis();
        self.record_message_at(now, payload_size);
    }

    fn prune_old_entries(&mut self, now: i64)
        requires
            old(self).wf(),
        ensures
            final(self).wf(),
            ({
                let k = stale_prefix(old(self).message_times@, now, old(self).window_secs) as int;
                &&& final(self).message_times@ == old(self).message_times@.skip(k)
                &&& final(self).message_sizes@ == old(self).message_sizes@.skip(k)
            }),
            final(self).total_messages == old(self).total_messages,
            final(self).total_bytes == old(self).total_bytes,
            final(self).window_secs == old(self).window_secs,
            final(self).start_time == old(self).start_time,
    {
        let ghost ts = self.message_times@;
        let ghost ss = self.message_sizes@;
        let ghost w = self.window_secs;
        let cutoff: i128 = now as i128 - (self.window_secs as i128) * 1000;
        let ghost mut j: int = 0;
        proof {
            assert(ts.skip(0) =~= ts);
            assert(ss.skip(0) =~= ss);
        }
        while self.message_times.len() > 0 && (self.message_times[0] as i128) < cutoff
            invariant
                self.wf(),
                0 <= j <= ts.len(),
                ts.len() == ss.len(),
                self.message_times@ == ts.skip(j),
                self.message_sizes@ == ss.skip(j),
                stale_prefix(ts, now, w) == j + stale_prefix(ts.skip(j), now, w),
                cutoff == now - 1000 * w,
                self.window_secs == w,
                self.total_messages == old(self).total_messages,
                self.total_bytes == old(self).total_bytes,
                self.start_time == old(self).start_time,
            decreases self.message_times@.len(),
        {
            proof {
                assert(ts.skip(j).drop_first() =~= ts.skip(j + 1));
                assert(ts.skip(j)[0] == self.message_times@[0]);
            }
            self.message_times.pop_front();
            self.message_sizes.pop_front();
            proof {
                assert(self.message_times@ =~= ts.skip(j + 1));
                assert(self.message_sizes@ =~= ss.skip(j + 1));
            }
            proof {
                j = j + 1;
            }
        }
    }

    /// Number of recorded arrivals inside the window ending at `now`.
    pub fn window_count_at(&self, now: i64) -> (r: usize)
        requires
            self.wf(),
        ensures
            r == count_in_window(self.message_times@, now, self.window_secs),
    {
        let cutoff: i128 = now as i128 - (self.window_secs as i128) * 1000;
        let mut count: usize = 0;
        let mut i: usize = 0;
        proof {
            assert(self.message_times@.take(0) =~= Seq::<i64>::empty());
        }
        while i < self.message_times.len()
            invariant
                i <= self.message_times@.len(),
                cutoff == now - 1000 * self.window_secs,
                count == count_in_window(self.message_times@.take(i as int), now, self.window_secs),
                count <= i,
            decreases self.message_times.len() - i,
        {
            proof {
                assert(self.message_times@.take(i + 1).drop_last() =~= self.message_times@.take(
                    i as int,
                ));
            }
            if (self.message_times[i] as i128) >= cutoff {
                count = count + 1;
            }
            i = i + 1;
        }
        proof {
            assert(self.message_times@.take(i as int) =~= self.message_times@);
        }
        count
    }

    /// Bytes of the recorded arrivals inside the window ending at `now`.
    pub fn window_bytes_at(&self, now: i64) -> (r: u128)
        requires
            self.wf(),
        ensures
            r == bytes_in_window(self.message_times@, self.message_sizes@, now, self.window_secs),
    {
        let cutoff: i128 = now as i128 - (self.window_secs as i128) * 1000;
        let mut sum: u128 = 0;
        let mut i: usize = 0;
        let ghost ts = self.message_times@;
        let ghost ss = self.message_sizes@;
        proof {
            assert(ts.take(0) =~= Seq::<i64>::empty());
        }
        while i < self.message_times.len()
            invariant
                self.wf(),
                ts == self.message_times@,
                ss == self.message_sizes@,
                i <= ts.len(),
                cutoff == now - 1000 * self.window_secs,
                sum == bytes_in_window(ts.take(i as int), ss.take(i as int), now, self.window_secs),
                sum <= i * (usize::MAX as int),
            decreases self.message_times.len() - i,
        {
            proof {
                assert(ts.take(i + 1).drop_last() =~= ts.take(i as int));
                assert(ss.take(i + 1).drop_last() =~= ss.take(i as int));
                assert((i + 1) * (usize::MAX as int) == i * (usize::MAX as int) + usize::MAX)
                    by (nonlinear_arith);
                assert((i + 1) * (usize::MAX as int) <= (usize::MAX as int + 1) * (usize::MAX as int))
                    by (nonlinear_arith)
                    requires i < usize::MAX;
                assert((usize::MAX as int + 1) * (usize::MAX as int) <= u128::MAX) by (nonlinear_arith);
            }
            if (self.message_times[i] as i128) >= cutoff {
                sum = sum + self.message_sizes[i] as u128;
            }
            i = i + 1;
        }
        proof {
            assert(ts.take(i as int) =~= ts);
            assert(ss.take(i as int) =~= ss);
        }
        sum
    }

    /// Arrivals inside the window ending now.
    pub fn window_count(&self) -> (r: usize)
        requires
            self.wf(),
        ensures
            exists|now: i64| r == count_in_window(self.message_times@, now, self.window_secs),
    {
        self.window_count_at(now_millis())
    }

    /// Bytes of the arrivals inside the window ending now.
    pub fn window_bytes(&self) -> (r: u128)
        requires
            self.wf(),
        ensures
            exists|now: i64|
                r == bytes_in_window(self.message_times@, self.message_sizes@, now, self.window_secs),
    {
        self.window_bytes_at(now_millis())
    }

    pub fn total_messages(&self) -> (r: u64)
        ensures
            r == self.total_messages,
    {
        self.total_messages
    }

    pub fn total_bytes(&self) -> (r: u64)
        ensures
            r == self.total_bytes,
    {
        self.total_bytes
    }

    pub open spec fn uptime_spec(&self, now: i64) -> nat {
        if now > self.start_time {
            (now - self.start_time) as nat
        } else {
            0
        }
    }

    /// Milliseconds from the start to `now`; 0 if `now` lies before it.
    pub fn uptime_at(&self, now: i64) -> (r: u64)
        ensures
            r == self.uptime_spec(now),
    {
        if now > self.start_time {
            (now as i128 - self.start_time as i128) as u64
        } else {
            0
        }
    }

    /// Milliseconds since the start.
    pub fn uptime(&self) -> (r: u64)
        ensures
            exists|now: i64| r == #[trigger] self.uptime_spec(now),
    {
        self.uptime_at(now_millis())
    }

    /// The uptime at `now` as `"{s}s"`, `"{m}m {s}s"` or `"{h}h {m}m"`.
    pub fn uptime_string_at(&self, now: i64) -> (r: String)
        ensures
            r@ == uptime_text((self.uptime_spec(now) / 1000) as nat),
    {
        let secs = self.uptime_at(now) / 1000;
        format_uptime(secs)
    }

    /// The uptime as `"{s}s"`, `"{m}m {s}s"` or `"{h}h {m}m"`.
    pub fn uptime_string(&self) -> (r: String)
        ensures
            r@.len() > 0,
            exists|now: i64| r@ == uptime_text((#[trigger] self.uptime_spec(now) / 1000) as nat),
    {
        let secs = self.uptime() / 1000;
        proof {
            lemma_uptime_text_nonempty(secs as nat);
        }
        format_uptime(secs)
    }

    /// A byte count with its unit: `"{n} B"` below 1 KB, else the value in KB,
    /// MB or GB with two decimals (binary units, rounded half up).
    pub fn format_bytes(bytes: u64) -> (r: String)
        ensures
            r@ == bytes_text(bytes as nat),
    {
        proof {
            reveal_strlit(" GB");
            reveal_strlit(" MB");
            reveal_strlit(" KB");
            reveal_strlit(" B");
        }
        if bytes >= GB {
            joined(fixed(bytes, GB, 2), " GB")
        } else if bytes >= MB {
            joined(fixed(bytes, MB, 2), " MB")
        } else if bytes >= KB {
            joined(fixed(bytes, KB, 2), " KB")
        } else {
            joined(decimal(bytes), " B")
        }
    }

    /// Clears the window and the totals and restarts the uptime at `now`.
    pub fn reset_at(&mut self, now: i64)
        ensures
            final(self).wf(),
            final(self).message_times@.len() == 0,
            final(self).total_messages == 0,
            final(self).total_bytes == 0,
            final(self).start_time == now,
            final(self).window_secs == old(self).window_secs,
    {
        self.message_times.clear();
        self.message_sizes.clear();
        self.total_messages = 0;
        self.total_bytes = 0;
        self.start_time = now;
    }

    /// Clears the window and the totals and restarts the uptime.
    pub fn reset(&mut self)
        ensures
            final(self).wf(),
            final(self).message_times@.len() == 0,
            final(self).total_messages == 0,
            final(self).total_bytes == 0,
            final(self).window_secs == old(self).window_secs,
    {
        self.reset_at(now_millis());
    }
}

pub open spec fn bytes_text(b: nat) -> Seq<char> {
    if b >= GB {
        fixed_spec(b, GB as nat, 2) + " GB"@
    } else if b >= MB {
        fixed_spec(b, MB as nat, 2) + " MB"@
    } else if b >= KB {
        fixed_spec(b, KB as nat, 2) + " KB"@
    } else {
        decimal_spec(b) + " B"@
    }
}

pub open spec fn uptime_text(secs: nat) -> Seq<char> {
    if secs < 60 {
        decimal_spec(secs) + "s"@
    } else if secs < 3600 {
        decimal_spec(secs / 60) + "m "@ + decimal_spec(secs % 60) + "s"@
    } else {
        decimal_spec(secs / 3600) + "h "@ + decimal_spec((secs % 3600) / 60) + "m"@
    }
}

pub proof fn lemma_decimal_nonempty(n: nat)
    ensures
        decimal_spec(n).len() > 0,
    decreases n,
{
    if n >= 10 {
        lemma_decimal_nonempty(n / 10);
    }
}

proof fn lemma_uptime_text_nonempty(secs: nat)
    ensures
        uptime_text(secs).len() > 0,
{
    lemma_decimal_nonempty(secs);
    lemma_decimal_nonempty(secs / 60);
    lemma_decimal_nonempty(secs / 3600);
}

fn format_uptime(secs: u64) -> (r: String)
    ensures
        r@ == uptime_text(secs as nat),
{
    proof {
        reveal_strlit("s");
        reveal_strlit("m ");
        reveal_strlit("h ");
        reveal_strlit("m");
    }
    if secs < 60 {
        joined(decimal(secs), "s")
    } else if secs < 3600 {
        let s = joined(joined(decimal(secs / 60), "m "), decimal(secs % 60).as_str());
        joined(s, "s")
    } else {
        let s = joined(joined(decimal(secs / 3600), "h "), decimal((secs % 3600) / 60).as_str());
        joined(s, "m")
    }
}

/// When every recorded arrival lies inside the window, all of them count
/// toward the rate; when none does, the rate is zero.
pub proof fn lemma_window_counts(ts: Seq<i64>, now: i64, w: u64)
    ensures
        (forall|i: int| 0 <= i < ts.len() ==> in_window(#[trigger] ts[i], now, w))
            ==> count_in_window(ts, now, w) == ts.len(),
        (forall|i: int| 0 <= i < ts.len() ==> !in_window(#[trigger] ts[i], now, w))
            ==> count_in_window(ts, now, w) == 0,
    decreases ts.len(),
{
    if ts.len() > 0 {
        let p = ts.drop_last();
        lemma_window_counts(p, now, w);
        assert forall|i: int| 0 <= i < p.len() implies p[i] == ts[i] by {}
        if forall|i: int| 0 <= i < ts.len() ==> in_window(#[trigger] ts[i], now, w) {
            assert(in_window(ts[ts.len() - 1], now, w));
        }
        if forall|i: int| 0 <= i < ts.len() ==> !in_window(#[trigger] ts[i], now, w) {
            assert(!in_window(ts[ts.len() - 1], now, w));
        }
    }
}

/// With no further records, the count in the window never rises as time
/// advances, and it is zero once the last arrival lies more than the window
/// before `now`.
pub proof fn lemma_window_count_decays(ts: Seq<i64>, now1: i64, now2: i64, w: u64)
    requires
        now1 <= now2,
    ensures
        count_in_window(ts, now2, w) <= count_in_window(ts, now1, w),
        (forall|i: int| 0 <= i < ts.len() ==> now2 - 1000 * w > #[trigger] ts[i])
            ==> count_in_window(ts, now2, w) == 0,
    decreases ts.len(),
{
    if ts.len() > 0 {
        lemma_window_count_decays(ts.drop_last(), now1, now2, w);
        lemma_window_counts(ts, now2, w);
    } else {
        lemma_window_counts(ts, now2, w);
    }
}

/// Recording `k` messages into empty statistics, every one at a time inside
/// the window ending at `now` (and not after it), leaves all `k` in the window
/// at `now`: the rate at `now` is `k` over the window.
pub proof fn lemma_records_all_counted(states: Seq<Stats>, times: Seq<i64>, sizes: Seq<usize>, now: i64)
    requires
        states.len() == times.len() + 1,
        sizes.len() == times.len(),
        states[0].message_times@.len() == 0,
        forall|i: int|
            0 <= i < times.len() ==> record_effect(#[trigger] states[i], states[i + 1], times[i], sizes[i]),
        forall|i: int| 0 <= i < times.len() ==> in_window(#[trigger] times[i], now, states[0].window_secs),
        forall|i: int| 0 <= i < times.len() ==> #[trigger] times[i] <= now,
    ensures
        states.last().message_times@ == times,
        count_in_window(states.last().message_times@, now, states[0].window_secs) == times.len(),
    decreases times.len(),
{
    let w = states[0].window_secs;
    if times.len() == 0 {
        assert(states.last().message_times@ =~= times);
    } else {
        let k = times.len() - 1;
        let ps = states.drop_last();
        let pt = times.drop_last();
        assert forall|i: int| 0 <= i < pt.len() implies record_effect(#[trigger] ps[i], ps[i + 1], pt[i], sizes.drop_last()[i]) by {
            assert(record_effect(states[i], states[i + 1], times[i], sizes[i]));
        }
        assert forall|i: int| 0 <= i < pt.len() implies in_window(#[trigger] pt[i], now, ps[0].window_secs) by {
            assert(in_window(times[i], now, w));
        }
        assert forall|i: int| 0 <= i < pt.len() implies #[trigger] pt[i] <= now by {
            assert(times[i] <= now);
        }
        lemma_records_all_counted(ps, pt, sizes.drop_last(), now);
        assert(ps.last() == states[k]);
        assert(record_effect(states[k], states[k + 1], times[k], sizes[k]));
        assert(states[k].window_secs == w) by {
            lemma_window_unchanged(states, times, sizes, k);
        }
        let ts = states[k].message_times@.push(times[k]);
        assert(ts =~= times);
        assert(in_window(times[0], times[k], w)) by {
            assert(in_window(times[0], now, w));
            assert(times[k] <= now);
        }
        assert(stale_prefix(ts, times[k], w) == 0);
        assert(ts.skip(0) =~= ts);
        lemma_window_counts(times, now, w);
    }
}

proof fn lemma_window_unchanged(states: Seq<Stats>, times: Seq<i64>, sizes: Seq<usize>, k: int)
    requires
        states.len() == times.len() + 1,
        sizes.len() == times.len(),
        forall|i: int|
            0 <= i < times.len() ==> record_effect(#[trigger] states[i], states[i + 1], times[i], sizes[i]),
        0 <= k < states.len(),
    ensures
        states[k].window_secs == states[0].window_secs,
    decreases k,
{
    if k > 0 {
        lemma_window_unchanged(states, times, sizes, k - 1);
        assert(record_effect(states[k - 1], states[k], times[k - 1], sizes[k - 1]));
    }
}

/// `k` arrivals of `s` bytes each, all inside the window, amount to `k * s`
/// bytes in the window.
pub proof fn lemma_window_bytes_uniform(ts: Seq<i64>, sizes: Seq<usize>, now: i64, w: u64, s: usize)
    requires
        ts.len() == sizes.len(),
        forall|i: int| 0 <= i < ts.len() ==> in_window(#[trigger] ts[i], now, w),
        forall|i: int| 0 <= i < sizes.len() ==> #[trigger] sizes[i] == s,
    ensures
        bytes_in_window(ts, sizes, now, w) == ts.len() * s,
    decreases ts.len(),
{
    if ts.len() > 0 {
        let p = ts.drop_last();
        let q = sizes.drop_last();
        assert forall|i: int| 0 <= i < p.len() implies in_window(#[trigger] p[i], now, w) by {
            assert(p[i] == ts[i]);
        }
        assert forall|i: int| 0 <= i < q.len() implies #[trigger] q[i] == s by {
            assert(q[i] == sizes[i]);
        }
        lemma_window_bytes_uniform(p, q, now, w, s);
        assert(in_window(ts.last(), now, w));
        assert(sizes.last() == s);
        assert(bytes_in_window(ts, sizes, now, w) == bytes_in_window(p, q, now, w) + s);
        assert(p.len() * s + s == ts.len() * s) by (nonlinear_arith)
            requires p.len() + 1 == ts.len();
    } else {
        assert(ts.len() * s == 0) by (nonlinear_arith)
            requires ts.len() == 0;
    }
}

} // verus!
