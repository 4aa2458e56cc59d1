//! Inter-arrival times, end-to-end delivery delay read from a timestamp inside
//! the payload, and jitter.

use vstd::prelude::*;
use std::collections::VecDeque;
use crate::clock::now_millis;
use crate::json::{Json, json_of, parse_json};
use crate::metric_tracker::json_get;
use crate::number::{parse_i64, int_text_spec};
use crate::text::{decimal, decimal_spec, fixed, fixed_spec, joined};

verus! {

/// Embedded times above this are milliseconds; others are seconds.
pub const MILLIS_THRESHOLD: i64 = 1_000_000_000_000;

/// Delays of an hour or more are discarded.
pub const MAX_LATENCY_MS: i64 = 3_600_000;

/// Latency above this is high.
pub const HIGH_LATENCY_MS: u64 = 5000;

/// The first of the fields `timestamp`, `ts`, `time`, `t` present in `j`.
pub open spec fn timestamp_field(j: Json) -> Option<Json> {
    if json_get(j, "timestamp"@) is Some {
        json_get(j, "timestamp"@)
    } else if json_get(j, "ts"@) is Some {
        json_get(j, "ts"@)
    } else if json_get(j, "time"@) is Some {
        json_get(j, "time"@)
    } else {
        json_get(j, "t"@)
    }
}

/// An embedded time as Unix milliseconds: an integer number (seconds when at
/// most 10^12, else milliseconds), or a string holding an integer (taken as
/// milliseconds).
pub open spec fn embedded_millis(v: Json) -> Option<int> {
    match v {
        Json::Number(n) => match n.int {
            Some(i) => if i > MILLIS_THRESHOLD {
                Some(i as int)
            } else if i * 1000 >= i64::MIN {
                Some(i * 1000)
            } else {
                None
            },
            None => None,
        },
        Json::Str(s) => match int_text_spec(s@) {
            Some(i) => Some(i as int),
            None => None,
        },
        _ => None,
    }
}

/// The delivery delay of document `j` received at `now`, when it embeds a
/// time and the delay lies in `[0, 1 h)`.
pub open spec fn latency_spec(j: Json, now: i64) -> Option<u64> {
    match timestamp_field(j) {
        Some(v) => match embedded_millis(v) {
            Some(t) => if 0 <= now - t < MAX_LATENCY_MS {
                Some((now - t) as u64)
            } else {
                None
            },
            None => None,
        },
        None => None,
    }
}

fn field<'a>(j: &'a Json, name: &str) -> (r: Option<&'a Json>)
    ensures
        match r {
            Some(c) => json_get(*j, name@) == Some(*c),
            None => json_get(*j, name@) is None,
        },
{
    let key = String::from_str(name);
    match j {
        Json::Object(members) => {
            let mut i: usize = 0;
            proof {
                assert(members@.skip(0) =~= members@);
            }
            while i < members.len()
                invariant
                    *j == Json::Object(*members),
                    key@ == name@,
                    i <= members@.len(),
                    crate::metric_tracker::member_get(members@, name@)
                        == crate::metric_tracker::member_get(members@.skip(i as int), name@),
                decreases members.len() - i,
            {
                proof {
                    assert(members@.skip(i as int).drop_first() =~= members@.skip(i + 1));
                    assert(members@.skip(i as int)[0] == members@[i as int]);
                }
                if members[i].0 == key {
                    return Some(&members[i].1);
                }
                i = i + 1;
            }
            None
        },
        _ => None,
    }
}

/// The delivery delay of document `json` received at `now`: the time in its
/// first field among `timestamp`, `ts`, `time`, `t`, kept only when the delay
/// lies in `[0, 1 h)`.
pub fn payload_latency_at(json: &Json, now: i64) -> (r: Option<u64>)
    ensures
        r == latency_spec(*json, now),
{
    proof {
        reveal_strlit("timestamp");
        reveal_strlit("ts");
        reveal_strlit("time");
        reveal_strlit("t");
    }
    let v = match field(json, "timestamp") {
        Some(v) => v,
        None => match field(json, "ts") {
            Some(v) => v,
            None => match field(json, "time") {
                Some(v) => v,
                None => match field(json, "t") {
                    Some(v) => v,
                    None => return None,
                },
            },
        },
    };
    let t: i64 = match v {
        Json::Number(n) => match n.int {
            Some(i) => if i > MILLIS_THRESHOLD {
                i
            } else {
                match i.checked_mul(1000) {
                    Some(m) => m,
                    None => return None,
                }
            },
            None => return None,
        },
        Json::Str(s) => match parse_i64(s.as_str()) {
            Some(i) => i,
            None => return None,
        },
        _ => return None,
    };
    let lat: i128 = now as i128 - t as i128;
    if 0 <= lat && lat < MAX_LATENCY_MS as i128 {
        Some(lat as u64)
    } else {
        None
    }
}

/// Inter-arrival times and delivery delays in milliseconds.
#[derive(Debug)]
pub struct LatencyTracker {
    pub inter_arrival_times: VecDeque<u64>,
    pub payload_latencies: VecDeque<u64>,
    /// Unix milliseconds of the previous message.
    pub last_message_time: Option<i64>,
    pub max_samples: usize,
    pub min_inter_arrival: u64,
    pub max_inter_arrival: u64,
    pub total_inter_arrival: u128,
    pub inter_arrival_count: u64,
    pub min_payload_latency: Option<u64>,
    pub max_payload_latency: Option<u64>,
    pub total_payload_latency: u128,
    pub payload_latency_count: u64,
}

/// `q` after `x` arrives, the oldest dropped first when `cap` are held.
pub open spec fn sample_push(q: Seq<u64>, x: u64, cap: nat) -> Seq<u64> {
    if q.len() >= cap {
        q.drop_first().push(x)
    } else {
        q.push(x)
    }
}

pub open spec fn since(now: i64, then: i64) -> u64 {
    if now > then {
        (now - then) as u64
    } else {
        0
    }
}

pub open spec fn min_u64(a: u64, b: u64) -> u64 {
    if a <= b { a } else { b }
}

pub open spec fn max_u64(a: u64, b: u64) -> u64 {
    if a >= b { a } else { b }
}

/// `post` is `pre` after an arrival at `now`: after a previous arrival, the
/// gap joins the running statistics (which stop at `u64::MAX` gaps) and the
/// samples; delays are untouched.
pub open spec fn arrival_effect(pre: LatencyTracker, post: LatencyTracker, now: i64) -> bool {
    &&& post.last_message_time == Some(now)
    &&& post.max_samples == pre.max_samples
    &&& post.payload_latencies == pre.payload_latencies
    &&& post.min_payload_latency == pre.min_payload_latency
    &&& post.max_payload_latency == pre.max_payload_latency
    &&& post.total_payload_latency == pre.total_payload_latency
    &&& post.payload_latency_count == pre.payload_latency_count
    &&& match pre.last_message_time {
        Some(last) if pre.inter_arrival_count < u64::MAX => {
            let gap = since(now, last);
            &&& post.inter_arrival_times@ == sample_push(
                pre.inter_arrival_times@,
                gap,
                pre.max_samples as nat,
            )
            &&& post.min_inter_arrival == min_u64(pre.min_inter_arrival, gap)
            &&& post.max_inter_arrival == max_u64(pre.max_inter_arrival, gap)
            &&& post.total_inter_arrival == pre.total_inter_arrival + gap
            &&& post.inter_arrival_count == pre.inter_arrival_count + 1
        },
        _ => {
            &&& post.inter_arrival_times == pre.inter_arrival_times
            &&& post.min_inter_arrival == pre.min_inter_arrival
            &&& post.max_inter_arrival == pre.max_inter_arrival
            &&& post.total_inter_arrival == pre.total_inter_arrival
            &&& post.inter_arrival_count == pre.inter_arrival_count
        },
    }
}

/// `post` is `pre` after a delivery delay `latency` joins the statistics
/// (which stop at `u64::MAX` delays) and the samples; gaps are untouched.
pub open spec fn latency_effect(pre: LatencyTracker, post: LatencyTracker, latency: u64) -> bool {
    &&& post.max_samples == pre.max_samples
    &&& post.last_message_time == pre.last_message_time
    &&& post.inter_arrival_times == pre.inter_arrival_times
    &&& post.inter_arrival_count == pre.inter_arrival_count
    &&& post.total_inter_arrival == pre.total_inter_arrival
    &&& post.min_inter_arrival == pre.min_inter_arrival
    &&& post.max_inter_arrival == pre.max_inter_arrival
    &&& if pre.payload_latency_count < u64::MAX {
        &&& post.payload_latencies@ == sample_push(
            pre.payload_latencies@,
            latency,
            pre.max_samples as nat,
        )
        &&& post.min_payload_latency == Some(
            match pre.min_payload_latency {
                Some(m) => min_u64(m, latency),
                None => latency,
            },
        )
        &&& post.max_payload_latency == Some(
            match pre.max_payload_latency {
                Some(m) => max_u64(m, latency),
                None => latency,
            },
        )
        &&& post.total_payload_latency == pre.total_payload_latency + latency
        &&& post.payload_latency_count == pre.payload_latency_count + 1
    } else {
        post == pre
    }
}

/// `post` is `pre` after the delay that document `j`, received at `now`,
/// shows, if it shows one.
pub open spec fn json_latency_effect(pre: LatencyTracker, post: LatencyTracker, j: Json, now: i64) -> bool {
    match latency_spec(j, now) {
        Some(lat) => latency_effect(pre, post, lat),
        None => post == pre,
    }
}

/// `post` is `pre` after a message with `payload` received at `now`: its
/// arrival, then, when the payload is a JSON document, the delay that the
/// document shows (if any).
pub open spec fn message_effect(pre: LatencyTracker, post: LatencyTracker, payload: Seq<u8>, now: i64) -> bool {
    exists|mid: LatencyTracker|
        #[trigger] arrival_effect(pre, mid, now) && match json_of(payload) {
            Some(j) => json_latency_effect(mid, post, j, now),
            None => post == mid,
        }
}

impl LatencyTracker {
    pub open spec fn wf(&self) -> bool {
        &&& self.max_samples > 0
        &&& self.inter_arrival_times@.len() <= self.max_samples
        &&& self.payload_latencies@.len() <= self.max_samples
        &&& self.total_inter_arrival <= self.inter_arrival_count * (u64::MAX as int)
        &&& self.inter_arrival_count > 0 ==> self.min_inter_arrival * self.inter_arrival_count
            <= self.total_inter_arrival <= self.max_inter_arrival * self.inter_arrival_count
        &&& self.total_payload_latency <= self.payload_latency_count * (u64::MAX as int)
    }

    /// A tracker keeping `max_samples` samples of each kind; `None` for zero.
    pub fn new(max_samples: usize) -> (r: Option<Self>)
        ensures
            r is None <==> max_samples == 0,
            r matches Some(t) ==> {
                &&& t.wf()
                &&& t.max_samples == max_samples
                &&& t.inter_arrival_times@.len() == 0
                &&& t.payload_latencies@.len() == 0
                &&& t.last_message_time is None
                &&& t.inter_arrival_count == 0
                &&& t.payload_latency_count == 0
                &&& t.min_inter_arrival == u64::MAX
                &&& t.max_inter_arrival == 0
                &&& t.min_payload_latency is None
                &&& t.max_payload_latency is None
            },
    {
        if max_samples == 0 {
            return None;
        }
        Some(
            LatencyTracker {
                inter_arrival_times: VecDeque::new(),
                payload_latencies: VecDeque::new(),
                last_message_time: None,
                max_samples,
                min_inter_arrival: u64::MAX,
                max_inter_arrival: 0,
                total_inter_arrival: 0,
                inter_arrival_count: 0,
                min_payload_latency: None,
                max_payload_latency: None,
                total_payload_latency: 0,
                payload_latency_count: 0,
            },
        )
    }

    /// Notes an arrival at `now`: after a previous arrival, the gap joins the
    /// running statistics (which stop at `u64::MAX` gaps) and the samples.
    pub fn record_arrival_at(&mut self, now: i64)
        requires
            old(self).wf(),
        ensures
            final(self).wf(),
            arrival_effect(*old(self), *final(self), now),
    {
        if let Some(last) = self.last_message_time {
            if self.inter_arrival_count < u64::MAX {
                let gap: u64 = if now > last {
                    (now as i128 - last as i128) as u64
                } else {
                    0
                };
                let ghost m0 = self.min_inter_arrival as int;
                let ghost x0 = self.max_inter_arrival as int;
                let ghost t0 = self.total_inter_arrival as int;
                let ghost c0 = self.inter_arrival_count as int;
                if gap < self.min_inter_arrival {
                    self.min_inter_arrival = gap;
                }
                if gap > self.max_inter_arrival {
                    self.max_inter_arrival = gap;
                }
                proof {
                    let c = self.inter_arrival_count as int;
                    assert((c + 1) * (u64::MAX as int) == c * (u64::MAX as int) + u64::MAX)
                        by (nonlinear_arith);
                    assert((c + 1) * (u64::MAX as int) <= (u64::MAX as int) * (u64::MAX as int))
                        by (nonlinear_arith)
                        requires c < u64::MAX;
                }
                self.total_inter_arrival = self.total_inter_arrival + gap as u128;
                self.inter_arrival_count = self.inter_arrival_count + 1;
                proof {
                    let m1 = self.min_inter_arrival as int;
                    let x1 = self.max_inter_arrival as int;
                    let g = gap as int;
                    if c0 == 0 {
                        assert(t0 == 0) by (nonlinear_arith)
                            requires t0 <= c0 * (u64::MAX as int), c0 == 0, t0 >= 0;
                        assert(m1 * 1 <= g && g <= x1 * 1);
                    } else {
                        assert(m1 * (c0 + 1) <= t0 + g) by (nonlinear_arith)
                            requires m1 <= m0, m1 <= g, m0 * c0 <= t0, c0 > 0, m1 >= 0;
                        assert(t0 + g <= x1 * (c0 + 1)) by (nonlinear_arith)
                            requires x1 >= x0, x1 >= g, t0 <= x0 * c0, c0 > 0;
                    }
                }
                if self.inter_arrival_times.len() >= self.max_samples {
                    self.inter_arrival_times.pop_front();
                }
                self.inter_arrival_times.push_back(gap);
            }
        }
        self.last_message_time = Some(now);
    }

    /// Adds a delivery delay to the statistics (which stop at `u64::MAX`
    /// delays) and the samples.
    pub fn record_latency(&mut self, latency: u64)
        requires
            old(self).wf(),
        ensures
            final(self).wf(),
            latency_effect(*old(self), *final(self), latency),
    {
        if self.payload_latency_count == u64::MAX {
            return;
        }
        self.min_payload_latency = Some(
            match self.min_payload_latency {
                Some(m) => if latency < m {
                    latency
                } else {
                    m
                },
                None => latency,
            },
        );
        self.max_payload_latency = Some(
            match self.max_payload_latency {
                Some(m) => if latency > m {
                    latency
                } else {
                    m
                },
                None => latency,
            },
        );
        proof {
            let c = self.payload_latency_count as int;
            assert((c + 1) * (u64::MAX as int) == c * (u64::MAX as int) + u64::MAX)
                by (nonlinear_arith);
            assert((c + 1) * (u64::MAX as int) <= (u64::MAX as int) * (u64::MAX as int))
                by (nonlinear_arith)
                requires c < u64::MAX;
        }
        self.total_payload_latency = self.total_payload_latency + latency as u128;
        self.payload_latency_count = self.payload_latency_count + 1;
        if self.payload_latencies.len() >= self.max_samples {
            self.payload_latencies.pop_front();
        }
        self.payload_latencies.push_back(latency);
    }

    /// Notes a message with `payload` received at `now`: its arrival, and its
    /// delivery delay when the payload is a JSON document that embeds a time.
    pub fn record_message_at(&mut self, payload: &[u8], now: i64)
        requires
            old(self).wf(),
        ensures
            final(self).wf(),
            message_effect(*old(self), *final(self), payload@, now),
    {
        self.record_arrival_at(now);
        let ghost mid = *self;
        if let Some(j) = parse_json(payload) {
            if let Some(lat) = payload_latency_at(&j, now) {
                self.record_latency(lat);
            }
            assert(json_latency_effect(mid, *self, j, now));
        }
        assert(arrival_effect(*old(self), mid, now));
    }

    /// Notes a message with `payload` received now.
    pub fn record_message(&mut self, payload: &[u8])
        requires
            old(self).wf(),
        ensures
            final(self).wf(),
            exists|now: i64| #[trigger] message_effect(*old(self), *final(self), payload@, now),
    {
        self.record_message_at(payload, now_millis());
    }

    /// Mean gap in milliseconds, rounded down.
    pub fn avg_inter_arrival(&self) -> (r: Option<u64>)
        requires
            self.wf(),
        ensures
            self.inter_arrival_count == 0 ==> r is None,
            self.inter_arrival_count > 0 ==> r == Some(
                (self.total_inter_arrival as int / self.inter_arrival_count as int) as u64,
            ),
            r matches Some(a) ==> self.min_inter_arrival <= a <= self.max_inter_arrival,
    {
        if self.inter_arrival_count == 0 {
            return None;
        }
        proof {
            let c = self.inter_arrival_count as int;
            let t = self.total_inter_arrival as int;
            let lo = self.min_inter_arrival as int;
            let hi = self.max_inter_arrival as int;
            assert(t / c <= u64::MAX) by (nonlinear_arith)
                requires t <= c * (u64::MAX as int), c >= 1, t >= 0;
            assert(lo <= t / c) by (nonlinear_arith)
                requires lo * c <= t, c >= 1, lo >= 0;
            assert(t / c <= hi) by (nonlinear_arith)
                requires t <= hi * c, c >= 1, t >= 0;
        }
        Some((self.total_inter_arrival / self.inter_arrival_count as u128) as u64)
    }

    /// Mean delivery delay in milliseconds, rounded down.
    pub fn avg_payload_latency(&self) -> (r: Option<u64>)
        requires
            self.wf(),
        ensures
            self.payload_latency_count == 0 ==> r is None,
            self.payload_latency_count > 0 ==> r == Some(
                (self.total_payload_latency as int / self.payload_latency_count as int) as u64,
            ),
    {
        if self.payload_latency_count == 0 {
            return None;
        }
        proof {
            let c = self.payload_latency_count as int;
            let t = self.total_payload_latency as int;
            assert(t / c <= u64::MAX) by (nonlinear_arith)
                requires t <= c * (u64::MAX as int), c >= 1, t >= 0;
        }
        Some((self.total_payload_latency / self.payload_latency_count as u128) as u64)
    }

    /// The gap samples, oldest first.
    pub fn recent_inter_arrivals(&self) -> (r: &VecDeque<u64>)
        ensures
            r@ == self.inter_arrival_times@,
    {
        &self.inter_arrival_times
    }

    /// The delay samples, oldest first.
    pub fn recent_payload_latencies(&self) -> (r: &VecDeque<u64>)
        ensures
            r@ == self.payload_latencies@,
    {
        &self.payload_latencies
    }

    /// A duration given in milliseconds: `"{n}ms"` below a second, else
    /// seconds below a minute, else minutes, with one decimal rounded half up.
    pub fn format_duration(millis: u64) -> (r: String)
        ensures
            r@ == duration_text(millis as nat),
    {
        proof {
            reveal_strlit("ms");
            reveal_strlit("s");
            reveal_strlit("m");
        }
        if millis < 1000 {
            joined(decimal(millis), "ms")
        } else if millis < 60_000 {
            joined(fixed(millis, 1000, 1), "s")
        } else {
            joined(fixed(millis, 60_000, 1), "m")
        }
    }

    /// Whether some delivery delay exceeded five seconds.
    pub fn has_high_latency(&self) -> (r: bool)
        ensures
            r == (self.max_payload_latency matches Some(m) && m > HIGH_LATENCY_MS),
    {
        match self.max_payload_latency {
            Some(m) => m > HIGH_LATENCY_MS,
            None => false,
        }
    }

    /// Population standard deviation of the gap samples in milliseconds,
    /// rounded down; `None` with fewer than two samples, or when the sums of
    /// the computation do not fit in 128 bits.
    pub fn jitter(&self) -> (r: Option<u64>)
        ensures
            match variance_spec(self.inter_arrival_times@) {
                Some(v) => r matches Some(x) && is_isqrt(v, x as int),
                None => r is None,
            },
    {
        let n = self.inter_arrival_times.len();
        if n < 2 {
            return None;
        }
        let mut s1: u128 = 0;
        let mut s2: u128 = 0;
        let mut fits = true;
        let mut i: usize = 0;
        let ghost q = self.inter_arrival_times@;
        proof {
            assert(q.take(0) =~= Seq::<u64>::empty());
        }
        while i < n
            invariant
                n == q.len(),
                q == self.inter_arrival_times@,
                i <= n,
                s1 == sum_spec(q.take(i as int)),
                s1 <= i * (u64::MAX as int),
                fits == (sum_sq_spec(q.take(i as int)) <= u128::MAX),
                fits ==> s2 == sum_sq_spec(q.take(i as int)),
            decreases n - i,
        {
            let x = self.inter_arrival_times[i] as u128;
            proof {
                assert(q.take(i + 1).drop_last() =~= q.take(i as int));
                assert((i + 1) * (u64::MAX as int) == i * (u64::MAX as int) + u64::MAX)
                    by (nonlinear_arith);
                assert((i + 1) * (u64::MAX as int) <= (usize::MAX as int) * (u64::MAX as int))
                    by (nonlinear_arith)
                    requires i < usize::MAX;
                assert((x as int) * (x as int) <= (u64::MAX as int) * (u64::MAX as int))
                    by (nonlinear_arith)
                    requires x <= u64::MAX;
                lemma_sum_sq_grows(q.take(i + 1));
            }
            s1 = s1 + x;
            if fits {
                let sq = x * x;
                if s2 > u128::MAX - sq {
                    fits = false;
                } else {
                    s2 = s2 + sq;
                }
            }
            i = i + 1;
        }
        proof {
            assert(q.take(i as int) =~= q);
        }
        if !fits {
            return None;
        }
        let nn = n as u128;
        let a = match s2.checked_mul(nn) {
            Some(v) => v,
            None => return None,
        };
        let b = match s1.checked_mul(s1) {
            Some(v) => v,
            None => return None,
        };
        if b > a {
            return None;
        }
        proof {
            assert((nn as int) * (nn as int) <= (usize::MAX as int) * (usize::MAX as int))
                by (nonlinear_arith)
                requires nn <= usize::MAX;
            assert((nn as int) * (nn as int) >= 4) by (nonlinear_arith)
                requires nn >= 2;
        }
        let den = nn * nn;
        let var = (a - b) / den;
        Some(isqrt(var))
    }
}

pub open spec fn sum_spec(s: Seq<u64>) -> int
    decreases s.len(),
{
    if s.len() == 0 {
        0
    } else {
        sum_spec(s.drop_last()) + s.last()
    }
}

pub open spec fn sum_sq_spec(s: Seq<u64>) -> int
    decreases s.len(),
{
    if s.len() == 0 {
        0
    } else {
        sum_sq_spec(s.drop_last()) + s.last() * s.last()
    }
}

proof fn lemma_sum_sq_grows(s: Seq<u64>)
    ensures
        sum_sq_spec(s) >= 0,
        s.len() > 0 ==> sum_sq_spec(s) >= sum_sq_spec(s.drop_last()),
    decreases s.len(),
{
    if s.len() > 0 {
        lemma_sum_sq_grows(s.drop_last());
        assert(s.last() * s.last() >= 0) by (nonlinear_arith);
    }
}

/// The largest `r` with `r * r <= v`.
pub open spec fn is_isqrt(v: int, r: int) -> bool {
    r >= 0 && r * r <= v < (r + 1) * (r + 1)
}

/// `((n * S2) - S1^2) / n^2` over the samples, where `S1` and `S2` are the sum
/// and the sum of squares: the population variance, rounded down. `None`
/// below two samples or past 128-bit sums.
pub open spec fn variance_spec(q: Seq<u64>) -> Option<int> {
    let n = q.len() as int;
    let s1 = sum_spec(q);
    let s2 = sum_sq_spec(q);
    if n < 2 || s2 > u128::MAX || s2 * n > u128::MAX || s1 * s1 > u128::MAX || s1 * s1 > s2 * n {
        None
    } else {
        Some((s2 * n - s1 * s1) / (n * n))
    }
}

/// The integer square root of `v`.
pub fn isqrt(v: u128) -> (r: u64)
    ensures
        is_isqrt(v as int, r as int),
{
    let mut lo: u128 = 0;
    let mut hi: u128 = 0x1_0000_0000_0000_0000;
    proof {
        assert(hi * hi > u128::MAX) by (nonlinear_arith)
            requires hi == 0x1_0000_0000_0000_0000u128;
    }
    while hi - lo > 1
        invariant
            lo < hi <= 0x1_0000_0000_0000_0000,
            lo * lo <= v,
            v < hi * hi,
        decreases hi - lo,
    {
        let mid = lo + (hi - lo) / 2;
        proof {
            assert(mid * mid <= u128::MAX) by (nonlinear_arith)
                requires mid < 0x1_0000_0000_0000_0000;
        }
        if mid * mid <= v {
            lo = mid;
        } else {
            hi = mid;
        }
    }
    let r = lo as u64;
    r
}

pub open spec fn duration_text(ms: nat) -> Seq<char> {
    if ms < 1000 {
        decimal_spec(ms) + "ms"@
    } else if ms < 60_000 {
        fixed_spec(ms, 1000, 1) + "s"@
    } else {
        fixed_spec(ms, 60_000, 1) + "m"@
    }
}

} // verus!
