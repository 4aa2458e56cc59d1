//! Device health: a device identity taken from the topic's shape, its message
//! cadence inside a rolling window, and a health class.

use vstd::prelude::*;
use crate::clock::now_millis;
use crate::keyed::{keyed, unique_keys, find_key, lemma_keyed_has, lemma_keyed_keys, lemma_keyed_push, lemma_keyed_update, lemma_keyed_len};
use crate::text::{decimal, decimal_spec, joined};
use crate::topic_tree::string_listed;
use crate::wildcard::{split_on, split_spec, views};

verus! {

/// Health class of a device.
#[derive(Clone, Copy, Debug, PartialEq, Eq, Structural)]
pub enum HealthStatus {
    /// Receiving messages at the expected rate.
    Healthy,
    /// Receiving messages, below the expected rate.
    Warning,
    /// No recent message.
    Stale,
    /// Never active.
    Unknown,
}

/// The device named by a topic: `telemetry/{id}/...`, `devices/{id}/...` or
/// `sites/{site}/devices/{id}/...`, the first that fits.
pub open spec fn device_id_spec(topic: Seq<char>) -> Option<Seq<char>> {
    let p = split_spec(topic, '/');
    if p.len() >= 2 && p[0] == "telemetry"@ {
        Some(p[1])
    } else if p.len() >= 2 && p[0] == "devices"@ {
        Some(p[1])
    } else if p.len() >= 4 && p[0] == "sites"@ && p[2] == "devices"@ {
        Some(p[3])
    } else {
        None
    }
}

/// The device type named by a topic `telemetry/{id}/{type}/...`.
pub open spec fn device_type_spec(topic: Seq<char>) -> Option<Seq<char>> {
    let p = split_spec(topic, '/');
    if p.len() >= 3 && p[0] == "telemetry"@ {
        Some(p[2])
    } else {
        None
    }
}

pub open spec fn opt_view(o: Option<String>) -> Option<Seq<char>> {
    match o {
        Some(s) => Some(s@),
        None => None,
    }
}

/// The device named by `topic`, if its shape names one.
pub fn extract_device_id(topic: &str) -> (r: Option<String>)
    ensures
        opt_view(r) == device_id_spec(topic@),
{
    let parts = split_on(topic, '/');
    let ghost p = views(parts@);
    proof {
        reveal_strlit("telemetry");
        reveal_strlit("devices");
        reveal_strlit("sites");
    }
    let telemetry = String::from_str("telemetry");
    let devices = String::from_str("devices");
    let sites = String::from_str("sites");
    if parts.len() >= 2 && parts[0] == telemetry {
        return Some(parts[1].clone());
    }
    if parts.len() >= 2 && parts[0] == devices {
        return Some(parts[1].clone());
    }
    if parts.len() >= 4 && parts[0] == sites && parts[2] == devices {
        return Some(parts[3].clone());
    }
    None
}

/// The device type named by `topic`, if its shape names one.
pub fn extract_device_type(topic: &str) -> (r: Option<String>)
    ensures
        opt_view(r) == device_type_spec(topic@),
{
    let parts = split_on(topic, '/');
    proof {
        reveal_strlit("telemetry");
    }
    let telemetry = String::from_str("telemetry");
    if parts.len() >= 3 && parts[0] == telemetry {
        return Some(parts[2].clone());
    }
    None
}

/// Whether `recent` messages in `window_secs` seconds reach `per_min_milli`
/// thousandths of a message per minute. An empty window has rate zero.
pub open spec fn rate_reaches(recent: nat, window_secs: u64, per_min_milli: u64) -> bool {
    if window_secs > 0 {
        recent * 60 * 1000 >= per_min_milli * window_secs
    } else {
        per_min_milli == 0
    }
}

/// Thresholds of the health classes.
#[derive(Clone, Copy, Debug)]
pub struct HealthRules {
    pub rate_window_secs: u64,
    pub healthy_per_min_milli: u64,
    pub warning_per_min_milli: u64,
    pub stale_secs: u64,
}

/// The class of a device with `recent` messages in the window, `since_last_ms`
/// since its last message and `count` messages in all: stale first, then by
/// rate, and `Warning` for any device that was ever active.
pub open spec fn classify(rules: HealthRules, recent: nat, since_last_ms: nat, count: u64) -> HealthStatus {
    if since_last_ms > rules.stale_secs * 1000 {
        HealthStatus::Stale
    } else if rate_reaches(recent, rules.rate_window_secs, rules.healthy_per_min_milli) {
        HealthStatus::Healthy
    } else if rate_reaches(recent, rules.rate_window_secs, rules.warning_per_min_milli) {
        HealthStatus::Warning
    } else if count > 0 {
        HealthStatus::Warning
    } else {
        HealthStatus::Unknown
    }
}

fn classify_exec(rules: HealthRules, recent: usize, since_last_ms: u64, count: u64) -> (r: HealthStatus)
    ensures
        r == classify(rules, recent as nat, since_last_ms as nat, count),
{
    let stale_ms: u128 = rules.stale_secs as u128 * 1000;
    if since_last_ms as u128 > stale_ms {
        return HealthStatus::Stale;
    }
    if reaches(recent, rules.rate_window_secs, rules.healthy_per_min_milli) {
        HealthStatus::Healthy
    } else if reaches(recent, rules.rate_window_secs, rules.warning_per_min_milli) {
        HealthStatus::Warning
    } else if count > 0 {
        HealthStatus::Warning
    } else {
        HealthStatus::Unknown
    }
}

fn reaches(recent: usize, window_secs: u64, per_min_milli: u64) -> (r: bool)
    ensures
        r == rate_reaches(recent as nat, window_secs, per_min_milli),
{
    if window_secs > 0 {
        proof {
            assert((recent as int) * 60 * 1000 <= (usize::MAX as int) * 60000) by (nonlinear_arith)
                requires recent <= usize::MAX;
            assert((per_min_milli as int) * (window_secs as int) <= (u64::MAX as int) * (u64::MAX as int))
                by (nonlinear_arith)
                requires per_min_milli <= u64::MAX, window_secs <= u64::MAX;
        }
        (recent as u128) * 60 * 1000 >= (per_min_milli as u128) * (window_secs as u128)
    } else {
        per_min_milli == 0
    }
}

/// The arrivals of `s` after `cutoff`, in order.
pub open spec fn after(s: Seq<i64>, cutoff: int) -> Seq<i64>
    decreases s.len(),
{
    if s.len() == 0 {
        s
    } else {
        let rest = after(s.drop_last(), cutoff);
        if s.last() > cutoff {
            rest.push(s.last())
        } else {
            rest
        }
    }
}

fn keep_after(s: &Vec<i64>, cutoff: i128) -> (r: Vec<i64>)
    ensures
        r@ == after(s@, cutoff as int),
{
    let mut out: Vec<i64> = Vec::new();
    let mut i: usize = 0;
    proof {
        assert(s@.take(0) =~= Seq::<i64>::empty());
    }
    while i < s.len()
        invariant
            i <= s@.len(),
            out@ == after(s@.take(i as int), cutoff as int),
        decreases s.len() - i,
    {
        proof {
            assert(s@.take(i + 1).drop_last() =~= s@.take(i as int));
        }
        if s[i] as i128 > cutoff {
            out.push(s[i]);
        }
        i = i + 1;
    }
    proof {
        assert(s@.take(i as int) =~= s@);
    }
    out
}

/// Health record of one device.
#[derive(Debug)]
pub struct DeviceHealth {
    pub device_id: String,
    pub device_type: Option<String>,
    pub message_count: u64,
    /// Unix milliseconds of the last message.
    pub last_seen: i64,
    /// Arrival times inside the rate window.
    pub recent_messages: Vec<i64>,
    pub status: HealthStatus,
    pub last_payload_size: usize,
    /// Topics the device published on, each once, in first-seen order.
    pub topics: Vec<String>,
}

pub open spec fn since(now: i64, then: i64) -> nat {
    if now > then {
        (now - then) as nat
    } else {
        0
    }
}

pub open spec fn since_text(secs: nat) -> Seq<char> {
    if secs < 60 {
        decimal_spec(secs) + "s ago"@
    } else if secs < 3600 {
        decimal_spec(secs / 60) + "m ago"@
    } else {
        decimal_spec(secs / 3600) + "h ago"@
    }
}

impl DeviceHealth {
    /// A device first seen at `now`, with no message counted yet.
    pub fn new_at(device_id: String, now: i64) -> (r: Self)
        ensures
            r.device_id == device_id,
            r.device_type is None,
            r.message_count == 0,
            r.last_seen == now,
            r.recent_messages@.len() == 0,
            r.status == HealthStatus::Unknown,
            r.last_payload_size == 0,
            r.topics@.len() == 0,
    {
        DeviceHealth {
            device_id,
            device_type: None,
            message_count: 0,
            last_seen: now,
            recent_messages: Vec::new(),
            status: HealthStatus::Unknown,
            last_payload_size: 0,
            topics: Vec::new(),
        }
    }

    /// A device first seen now, with no message counted yet.
    pub fn new(device_id: String) -> (r: Self)
        ensures
            r.device_id == device_id,
            r.device_type is None,
            r.message_count == 0,
            r.recent_messages@.len() == 0,
            r.status == HealthStatus::Unknown,
            r.last_payload_size == 0,
            r.topics@.len() == 0,
    {
        Self::new_at(device_id, now_millis())
    }

    /// Milliseconds from the last message to `now`; 0 if `now` is earlier.
    pub fn time_since_last_at(&self, now: i64) -> (r: u64)
        ensures
            r == since(now, self.last_seen),
    {
        if now > self.last_seen {
            (now as i128 - self.last_seen as i128) as u64
        } else {
            0
        }
    }

    /// Milliseconds since the last message.
    pub fn time_since_last(&self) -> (r: u64)
        ensures
            exists|now: i64| r == #[trigger] since(now, self.last_seen),
    {
        self.time_since_last_at(now_millis())
    }

    /// The time since the last message at `now`: `"{s}s ago"`, `"{m}m ago"`
    /// or `"{h}h ago"`.
    pub fn last_seen_string_at(&self, now: i64) -> (r: String)
        ensures
            r@ == since_text(since(now, self.last_seen) / 1000),
    {
        let secs = self.time_since_last_at(now) / 1000;
        proof {
            reveal_strlit("s ago");
            reveal_strlit("m ago");
            reveal_strlit("h ago");
        }
        if secs < 60 {
            joined(decimal(secs), "s ago")
        } else if secs < 3600 {
            joined(decimal(secs / 60), "m ago")
        } else {
            joined(decimal(secs / 3600), "h ago")
        }
    }

    /// The time since the last message: `"{s}s ago"`, `"{m}m ago"` or `"{h}h ago"`.
    pub fn last_seen_string(&self) -> (r: String)
        ensures
            exists|now: i64| r@ == since_text(#[trigger] since(now, self.last_seen) / 1000),
    {
        self.last_seen_string_at(now_millis())
    }
}

/// `post` is device record `pre` (a fresh one when `None`) after a message of
/// `size` bytes on `topic` at `now`.
pub open spec fn device_after(
    rules: HealthRules,
    pre: Option<DeviceHealth>,
    post: DeviceHealth,
    id: Seq<char>,
    topic: Seq<char>,
    size: usize,
    now: i64,
) -> bool {
    let count0: u64 = match pre { Some(d) => d.message_count, None => 0 };
    let recent0 = match pre { Some(d) => d.recent_messages@, None => Seq::<i64>::empty() };
    let type0 = match pre { Some(d) => opt_view(d.device_type), None => None };
    let topics0 = match pre { Some(d) => views(d.topics@), None => Seq::<Seq<char>>::empty() };
    let count1: u64 = if count0 < u64::MAX { (count0 + 1) as u64 } else { count0 };
    let recent1 = after(recent0.push(now), now - rules.rate_window_secs * 1000);
    &&& post.device_id@ == id
    &&& post.message_count == count1
    &&& post.last_seen == now
    &&& post.last_payload_size == size
    &&& post.recent_messages@ == recent1
    &&& opt_view(post.device_type) == if type0 is Some { type0 } else { device_type_spec(topic) }
    &&& views(post.topics@) == if topics0.contains(topic) { topics0 } else { topics0.push(topic) }
    &&& post.status == classify(rules, recent1.len(), 0, count1)
}

/// Health records by device id.
#[derive(Debug)]
pub struct DeviceTracker {
    pub devices: Vec<(String, DeviceHealth)>,
    pub rules: HealthRules,
}

pub open spec fn count_status(s: Seq<(String, DeviceHealth)>, st: HealthStatus) -> nat
    decreases s.len(),
{
    if s.len() == 0 {
        0
    } else {
        count_status(s.drop_last(), st) + if s.last().1.status == st { 1nat } else { 0nat }
    }
}

/// `post` is `pre` after a message of `size` bytes on `topic` at `now`: the
/// device the topic names (if any) is created or updated as `device_after`
/// says; every other device stays as it is.
pub open spec fn message_effect(pre: DeviceTracker, post: DeviceTracker, topic: Seq<char>, size: usize, now: i64) -> bool {
    &&& post.rules == pre.rules
    &&& device_id_spec(topic) is None ==> post.devices == pre.devices
    &&& device_id_spec(topic) matches Some(id) ==> {
        &&& keyed(post.devices@).dom() == keyed(pre.devices@).dom().insert(id)
        &&& forall|k: Seq<char>|
            k != id && #[trigger] keyed(pre.devices@).contains_key(k) ==> keyed(post.devices@)[k]
                == keyed(pre.devices@)[k]
        &&& device_after(
            pre.rules,
            if keyed(pre.devices@).contains_key(id) {
                Some(keyed(pre.devices@)[id])
            } else {
                None
            },
            keyed(post.devices@)[id],
            id,
            topic,
            size,
            now,
        )
    }
}

/// `post` is `pre` with every device reclassified as of `now`, from its
/// arrivals in the window ending at `now` and the time since its last message;
/// every other field and the set of devices stay as they are.
pub open spec fn reclassified(pre: DeviceTracker, post: DeviceTracker, now: i64) -> bool {
    &&& post.rules == pre.rules
    &&& post.devices@.len() == pre.devices@.len()
    &&& forall|i: int|
        0 <= i < pre.devices@.len() ==> {
            let a = #[trigger] pre.devices@[i];
            let b = post.devices@[i];
            &&& b.0 == a.0
            &&& b.1.device_id == a.1.device_id
            &&& b.1.message_count == a.1.message_count
            &&& b.1.last_seen == a.1.last_seen
            &&& b.1.recent_messages == a.1.recent_messages
            &&& b.1.device_type == a.1.device_type
            &&& b.1.topics == a.1.topics
            &&& b.1.last_payload_size == a.1.last_payload_size
            &&& b.1.status == classify(
                pre.rules,
                after(a.1.recent_messages@, now - pre.rules.rate_window_secs * 1000).len(),
                since(now, a.1.last_seen),
                a.1.message_count,
            )
        }
}

impl DeviceTracker {
    pub open spec fn wf(&self) -> bool {
        &&& unique_keys(self.devices@)
        &&& forall|i: int|
            0 <= i < self.devices@.len() ==> (#[trigger] self.devices@[i]).1.device_id@
                == self.devices@[i].0@
    }

    /// A tracker with a 60 s window, healthy from 1 message per minute,
    /// warning from 0.1, stale after 300 s of silence.
    pub fn new() -> (r: Self)
        ensures
            r.wf(),
            r.devices@.len() == 0,
            r.rules == (HealthRules {
                rate_window_secs: 60,
                healthy_per_min_milli: 1000,
                warning_per_min_milli: 100,
                stale_secs: 300,
            }),
    {
        DeviceTracker {
            devices: Vec::new(),
            rules: HealthRules {
                rate_window_secs: 60,
                healthy_per_min_milli: 1000,
                warning_per_min_milli: 100,
                stale_secs: 300,
            },
        }
    }

    /// Counts a message of `payload_size` bytes on `topic` at `now` for the
    /// device that the topic names; a topic that names none changes nothing.
    pub fn process_message_at(&mut self, topic: &str, payload_size: usize, now: i64)
        requires
            old(self).wf(),
        ensures
            final(self).wf(),
            message_effect(*old(self), *final(self), topic@, payload_size, now),
    {
        let id = match extract_device_id(topic) {
            Some(id) => id,
            None => return,
        };
        let dtype = extract_device_type(topic);
        let rules = self.rules;
        let ghost pre = self.devices@;
        let (idx, mut dev) = match find_key(&self.devices, id.as_str()) {
            Some(i) => {
                proof {
                    lemma_keyed_has(pre, i as int);
                }
                let (k, d) = self.devices.remove(i);
                (Some(i), d)
            },
            None => (None, DeviceHealth::new_at(id.clone(), now)),
        };
        let ghost d0 = dev;
        if dev.message_count < u64::MAX {
            dev.message_count = dev.message_count + 1;
        }
        dev.last_seen = now;
        dev.last_payload_size = payload_size;
        dev.recent_messages.push(now);
        if dev.device_type.is_none() {
            dev.device_type = dtype;
        }
        let t = String::from_str(topic);
        if !string_listed(dev.topics.as_slice(), &t) {
            dev.topics.push(t);
            proof {
                assert(views(dev.topics@) =~= views(d0.topics@).push(topic@));
            }
        }
        let cutoff: i128 = now as i128 - (rules.rate_window_secs as i128) * 1000;
        dev.recent_messages = keep_after(&dev.recent_messages, cutoff);
        dev.status = classify_exec(rules, dev.recent_messages.len(), 0, dev.message_count);
        let ghost dv = dev;
        proof {
            let pre_rec = if keyed(pre).contains_key(id@) { Some(keyed(pre)[id@]) } else { None::<DeviceHealth> };
            if idx is Some {
                let i = idx.unwrap();
                assert(pre[i as int].1.device_id@ == pre[i as int].0@);
                assert(pre_rec == Some(d0));
                assert(d0.device_id@ == id@);
            } else {
                assert(pre_rec is None);
                assert(views(d0.topics@) =~= Seq::<Seq<char>>::empty());
                assert(d0.recent_messages@ =~= Seq::<i64>::empty());
            }
            assert(device_after(rules, pre_rec, dv, id@, topic@, payload_size, now));
        }
        match idx {
            Some(i) => {
                let ghost e = (id, dv);
                proof {
                    assert(pre[i as int].0@ == id@);
                    lemma_keyed_update(pre, i as int, e);
                }
                self.devices.insert(i, (id, dev));
                proof {
                    assert(self.devices@ =~= pre.update(i as int, e));
                    let b = self.devices@;
                    assert forall|x: int| 0 <= x < b.len() implies (#[trigger] b[x]).1.device_id@ == b[x].0@ by {
                        if x != i {
                            assert(b[x] == pre[x]);
                        }
                    }
                }
            },
            None => {
                let ghost e = (id, dv);
                proof {
                    lemma_keyed_keys(pre, id@);
                    lemma_keyed_push(pre, e);
                }
                self.devices.push((id, dev));
                proof {
                    let b = self.devices@;
                    assert(b == pre.push(e));
                    assert forall|a: int, c: int| 0 <= a < c < b.len() implies b[a].0@ != b[c].0@ by {
                        if c < pre.len() {
                            assert(pre[a].0@ != pre[c].0@);
                        }
                    }
                    assert forall|x: int| 0 <= x < b.len() implies (#[trigger] b[x]).1.device_id@ == b[x].0@ by {
                        if x < pre.len() {
                            assert(b[x] == pre[x]);
                        }
                    }
                }
            },
        }
        proof {
            assert(keyed(self.devices@).dom() =~= keyed(pre).dom().insert(id@));
        }
    }

    /// Counts a message of `payload_size` bytes on `topic` now.
    pub fn process_message(&mut self, topic: &str, payload_size: usize)
        requires
            old(self).wf(),
        ensures
            final(self).wf(),
            exists|now: i64| #[trigger] message_effect(*old(self), *final(self), topic@, payload_size, now),
    {
        self.process_message_at(topic, payload_size, now_millis());
    }

    /// Number of known devices.
    pub fn device_count(&self) -> (r: usize)
        requires
            self.wf(),
        ensures
            r == keyed(self.devices@).len(),
    {
        proof {
            lemma_keyed_len(self.devices@);
        }
        self.devices.len()
    }

    /// Number of devices in each class: healthy, warning, stale, unknown.
    pub fn count_by_status(&self) -> (r: (usize, usize, usize, usize))
        ensures
            r.0 == count_status(self.devices@, HealthStatus::Healthy),
            r.1 == count_status(self.devices@, HealthStatus::Warning),
            r.2 == count_status(self.devices@, HealthStatus::Stale),
            r.3 == count_status(self.devices@, HealthStatus::Unknown),
    {
        let mut h: usize = 0;
        let mut w: usize = 0;
        let mut st: usize = 0;
        let mut u: usize = 0;
        let mut i: usize = 0;
        proof {
            assert(self.devices@.take(0) =~= Seq::<(String, DeviceHealth)>::empty());
        }
        while i < self.devices.len()
            invariant
                i <= self.devices@.len(),
                h == count_status(self.devices@.take(i as int), HealthStatus::Healthy),
                w == count_status(self.devices@.take(i as int), HealthStatus::Warning),
                st == count_status(self.devices@.take(i as int), HealthStatus::Stale),
                u == count_status(self.devices@.take(i as int), HealthStatus::Unknown),
                h + w + st + u == i,
            decreases self.devices.len() - i,
        {
            proof {
                assert(self.devices@.take(i + 1).drop_last() =~= self.devices@.take(i as int));
            }
            match self.devices[i].1.status {
                HealthStatus::Healthy => h = h + 1,
                HealthStatus::Warning => w = w + 1,
                HealthStatus::Stale => st = st + 1,
                HealthStatus::Unknown => u = u + 1,
            }
            i = i + 1;
        }
        proof {
            assert(self.devices@.take(i as int) =~= self.devices@);
        }
        (h, w, st, u)
    }

    /// Reclassifies every device as of `now`, from the arrivals in the window
    /// ending at `now` and the time since its last message.
    pub fn update_all_statuses_at(&mut self, now: i64)
        requires
            old(self).wf(),
        ensures
            final(self).wf(),
            reclassified(*old(self), *final(self), now),
    {
        let rules = self.rules;
        let cutoff: i128 = now as i128 - (rules.rate_window_secs as i128) * 1000;
        let mut i: usize = 0;
        while i < self.devices.len()
            invariant
                i <= self.devices@.len(),
                self.devices@.len() == old(self).devices@.len(),
                self.rules == old(self).rules,
                rules == old(self).rules,
                cutoff == now - rules.rate_window_secs * 1000,
                forall|x: int| 0 <= x < self.devices@.len() ==> (#[trigger] self.devices@[x]).0 == old(self).devices@[x].0,
                forall|x: int| i <= x < self.devices@.len() ==> (#[trigger] self.devices@[x]) == old(self).devices@[x],
                forall|x: int|
                    0 <= x < i ==> {
                        let pre = #[trigger] old(self).devices@[x];
                        let post = self.devices@[x];
                        &&& post.1.device_id == pre.1.device_id
                        &&& post.1.message_count == pre.1.message_count
                        &&& post.1.last_seen == pre.1.last_seen
                        &&& post.1.recent_messages == pre.1.recent_messages
                        &&& post.1.device_type == pre.1.device_type
                        &&& post.1.topics == pre.1.topics
                        &&& post.1.last_payload_size == pre.1.last_payload_size
                        &&& post.1.status == classify(
                            rules,
                            after(pre.1.recent_messages@, now - rules.rate_window_secs * 1000).len(),
                            since(now, pre.1.last_seen),
                            pre.1.message_count,
                        )
                    },
            decreases self.devices.len() - i,
        {
            let recent = keep_after(&self.devices[i].1.recent_messages, cutoff);
            let since_ms = self.devices[i].1.time_since_last_at(now);
            let count = self.devices[i].1.message_count;
            let status = classify_exec(rules, recent.len(), since_ms, count);
            let ghost before = self.devices@;
            self.devices[i].1.status = status;
            proof {
                assert forall|y: int| 0 <= y < self.devices@.len() && y != i implies #[trigger] self.devices@[y] == before[y] by {}
            }
            i = i + 1;
        }
        proof {
            assert forall|a: int, b: int| 0 <= a < b < self.devices@.len() implies self.devices@[a].0@ != self.devices@[b].0@ by {
                assert(self.devices@[a].0 == old(self).devices@[a].0);
                assert(self.devices@[b].0 == old(self).devices@[b].0);
            }
            assert forall|x: int| 0 <= x < self.devices@.len() implies (#[trigger] self.devices@[x]).1.device_id@ == self.devices@[x].0@ by {
                assert(old(self).devices@[x].1.device_id@ == old(self).devices@[x].0@);
            }
        }
    }

    /// Reclassifies every device as of now.
    pub fn update_all_statuses(&mut self)
        requires
            old(self).wf(),
        ensures
            final(self).wf(),
            exists|now: i64| #[trigger] reclassified(*old(self), *final(self), now),
    {
        self.update_all_statuses_at(now_millis());
    }

    /// Whether `d` is one of the records.
    pub open spec fn holds(&self, d: DeviceHealth) -> bool {
        exists|i: int| 0 <= i < self.devices@.len() && d == #[trigger] self.devices@[i].1
    }

    /// Every device, the most recently seen first.
    pub fn get_devices(&self) -> (r: Vec<&DeviceHealth>)
        ensures
            r@.len() == self.devices@.len(),
            forall|a: int, b: int| 0 <= a < b < r@.len() ==> r@[a].last_seen >= r@[b].last_seen,
            forall|j: int| 0 <= j < r@.len() ==> self.holds(*#[trigger] r@[j]),
    {
        let mut out: Vec<&DeviceHealth> = Vec::new();
        let mut i: usize = 0;
        while i < self.devices.len()
            invariant
                i <= self.devices@.len(),
                out@.len() == i,
                forall|a: int, b: int| 0 <= a < b < out@.len() ==> out@[a].last_seen >= out@[b].last_seen,
                forall|j: int| 0 <= j < out@.len() ==> self.holds(*#[trigger] out@[j]),
            decreases self.devices.len() - i,
        {
            let d = &self.devices[i].1;
            let mut pos: usize = 0;
            while pos < out.len() && out[pos].last_seen >= d.last_seen
                invariant
                    pos <= out@.len(),
                    forall|a: int| 0 <= a < pos ==> out@[a].last_seen >= d.last_seen,
                decreases out.len() - pos,
            {
                pos = pos + 1;
            }
            let ghost prev = out@;
            proof {
                assert forall|a: int| pos <= a < prev.len() implies prev[a].last_seen < d.last_seen by {
                    if a > pos {
                        assert(prev[pos as int].last_seen >= prev[a].last_seen);
                    }
                }
            }
            out.insert(pos, d);
            proof {
                assert(out@ == prev.insert(pos as int, d));
                assert forall|j: int| 0 <= j < out@.len() implies self.holds(*#[trigger] out@[j]) by {
                    if j < pos {
                        assert(out@[j] == prev[j]);
                    } else if j == pos {
                        assert(*out@[j] == self.devices@[i as int].1);
                    } else {
                        assert(out@[j] == prev[j - 1]);
                    }
                }
                assert forall|a: int, b: int| 0 <= a < b < out@.len() implies out@[a].last_seen >= out@[b].last_seen by {
                    if b < pos {
                        assert(out@[a] == prev[a] && out@[b] == prev[b]);
                    } else if b == pos {
                        assert(out@[a] == prev[a]);
                    } else if a < pos {
                        assert(out@[a] == prev[a] && out@[b] == prev[b - 1]);
                    } else if a == pos {
                        assert(out@[b] == prev[b - 1]);
                    } else {
                        assert(out@[a] == prev[a - 1] && out@[b] == prev[b - 1]);
                    }
                }
            }
            i = i + 1;
        }
        out
    }
}

} // verus!
