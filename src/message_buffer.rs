//! Bounded per-topic message log: at most `max_per_topic` messages per topic,
//! the oldest evicted first.

use vstd::prelude::*;
use std::collections::VecDeque;
use crate::keyed::{
    keyed, unique_keys, find_key, lemma_keyed_has, lemma_keyed_keys, lemma_keyed_len, lemma_keyed_push,
    lemma_keyed_remove, lemma_keyed_update,
};
use crate::message::MqttMessage;

verus! {

/// The log of one topic after `m` arrives: the oldest message leaves first
/// when `cap` are already held.
pub open spec fn log_push(q: Seq<MqttMessage>, m: MqttMessage, cap: nat) -> Seq<MqttMessage> {
    if q.len() >= cap {
        q.drop_first().push(m)
    } else {
        q.push(m)
    }
}

/// The log after each of `ms` arrives in turn.
pub open spec fn log_after(q: Seq<MqttMessage>, ms: Seq<MqttMessage>, cap: nat) -> Seq<MqttMessage>
    decreases ms.len(),
{
    if ms.len() == 0 {
        q
    } else {
        log_push(log_after(q, ms.drop_last(), cap), ms.last(), cap)
    }
}

/// Total number of messages over the per-topic logs.
pub open spec fn total_len(s: Seq<(String, VecDeque<MqttMessage>)>) -> int
    decreases s.len(),
{
    if s.len() == 0 {
        0
    } else {
        total_len(s.drop_last()) + s.last().1@.len()
    }
}

pub proof fn lemma_total_len_update(
    s: Seq<(String, VecDeque<MqttMessage>)>,
    i: int,
    e: (String, VecDeque<MqttMessage>),
)
    requires
        0 <= i < s.len(),
    ensures
        total_len(s.update(i, e)) == total_len(s) - s[i].1@.len() + e.1@.len(),
    decreases s.len(),
{
    let u = s.update(i, e);
    if i == s.len() - 1 {
        assert(u.drop_last() =~= s.drop_last());
    } else {
        assert(u.drop_last() =~= s.drop_last().update(i, e));
        lemma_total_len_update(s.drop_last(), i, e);
    }
}

pub proof fn lemma_total_len_remove(s: Seq<(String, VecDeque<MqttMessage>)>, i: int)
    requires
        0 <= i < s.len(),
    ensures
        total_len(s.remove(i)) == total_len(s) - s[i].1@.len(),
    decreases s.len(),
{
    let r = s.remove(i);
    if i == s.len() - 1 {
        assert(r =~= s.drop_last());
    } else {
        assert(r.drop_last() =~= s.drop_last().remove(i));
        lemma_total_len_remove(s.drop_last(), i);
    }
}

pub proof fn lemma_total_len_nonneg(s: Seq<(String, VecDeque<MqttMessage>)>)
    ensures
        total_len(s) >= 0,
    decreases s.len(),
{
    if s.len() > 0 {
        lemma_total_len_nonneg(s.drop_last());
    }
}

/// `post` is `pre` after `m` arrived: `m`'s topic log is `log_push`ed, the
/// other logs stay, and the total grows by one unless an eviction balanced it.
pub open spec fn push_effect(pre: MessageBuffer, post: MessageBuffer, m: MqttMessage) -> bool {
    &&& post.max_per_topic == pre.max_per_topic
    &&& keyed(post.buffers@).dom() == keyed(pre.buffers@).dom().insert(m.topic@)
    &&& post.log_of(m.topic@) == log_push(pre.log_of(m.topic@), m, pre.max_per_topic as nat)
    &&& forall|t: Seq<char>| t != m.topic@ ==> #[trigger] post.log_of(t) == pre.log_of(t)
    &&& post.total_stored == pre.total_stored + if pre.log_of(m.topic@).len() < pre.max_per_topic {
        1int
    } else {
        0int
    }
}

/// Messages per topic, each topic's log bounded.
#[derive(Debug)]
pub struct MessageBuffer {
    pub buffers: Vec<(String, VecDeque<MqttMessage>)>,
    pub max_per_topic: usize,
    pub total_stored: usize,
}

impl MessageBuffer {
    pub open spec fn wf(&self) -> bool {
        &&& unique_keys(self.buffers@)
        &&& self.max_per_topic > 0
        &&& forall|i: int|
            0 <= i < self.buffers@.len() ==> (#[trigger] self.buffers@[i]).1@.len()
                <= self.max_per_topic
        &&& self.total_stored == total_len(self.buffers@)
    }

    /// The log of each topic.
    pub open spec fn logs(&self) -> Map<Seq<char>, Seq<MqttMessage>> {
        keyed(self.buffers@).map_values(|q: VecDeque<MqttMessage>| q@)
    }

    /// The log of `topic`; empty when the topic has none.
    pub open spec fn log_of(&self, topic: Seq<char>) -> Seq<MqttMessage> {
        if keyed(self.buffers@).contains_key(topic) {
            keyed(self.buffers@)[topic]@
        } else {
            Seq::empty()
        }
    }

    /// An empty log keeping `max_per_topic` messages per topic; `None` for a
    /// capacity of zero.
    pub fn new(max_per_topic: usize) -> (r: Option<Self>)
        ensures
            r is None <==> max_per_topic == 0,
            r matches Some(b) ==> b.wf() && b.buffers@.len() == 0 && b.max_per_topic
                == max_per_topic,
    {
        if max_per_topic == 0 {
            return None;
        }
        Some(MessageBuffer { buffers: Vec::new(), max_per_topic, total_stored: 0 })
    }

    /// Appends `message` to its topic's log, evicting that log's oldest
    /// message first when it is full.
    pub fn push(&mut self, message: MqttMessage)
        requires
            old(self).wf(),
            old(self).total_stored < usize::MAX,
        ensures
            final(self).wf(),
            push_effect(*old(self), *final(self), message),
    {
        let ghost topic = message.topic@;
        let ghost m = message;
        let ghost pre = self.buffers@;
        match find_key(&self.buffers, message.topic.as_str()) {
            Some(i) => {
                proof {
                    lemma_keyed_has(pre, i as int);
                    lemma_total_len_nonneg(pre);
                }
                let (k, mut q) = self.buffers.remove(i);
                proof {
                    lemma_keyed_remove(pre, i as int);
                    lemma_total_len_remove(pre, i as int);
                    lemma_total_len_nonneg(pre.remove(i as int));
                }
                let ghost q0 = q@;
                if q.len() >= self.max_per_topic {
                    q.pop_front();
                    self.total_stored = self.total_stored - 1;
                }
                q.push_back(message);
                self.total_stored = self.total_stored + 1;
                assert(q@ =~= log_push(q0, m, self.max_per_topic as nat));
                let ghost e = (k, q);
                self.buffers.insert(i, (k, q));
                proof {
                    assert(self.buffers@ =~= pre.update(i as int, e));
                    lemma_keyed_update(pre, i as int, e);
                    lemma_total_len_update(pre, i as int, e);
                    let b = self.buffers@;
                    assert forall|j: int| 0 <= j < b.len() implies (#[trigger] b[j]).1@.len()
                        <= self.max_per_topic by {
                        if j != i {
                            assert(b[j] == pre[j]);
                        }
                    }
                    assert(keyed(b).dom() =~= keyed(pre).dom().insert(topic));
                }
            },
            None => {
                let mut q: VecDeque<MqttMessage> = VecDeque::new();
                let k = message.topic.clone();
                q.push_back(message);
                assert(q@ =~= log_push(Seq::empty(), m, self.max_per_topic as nat));
                let ghost e = (k, q);
                proof {
                    lemma_keyed_keys(pre, topic);
                }
                self.buffers.push((k, q));
                self.total_stored = self.total_stored + 1;
                proof {
                    let b = self.buffers@;
                    assert(b == pre.push(e));
                    assert(b.drop_last() =~= pre);
                    lemma_keyed_push(pre, e);
                    assert forall|a: int, c: int| 0 <= a < c < b.len() implies b[a].0@
                        != b[c].0@ by {
                        if c < pre.len() {
                            assert(pre[a].0@ != pre[c].0@);
                        }
                    }
                    assert forall|j: int| 0 <= j < b.len() implies (#[trigger] b[j]).1@.len()
                        <= self.max_per_topic by {
                        if j < pre.len() {
                            assert(b[j] == pre[j]);
                        }
                    }
                    assert(keyed(b).dom() =~= keyed(pre).dom().insert(topic));
                }
            },
        }
    }

    /// The messages of `topic`, newest first.
    pub fn get_messages(&self, topic: &str) -> (r: Vec<&MqttMessage>)
        requires
            self.wf(),
        ensures
            r@.len() == self.log_of(topic@).len(),
            forall|j: int|
                0 <= j < r@.len() ==> *r@[j] == self.log_of(topic@)[r@.len() - 1 - j],
    {
        let mut out: Vec<&MqttMessage> = Vec::new();
        match find_key(&self.buffers, topic) {
            Some(i) => {
                proof {
                    lemma_keyed_has(self.buffers@, i as int);
                }
                let q = &self.buffers[i].1;
                let n = q.len();
                let mut j: usize = 0;
                while j < n
                    invariant
                        n == q@.len(),
                        j <= n,
                        out@.len() == j,
                        forall|x: int| 0 <= x < j ==> *out@[x] == q@[n - 1 - x],
                    decreases n - j,
                {
                    out.push(&q[n - 1 - j]);
                    j = j + 1;
                }
            },
            None => {},
        }
        out
    }

    /// The newest message of `topic`.
    pub fn get_latest(&self, topic: &str) -> (r: Option<&MqttMessage>)
        requires
            self.wf(),
        ensures
            self.log_of(topic@).len() == 0 ==> r is None,
            self.log_of(topic@).len() > 0 ==> r == Some(&self.log_of(topic@).last()),
    {
        match find_key(&self.buffers, topic) {
            Some(i) => {
                proof {
                    lemma_keyed_has(self.buffers@, i as int);
                }
                let q = &self.buffers[i].1;
                if q.len() == 0 {
                    None
                } else {
                    Some(&q[q.len() - 1])
                }
            },
            None => None,
        }
    }

    /// Number of messages held for `topic`.
    pub fn count_for_topic(&self, topic: &str) -> (r: usize)
        requires
            self.wf(),
        ensures
            r == self.log_of(topic@).len(),
    {
        match find_key(&self.buffers, topic) {
            Some(i) => {
                proof {
                    lemma_keyed_has(self.buffers@, i as int);
                }
                self.buffers[i].1.len()
            },
            None => 0,
        }
    }

    /// Messages held over all topics.
    pub fn total_stored(&self) -> (r: usize)
        requires
            self.wf(),
        ensures
            r == total_len(self.buffers@),
    {
        self.total_stored
    }

    /// Number of topics with a log.
    pub fn topic_count(&self) -> (r: usize)
        requires
            self.wf(),
        ensures
            r == keyed(self.buffers@).len(),
    {
        proof {
            lemma_keyed_len(self.buffers@);
        }
        self.buffers.len()
    }

    /// Whether `m` is held in some topic's log.
    pub open spec fn holds(&self, m: MqttMessage) -> bool {
        exists|i: int, j: int|
            0 <= i < self.buffers@.len() && 0 <= j < self.buffers@[i].1@.len() && m
                == #[trigger] self.buffers@[i].1@[j]
    }

    /// The newest `limit` messages over all topics, newest first (messages
    /// with equal times in topic order).
    pub fn get_recent_all(&self, limit: usize) -> (r: Vec<&MqttMessage>)
        requires
            self.wf(),
        ensures
            r@.len() == if limit < total_len(self.buffers@) { limit as int } else { total_len(
                self.buffers@,
            ) },
            forall|a: int, b: int| 0 <= a < b < r@.len() ==> r@[a].timestamp >= r@[b].timestamp,
            forall|k: int| 0 <= k < r@.len() ==> self.holds(*#[trigger] r@[k]),
    {
        let mut all: Vec<&MqttMessage> = Vec::new();
        let mut i: usize = 0;
        proof {
            assert(self.buffers@.take(0) =~= Seq::<(String, VecDeque<MqttMessage>)>::empty());
        }
        while i < self.buffers.len()
            invariant
                i <= self.buffers@.len(),
                self.wf(),
                all@.len() == total_len(self.buffers@.take(i as int)),
                forall|a: int, b: int| 0 <= a < b < all@.len() ==> all@[a].timestamp >= all@[b].timestamp,
                forall|k: int| 0 <= k < all@.len() ==> self.holds(*#[trigger] all@[k]),
            decreases self.buffers.len() - i,
        {
            let q = &self.buffers[i].1;
            let mut j: usize = 0;
            let ghost base = all@.len();
            proof {
                assert(self.buffers@.take(i + 1).drop_last() =~= self.buffers@.take(i as int));
                lemma_total_len_nonneg(self.buffers@.take(i as int));
            }
            while j < q.len()
                invariant
                    j <= q@.len(),
                    *q == self.buffers@[i as int].1,
                    i < self.buffers@.len(),
                    all@.len() == base + j,
                    forall|a: int, b: int| 0 <= a < b < all@.len() ==> all@[a].timestamp >= all@[b].timestamp,
                    forall|k: int| 0 <= k < all@.len() ==> self.holds(*#[trigger] all@[k]),
                decreases q.len() - j,
            {
                let m = &q[j];
                let mut pos: usize = 0;
                while pos < all.len() && all[pos].timestamp >= m.timestamp
                    invariant
                        pos <= all@.len(),
                        forall|a: int| 0 <= a < pos ==> all@[a].timestamp >= m.timestamp,
                    decreases all.len() - pos,
                {
                    pos = pos + 1;
                }
                let ghost prev = all@;
                proof {
                    assert forall|a: int| pos <= a < prev.len() implies prev[a].timestamp < m.timestamp by {
                        if a > pos {
                            assert(prev[pos as int].timestamp >= prev[a].timestamp);
                        }
                    }
                }
                all.insert(pos, m);
                proof {
                    assert(all@ == prev.insert(pos as int, m));
                    assert(self.holds(*m)) by {
                        assert(*m == self.buffers@[i as int].1@[j as int]);
                    }
                    assert forall|k: int| 0 <= k < all@.len() implies self.holds(*#[trigger] all@[k]) by {
                        if k < pos {
                            assert(all@[k] == prev[k]);
                        } else if k > pos {
                            assert(all@[k] == prev[k - 1]);
                        }
                    }
                    assert forall|a: int, b: int| 0 <= a < b < all@.len() implies all@[a].timestamp >= all@[b].timestamp by {
                        if b < pos {
                            assert(all@[a] == prev[a] && all@[b] == prev[b]);
                        } else if b == pos {
                            assert(all@[a] == prev[a]);
                        } else if a < pos {
                            assert(all@[a] == prev[a] && all@[b] == prev[b - 1]);
                        } else if a == pos {
                            assert(all@[b] == prev[b - 1]);
                        } else {
                            assert(all@[a] == prev[a - 1] && all@[b] == prev[b - 1]);
                        }
                    }
                }
                j = j + 1;
            }
            i = i + 1;
        }
        proof {
            assert(self.buffers@.take(i as int) =~= self.buffers@);
        }
        if all.len() > limit {
            all.truncate(limit);
        }
        all
    }

    /// Drops every topic's log.
    pub fn clear(&mut self)
        requires
            old(self).wf(),
        ensures
            final(self).wf(),
            final(self).buffers@.len() == 0,
            final(self).max_per_topic == old(self).max_per_topic,
    {
        self.buffers.clear();
        self.total_stored = 0;
    }

    /// Drops the log of `topic`.
    pub fn clear_topic(&mut self, topic: &str)
        requires
            old(self).wf(),
        ensures
            final(self).wf(),
            final(self).max_per_topic == old(self).max_per_topic,
            keyed(final(self).buffers@) == keyed(old(self).buffers@).remove(topic@),
    {
        let ghost pre = self.buffers@;
        match find_key(&self.buffers, topic) {
            Some(i) => {
                proof {
                    lemma_keyed_remove(pre, i as int);
                    lemma_total_len_remove(pre, i as int);
                    lemma_total_len_nonneg(pre.remove(i as int));
                }
                let (_, q) = self.buffers.remove(i);
                self.total_stored = self.total_stored - q.len();
                proof {
                    let b = self.buffers@;
                    assert forall|j: int| 0 <= j < b.len() implies (#[trigger] b[j]).1@.len()
                        <= self.max_per_topic by {
                        if j < i {
                            assert(b[j] == pre[j]);
                        } else {
                            assert(b[j] == pre[j + 1]);
                        }
                    }
                }
            },
            None => {
                proof {
                    assert(keyed(pre).remove(topic@) =~= keyed(pre));
                }
            },
        }
    }
}

/// A log keeps the last `min(n, cap)` of the `n` messages that arrived on its
/// topic, in arrival order: pushing `cap + 1` messages evicts exactly the first.
pub proof fn lemma_log_keeps_newest(ms: Seq<MqttMessage>, cap: nat)
    requires
        cap > 0,
    ensures
        log_after(Seq::empty(), ms, cap) == ms.subrange(
            if ms.len() > cap { ms.len() - cap } else { 0 },
            ms.len() as int,
        ),
    decreases ms.len(),
{
    if ms.len() > 0 {
        let p = ms.drop_last();
        lemma_log_keeps_newest(p, cap);
        let lo = if p.len() > cap { p.len() - cap } else { 0 };
        let q = p.subrange(lo, p.len() as int);
        if q.len() >= cap {
            assert(q.drop_first().push(ms.last()) =~= ms.subrange(ms.len() - cap, ms.len() as int));
        } else {
            assert(q.push(ms.last()) =~= ms.subrange(0, ms.len() as int));
        }
    }
}

/// Pushing onto a full log keeps it at its capacity with the oldest message
/// evicted, leaves the total unchanged, and leaves every other log as it was.
pub proof fn lemma_push_full_log(pre: MessageBuffer, post: MessageBuffer, m: MqttMessage)
    requires
        pre.wf(),
        push_effect(pre, post, m),
        pre.log_of(m.topic@).len() == pre.max_per_topic,
    ensures
        post.log_of(m.topic@).len() == pre.max_per_topic,
        post.log_of(m.topic@) == pre.log_of(m.topic@).drop_first().push(m),
        post.total_stored == pre.total_stored,
        forall|t: Seq<char>| t != m.topic@ ==> #[trigger] post.log_of(t) == pre.log_of(t),
{
}

/// No per-topic log ever holds more than its capacity.
pub proof fn lemma_log_bounded(q: Seq<MqttMessage>, ms: Seq<MqttMessage>, cap: nat)
    requires
        cap > 0,
        q.len() <= cap,
    ensures
        log_after(q, ms, cap).len() <= cap,
    decreases ms.len(),
{
    if ms.len() > 0 {
        lemma_log_bounded(q, ms.drop_last(), cap);
    }
}

} // verus!
