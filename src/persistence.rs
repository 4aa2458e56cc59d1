//! What the user keeps between sessions: starred topics and devices, the last
//! topic, and saved metric definitions.

use vstd::prelude::*;
use crate::wildcard::views;

verus! {

/// A saved metric definition.
#[derive(Debug)]
pub struct TrackedMetric {
    pub topic_pattern: String,
    pub field_path: String,
    pub label: String,
}

/// The user's saved choices.
#[derive(Debug)]
pub struct UserData {
    /// Each starred topic once.
    pub starred_topics: Vec<String>,
    /// Each starred device once.
    pub starred_devices: Vec<String>,
    pub last_topic: Option<String>,
    pub tracked_metrics: Vec<TrackedMetric>,
}

pub open spec fn no_repeats(s: Seq<Seq<char>>) -> bool {
    forall|i: int, j: int| 0 <= i < j < s.len() ==> s[i] != s[j]
}

/// The definitions of `s` not labelled `label`, in order.
pub open spec fn without_label(s: Seq<TrackedMetric>, label: Seq<char>) -> Seq<TrackedMetric>
    decreases s.len(),
{
    if s.len() == 0 {
        s
    } else {
        let rest = without_label(s.drop_last(), label);
        if s.last().label@ == label {
            rest
        } else {
            rest.push(s.last())
        }
    }
}

fn position(list: &Vec<String>, x: &str) -> (r: Option<usize>)
    ensures
        match r {
            Some(i) => i < list@.len() && list@[i as int]@ == x@ && views(list@).contains(x@),
            None => !views(list@).contains(x@),
        },
{
    let target = String::from_str(x);
    let mut i: usize = 0;
    while i < list.len()
        invariant
            i <= list@.len(),
            target@ == x@,
            forall|k: int| 0 <= k < i ==> list@[k]@ != x@,
        decreases list.len() - i,
    {
        if list[i] == target {
            assert(views(list@)[i as int] == x@);
            return Some(i);
        }
        i = i + 1;
    }
    proof {
        if views(list@).contains(x@) {
            let k = choose|k: int| 0 <= k < views(list@).len() && #[trigger] views(list@)[k] == x@;
            assert(list@[k]@ == x@);
        }
    }
    None
}

/// Adds `x` to `list` when absent, else removes it; true when it was added.
fn toggle_in(list: &mut Vec<String>, x: &str) -> (r: bool)
    requires
        no_repeats(views(old(list)@)),
    ensures
        no_repeats(views(final(list)@)),
        r == !views(old(list)@).contains(x@),
        views(final(list)@).contains(x@) == r,
        forall|y: Seq<char>| y != x@ ==> views(final(list)@).contains(y) == views(old(list)@).contains(y),
{
    let ghost pre = views(list@);
    match position(list, x) {
        Some(i) => {
            list.remove(i);
            proof {
                let post = views(list@);
                assert(post =~= pre.remove(i as int));
                assert(pre[i as int] == x@);
                assert(!post.contains(x@)) by {
                    if post.contains(x@) {
                        let k = choose|k: int| 0 <= k < post.len() && post[k] == x@;
                        if k < i {
                            assert(pre[k] == x@);
                        } else {
                            assert(pre[k + 1] == x@);
                        }
                    }
                }
                assert forall|y: Seq<char>| y != x@ implies post.contains(y) == pre.contains(y) by {
                    if pre.contains(y) {
                        let k = choose|k: int| 0 <= k < pre.len() && pre[k] == y;
                        if k < i {
                            assert(post[k] == y);
                        } else if k > i {
                            assert(post[k - 1] == y);
                        }
                    }
                    if post.contains(y) {
                        let k = choose|k: int| 0 <= k < post.len() && post[k] == y;
                        if k < i {
                            assert(pre[k] == y);
                        } else {
                            assert(pre[k + 1] == y);
                        }
                    }
                }
                assert forall|a: int, b: int| 0 <= a < b < post.len() implies post[a] != post[b] by {
                    let a1 = if a < i { a } else { a + 1 };
                    let b1 = if b < i { b } else { b + 1 };
                    assert(post[a] == pre[a1] && post[b] == pre[b1]);
                }
            }
            false
        },
        None => {
            list.push(String::from_str(x));
            proof {
                let post = views(list@);
                assert(post =~= pre.push(x@));
                assert(post[post.len() - 1] == x@);
                assert forall|y: Seq<char>| y != x@ implies post.contains(y) == pre.contains(y) by {
                    if pre.contains(y) {
                        let k = choose|k: int| 0 <= k < pre.len() && pre[k] == y;
                        assert(post[k] == y);
                    }
                    if post.contains(y) {
                        let k = choose|k: int| 0 <= k < post.len() && post[k] == y;
                        assert(pre[k] == y);
                    }
                }
            }
            true
        },
    }
}

impl Default for UserData {
    fn default() -> (r: Self)
        ensures
            r.wf(),
            r.starred_topics@.len() == 0,
            r.starred_devices@.len() == 0,
            r.last_topic is None,
            r.tracked_metrics@.len() == 0,
    {
        UserData::new()
    }
}

impl UserData {
    pub open spec fn wf(&self) -> bool {
        no_repeats(views(self.starred_topics@)) && no_repeats(views(self.starred_devices@))
    }

    /// Nothing saved.
    pub fn new() -> (r: Self)
        ensures
            r.wf(),
            r.starred_topics@.len() == 0,
            r.starred_devices@.len() == 0,
            r.last_topic is None,
            r.tracked_metrics@.len() == 0,
    {
        UserData {
            starred_topics: Vec::new(),
            starred_devices: Vec::new(),
            last_topic: None,
            tracked_metrics: Vec::new(),
        }
    }

    /// Stars `topic` when it is not starred, else unstars it; true when it is
    /// starred afterwards.
    pub fn toggle_star(&mut self, topic: &str) -> (r: bool)
        requires
            old(self).wf(),
        ensures
            final(self).wf(),
            r == !views(old(self).starred_topics@).contains(topic@),
            views(final(self).starred_topics@).contains(topic@) == r,
            forall|y: Seq<char>|
                y != topic@ ==> views(final(self).starred_topics@).contains(y) == views(
                    old(self).starred_topics@,
                ).contains(y),
            final(self).starred_devices == old(self).starred_devices,
    {
        toggle_in(&mut self.starred_topics, topic)
    }

    pub fn is_starred(&self, topic: &str) -> (r: bool)
        ensures
            r == views(self.starred_topics@).contains(topic@),
    {
        position(&self.starred_topics, topic).is_some()
    }

    /// Stars device `device_id` when it is not starred, else unstars it; true
    /// when it is starred afterwards.
    pub fn toggle_device_star(&mut self, device_id: &str) -> (r: bool)
        requires
            old(self).wf(),
        ensures
            final(self).wf(),
            r == !views(old(self).starred_devices@).contains(device_id@),
            views(final(self).starred_devices@).contains(device_id@) == r,
            forall|y: Seq<char>|
                y != device_id@ ==> views(final(self).starred_devices@).contains(y) == views(
                    old(self).starred_devices@,
                ).contains(y),
            final(self).starred_topics == old(self).starred_topics,
    {
        toggle_in(&mut self.starred_devices, device_id)
    }

    pub fn is_device_starred(&self, device_id: &str) -> (r: bool)
        ensures
            r == views(self.starred_devices@).contains(device_id@),
    {
        position(&self.starred_devices, device_id).is_some()
    }

    /// Saves a metric definition, replacing those with the same label.
    pub fn add_tracked_metric(&mut self, topic_pattern: String, field_path: String, label: String)
        ensures
            final(self).tracked_metrics@ == without_label(old(self).tracked_metrics@, label@).push(
                TrackedMetric { topic_pattern, field_path, label },
            ),
            final(self).starred_topics == old(self).starred_topics,
            final(self).starred_devices == old(self).starred_devices,
    {
        self.remove_tracked_metric(label.as_str());
        self.tracked_metrics.push(TrackedMetric { topic_pattern, field_path, label });
    }

    /// Drops the metric definitions labelled `label`.
    pub fn remove_tracked_metric(&mut self, label: &str)
        ensures
            final(self).tracked_metrics@ == without_label(old(self).tracked_metrics@, label@),
            final(self).starred_topics == old(self).starred_topics,
            final(self).starred_devices == old(self).starred_devices,
            final(self).last_topic == old(self).last_topic,
    {
        let target = String::from_str(label);
        let mut kept: Vec<TrackedMetric> = Vec::new();
        let ghost all = self.tracked_metrics@;
        let mut old_list: Vec<TrackedMetric> = Vec::new();
        std::mem::swap(&mut old_list, &mut self.tracked_metrics);
        proof {
            assert(old_list@ == all);
            assert(all.take(0) =~= Seq::<TrackedMetric>::empty());
        }
        let mut i: usize = 0;
        let n = old_list.len();
        let mut rest = old_list;
        proof {
            assert(rest@ =~= all.skip(0));
        }
        while i < n
            invariant
                n == all.len(),
                i <= n,
                target@ == label@,
                rest@ == all.skip(i as int),
                kept@ == without_label(all.take(i as int), label@),
            decreases n - i,
        {
            let m = rest.remove(0);
            proof {
                assert(m == all[i as int]);
                assert(rest@ =~= all.skip(i + 1));
                assert(all.take(i + 1).drop_last() =~= all.take(i as int));
            }
            if m.label != target {
                kept.push(m);
            }
            i = i + 1;
        }
        proof {
            assert(all.take(i as int) =~= all);
        }
        self.tracked_metrics = kept;
    }
}

} // verus!
