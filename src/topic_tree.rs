//! The topic index: a trie over `/`-separated topic segments whose nodes hold
//! message counts, byte counts and the time of the last message.

use vstd::prelude::*;
use crate::keyed::{keyed, unique_keys, lemma_keyed_has, lemma_keyed_keys, lemma_keyed_update, lemma_keyed_push};
use crate::wildcard::{split_on, split_spec, views, lemma_split_injective, lemma_split_nonempty, topic_matches, matches_spec};
use crate::clock::now_millis;

verus! {

/// Code-point order on texts, a proper prefix first.
pub open spec fn text_less(a: Seq<char>, b: Seq<char>) -> bool
    decreases a.len(),
{
    if a.len() == 0 {
        b.len() > 0
    } else if b.len() == 0 {
        false
    } else if a[0] != b[0] {
        (a[0] as int) < (b[0] as int)
    } else {
        text_less(a.drop_first(), b.drop_first())
    }
}

pub proof fn lemma_text_less_irreflexive(a: Seq<char>)
    ensures
        !text_less(a, a),
    decreases a.len(),
{
    if a.len() > 0 {
        lemma_text_less_irreflexive(a.drop_first());
    }
}

pub proof fn lemma_text_less_transitive(a: Seq<char>, b: Seq<char>, c: Seq<char>)
    requires
        text_less(a, b),
        text_less(b, c),
    ensures
        text_less(a, c),
    decreases a.len(),
{
    if a.len() > 0 && b.len() > 0 && c.len() > 0 && a[0] == b[0] && b[0] == c[0] {
        lemma_text_less_transitive(a.drop_first(), b.drop_first(), c.drop_first());
    }
}

pub proof fn lemma_text_less_total(a: Seq<char>, b: Seq<char>)
    requires
        a != b,
    ensures
        text_less(a, b) || text_less(b, a),
    decreases a.len(),
{
    if a.len() > 0 && b.len() > 0 && a[0] == b[0] {
        assert(a.drop_first() != b.drop_first()) by {
            if a.drop_first() == b.drop_first() {
                assert(a =~= seq![a[0]] + a.drop_first());
                assert(b =~= seq![b[0]] + b.drop_first());
            }
        }
        lemma_text_less_total(a.drop_first(), b.drop_first());
    } else if a.len() > 0 && b.len() > 0 {
        assert((a[0] as int) != (b[0] as int));
    } else if a.len() == 0 && b.len() == 0 {
        assert(a =~= b);
    }
}

/// Whether `a` comes before `b` in code-point order.
pub fn compare_less(a: &str, b: &str) -> (r: bool)
    ensures
        r == text_less(a@, b@),
{
    let n = a.unicode_len();
    let m = b.unicode_len();
    let mut i: usize = 0;
    proof {
        assert(a@.skip(0) =~= a@);
        assert(b@.skip(0) =~= b@);
    }
    while i < n && i < m
        invariant
            n == a@.len(),
            m == b@.len(),
            i <= n,
            i <= m,
            text_less(a@, b@) == text_less(a@.skip(i as int), b@.skip(i as int)),
        decreases n - i,
    {
        let x = a.get_char(i);
        let y = b.get_char(i);
        proof {
            assert(a@.skip(i as int)[0] == x);
            assert(b@.skip(i as int)[0] == y);
            assert(a@.skip(i as int).drop_first() =~= a@.skip(i + 1));
            assert(b@.skip(i as int).drop_first() =~= b@.skip(i + 1));
        }
        if x != y {
            return x < y;
        }
        i = i + 1;
    }
    proof {
        if i == 0 {
            assert(a@.skip(0) =~= a@);
            assert(b@.skip(0) =~= b@);
        }
    }
    i < m
}

/// One node of the trie.
#[derive(Debug)]
pub struct TopicNode {
    /// Children by segment, in code-point order of the segment.
    pub children: Vec<(String, TopicNode)>,
    /// Whether a message has landed exactly here.
    pub is_topic: bool,
    pub message_count: u64,
    pub bytes_received: u64,
    /// Unix milliseconds of the last message landed here.
    pub last_message_time: Option<i64>,
}

/// What a node records of its own messages.
pub type NodeStats = (bool, u64, u64, Option<i64>);

pub open spec fn stats_of(n: TopicNode) -> NodeStats {
    (n.is_topic, n.message_count, n.bytes_received, n.last_message_time)
}

pub open spec fn empty_stats() -> NodeStats {
    (false, 0, 0, None)
}

pub open spec fn sat_add(a: u64, b: int) -> u64 {
    if a + b <= u64::MAX {
        (a + b) as u64
    } else {
        u64::MAX
    }
}

/// A message of `size` bytes landed at `now` on a node with stats `s`.
pub open spec fn bumped(s: NodeStats, size: u64, now: i64) -> NodeStats {
    (true, sat_add(s.1, 1), sat_add(s.2, size as int), Some(now))
}

pub open spec fn sorted_keys(s: Seq<(String, TopicNode)>) -> bool {
    forall|i: int, j: int| 0 <= i < j < s.len() ==> text_less(s[i].0@, s[j].0@)
}

/// Children sorted by segment, at every level.
pub open spec fn node_wf(n: TopicNode) -> bool
    decreases n,
{
    sorted_keys(n.children@) && children_wf(n.children@)
}

pub open spec fn children_wf(s: Seq<(String, TopicNode)>) -> bool
    decreases s,
{
    if s.len() == 0 {
        true
    } else {
        children_wf(s.drop_last()) && node_wf(s.last().1)
    }
}

/// The node at `path` below `n`.
pub open spec fn lookup(n: TopicNode, path: Seq<Seq<char>>) -> Option<TopicNode>
    decreases path.len(),
{
    if path.len() == 0 {
        Some(n)
    } else if keyed(n.children@).contains_key(path[0]) {
        lookup(keyed(n.children@)[path[0]], path.drop_first())
    } else {
        None
    }
}

/// The stats of the node at `path` below `n`.
pub open spec fn stats_at(n: TopicNode, path: Seq<Seq<char>>) -> Option<NodeStats> {
    match lookup(n, path) {
        Some(m) => Some(stats_of(m)),
        None => None,
    }
}

/// The stats at `p` after a message of `size` bytes landed at `now` on `segs`:
/// the target is bumped, the nodes on the way exist, the rest is unchanged.
pub open spec fn stats_after(
    before: Option<NodeStats>,
    p: Seq<Seq<char>>,
    segs: Seq<Seq<char>>,
    size: u64,
    now: i64,
) -> Option<NodeStats> {
    let base = match before {
        Some(s) => s,
        None => empty_stats(),
    };
    if p == segs {
        Some(bumped(base, size, now))
    } else if p.len() < segs.len() && p == segs.take(p.len() as int) {
        Some(base)
    } else {
        before
    }
}

pub proof fn lemma_sorted_unique(s: Seq<(String, TopicNode)>)
    requires
        sorted_keys(s),
    ensures
        unique_keys(s),
{
    assert forall|i: int, j: int| 0 <= i < j < s.len() implies s[i].0@ != s[j].0@ by {
        if s[i].0@ == s[j].0@ {
            lemma_text_less_irreflexive(s[i].0@);
        }
    }
}

pub proof fn lemma_children_wf_at(s: Seq<(String, TopicNode)>, i: int)
    requires
        children_wf(s),
        0 <= i < s.len(),
    ensures
        node_wf(s[i].1),
    decreases s.len(),
{
    if i < s.len() - 1 {
        lemma_children_wf_at(s.drop_last(), i);
    }
}

pub proof fn lemma_children_wf_update(s: Seq<(String, TopicNode)>, i: int, e: (String, TopicNode))
    requires
        children_wf(s),
        0 <= i < s.len(),
        node_wf(e.1),
    ensures
        children_wf(s.update(i, e)),
    decreases s.len(),
{
    let u = s.update(i, e);
    if i == s.len() - 1 {
        assert(u.drop_last() =~= s.drop_last());
    } else {
        assert(u.drop_last() =~= s.drop_last().update(i, e));
        lemma_children_wf_update(s.drop_last(), i, e);
    }
}

pub proof fn lemma_children_wf_insert(s: Seq<(String, TopicNode)>, i: int, e: (String, TopicNode))
    requires
        children_wf(s),
        0 <= i <= s.len(),
        node_wf(e.1),
    ensures
        children_wf(s.insert(i, e)),
    decreases s.len(),
{
    let u = s.insert(i, e);
    if i == s.len() {
        assert(u.drop_last() =~= s);
    } else {
        assert(u.drop_last() =~= s.drop_last().insert(i, e));
        lemma_children_wf_insert(s.drop_last(), i, e);
    }
}

pub proof fn lemma_keyed_insert(s: Seq<(String, TopicNode)>, i: int, e: (String, TopicNode))
    requires
        unique_keys(s),
        0 <= i <= s.len(),
        !keyed(s).contains_key(e.0@),
    ensures
        keyed(s.insert(i, e)) == keyed(s).insert(e.0@, e.1),
    decreases s.len(),
{
    let u = s.insert(i, e);
    if i == s.len() {
        assert(u =~= s.push(e));
        lemma_keyed_push(s, e);
    } else {
        assert(u.drop_last() =~= s.drop_last().insert(i, e));
        assert(keyed(s) == keyed(s.drop_last()).insert(s.last().0@, s.last().1));
        assert(!keyed(s.drop_last()).contains_key(e.0@)) by {
            lemma_keyed_keys(s.drop_last(), e.0@);
            lemma_keyed_keys(s, e.0@);
            if keyed(s.drop_last()).contains_key(e.0@) {
                let x = choose|x: int| 0 <= x < s.len() - 1 && s.drop_last()[x].0@ == e.0@;
                assert(s[x].0@ == e.0@);
            }
        }
        lemma_keyed_insert(s.drop_last(), i, e);
        lemma_keyed_keys(s, e.0@);
        assert(s.last().0@ != e.0@);
        assert(keyed(u) =~= keyed(s).insert(e.0@, e.1));
    }
}

pub fn new_node() -> (r: TopicNode)
    ensures
        node_wf(r),
        r.children@.len() == 0,
        stats_of(r) == empty_stats(),
{
    let r = TopicNode {
        children: Vec::new(),
        is_topic: false,
        message_count: 0,
        bytes_received: 0,
        last_message_time: None,
    };
    proof {
        assert(children_wf(r.children@));
    }
    r
}

/// The child of `children` for segment `seg`: `(true, i)` when at `i`, else
/// `(false, i)` with `i` the position where it belongs in order.
fn locate(children: &Vec<(String, TopicNode)>, seg: &String) -> (r: (bool, usize))
    requires
        sorted_keys(children@),
    ensures
        r.0 ==> r.1 < children@.len() && children@[r.1 as int].0@ == seg@,
        !r.0 ==> r.1 <= children@.len() && !keyed(children@).contains_key(seg@) && (forall|
            i: int,
        | 0 <= i < r.1 ==> text_less(children@[i].0@, seg@)) && (forall|i: int|
            r.1 <= i < children@.len() ==> text_less(seg@, children@[i].0@)),
{
    let mut i: usize = 0;
    while i < children.len() && compare_less(children[i].0.as_str(), seg.as_str())
        invariant
            i <= children@.len(),
            forall|k: int| 0 <= k < i ==> text_less(children@[k].0@, seg@),
        decreases children.len() - i,
    {
        i = i + 1;
    }
    if i < children.len() && children[i].0 == *seg {
        return (true, i);
    }
    proof {
        if i < children@.len() {
            lemma_text_less_total(children@[i as int].0@, seg@);
            assert forall|k: int| i <= k < children@.len() implies text_less(seg@, children@[k].0@) by {
                if k > i {
                    lemma_text_less_transitive(seg@, children@[i as int].0@, children@[k].0@);
                }
            }
        }
        lemma_keyed_keys(children@, seg@);
        if keyed(children@).contains_key(seg@) {
            let x = choose|x: int| 0 <= x < children@.len() && children@[x].0@ == seg@;
            if x < i {
                lemma_text_less_irreflexive(seg@);
            } else {
                lemma_text_less_irreflexive(seg@);
            }
        }
    }
    (false, i)
}

proof fn lemma_stats_after_step(
    before: Option<NodeStats>,
    p: Seq<Seq<char>>,
    rest: Seq<Seq<char>>,
    size: u64,
    now: i64,
)
    requires
        p.len() > 0,
        rest.len() > 0,
        p[0] == rest[0],
    ensures
        stats_after(before, p, rest, size, now) == stats_after(
            before,
            p.drop_first(),
            rest.drop_first(),
            size,
            now,
        ),
{
    let q = p.drop_first();
    let r = rest.drop_first();
    assert(p =~= seq![p[0]] + q);
    assert(rest =~= seq![rest[0]] + r);
    assert((p == rest) == (q == r)) by {
        if q == r {
            assert(p =~= rest);
        }
        if p == rest {
            assert(q =~= r);
        }
    }
    if p.len() < rest.len() {
        assert((p == rest.take(p.len() as int)) == (q == r.take(q.len() as int))) by {
            if q == r.take(q.len() as int) {
                assert(p =~= rest.take(p.len() as int));
            }
            if p == rest.take(p.len() as int) {
                assert(q =~= r.take(q.len() as int));
            }
        }
    }
}

proof fn lemma_stats_after_other(
    before: Option<NodeStats>,
    p: Seq<Seq<char>>,
    rest: Seq<Seq<char>>,
    size: u64,
    now: i64,
)
    requires
        p.len() > 0,
        rest.len() > 0,
        p[0] != rest[0],
    ensures
        stats_after(before, p, rest, size, now) == before,
{
    if p == rest {
        assert(p[0] == rest[0]);
    }
    if p.len() < rest.len() && p == rest.take(p.len() as int) {
        assert(p[0] == rest.take(p.len() as int)[0]);
    }
}

proof fn lemma_stats_after_fresh(q: Seq<Seq<char>>, r: Seq<Seq<char>>, n: TopicNode, size: u64, now: i64)
    requires
        n.children@.len() == 0,
        stats_of(n) == empty_stats(),
    ensures
        stats_after(None, q, r, size, now) == stats_after(stats_at(n, q), q, r, size, now),
{
    if q.len() > 0 {
        assert(keyed(n.children@) =~= Map::<Seq<char>, TopicNode>::empty());
    } else {
        if r.len() > 0 {
            assert(q =~= r.take(0));
        } else {
            assert(q =~= r);
        }
    }
}

/// Adds a message of `size` bytes at `now` on the path `segs[i..]` below `node`,
/// creating missing nodes. True when the target was not a topic before.
fn insert_rec(node: &mut TopicNode, segs: &Vec<String>, i: usize, size: u64, now: i64) -> (r: bool)
    requires
        node_wf(*old(node)),
        i <= segs@.len(),
    ensures
        node_wf(*final(node)),
        forall|p: Seq<Seq<char>>|
            #[trigger] stats_at(*final(node), p) == stats_after(
                stats_at(*old(node), p),
                p,
                views(segs@).skip(i as int),
                size,
                now,
            ),
        r == !(stats_at(*old(node), views(segs@).skip(i as int)) matches Some(s) && s.0),
    decreases segs@.len() - i,
{
    let ghost rest = views(segs@).skip(i as int);
    if i == segs.len() {
        let r = !node.is_topic;
        node.is_topic = true;
        if node.message_count < u64::MAX {
            node.message_count = node.message_count + 1;
        }
        if node.bytes_received <= u64::MAX - size {
            node.bytes_received = node.bytes_received + size;
        } else {
            node.bytes_received = u64::MAX;
        }
        node.last_message_time = Some(now);
        proof {
            assert(rest.len() == 0);
            assert(node.children == old(node).children);
            assert forall|p: Seq<Seq<char>>|
                #[trigger] stats_at(*node, p) == stats_after(stats_at(*old(node), p), p, rest, size, now) by {
                if p.len() == 0 {
                    assert(p =~= rest);
                }
            }
        }
        return r;
    }
    let ghost n0 = *node;
    let (found, idx) = locate(&node.children, &segs[i]);
    proof {
        lemma_sorted_unique(node.children@);
    }
    if !found {
        let ghost pre = node.children@;
        let fresh = new_node();
        let ghost e = (segs[i as int], fresh);
        node.children.insert(idx, (segs[i].clone(), fresh));
        proof {
            assert(node.children@ == pre.insert(idx as int, e));
            lemma_keyed_insert(pre, idx as int, e);
            lemma_children_wf_insert(pre, idx as int, e);
            let c = node.children@;
            assert forall|a: int, b: int| 0 <= a < b < c.len() implies text_less(c[a].0@, c[b].0@) by {
                if b < idx {
                    assert(c[a] == pre[a] && c[b] == pre[b]);
                } else if b == idx {
                    assert(c[a] == pre[a]);
                } else if a < idx {
                    assert(c[a] == pre[a] && c[b] == pre[b - 1]);
                    lemma_text_less_transitive(c[a].0@, segs@[i as int]@, c[b].0@);
                } else if a == idx {
                    assert(c[b] == pre[b - 1]);
                } else {
                    assert(c[a] == pre[a - 1] && c[b] == pre[b - 1]);
                }
            }
        }
    }
    let ghost n1 = *node;
    proof {
        lemma_sorted_unique(n1.children@);
        lemma_keyed_has(n1.children@, idx as int);
        lemma_children_wf_at(n1.children@, idx as int);
    }
    let ghost child0 = n1.children@[idx as int].1;
    let r = insert_rec(&mut node.children[idx].1, segs, i + 1, size, now);
    proof {
        let child1 = node.children@[idx as int].1;
        let e = (n1.children@[idx as int].0, child1);
        assert(node.children@ == n1.children@.update(idx as int, e));
        lemma_keyed_update(n1.children@, idx as int, e);
        lemma_children_wf_update(n1.children@, idx as int, e);
        let c = node.children@;
        assert(sorted_keys(c)) by {
            assert forall|a: int, b: int| 0 <= a < b < c.len() implies text_less(c[a].0@, c[b].0@) by {
                assert(c[a].0 == n1.children@[a].0);
                assert(c[b].0 == n1.children@[b].0);
            }
        }
        let seg = segs@[i as int]@;
        assert(rest[0] == seg);
        assert(rest.drop_first() =~= views(segs@).skip(i + 1));
        assert forall|p: Seq<Seq<char>>|
            #[trigger] stats_at(*node, p) == stats_after(stats_at(*old(node), p), p, rest, size, now) by {
            if p.len() == 0 {
                assert(p =~= rest.take(0));
            } else if p[0] == seg {
                lemma_stats_after_step(stats_at(*old(node), p), p, rest, size, now);
                assert(stats_at(*node, p) == stats_at(child1, p.drop_first()));
                if found {
                    assert(stats_at(*old(node), p) == stats_at(child0, p.drop_first()));
                } else {
                    assert(!keyed(old(node).children@).contains_key(seg));
                    assert(stats_at(*old(node), p) == None::<NodeStats>);
                    lemma_stats_after_fresh(p.drop_first(), rest.drop_first(), child0, size, now);
                }
            } else {
                lemma_stats_after_other(stats_at(*old(node), p), p, rest, size, now);
                if found {
                    assert(keyed(c)[p[0]] == keyed(old(node).children@)[p[0]]);
                } else {
                    assert(keyed(n1.children@).contains_key(p[0]) == keyed(old(node).children@).contains_key(p[0]));
                }
            }
        }
        let q = views(segs@).skip(i + 1);
        if found {
            assert(stats_at(*old(node), rest) == stats_at(child0, q));
        } else {
            assert(stats_at(*old(node), rest) == None::<NodeStats>);
            if q.len() > 0 {
                assert(keyed(child0.children@) =~= Map::<Seq<char>, TopicNode>::empty());
            }
        }
    }
    r
}

/// Path of child `seg` under `path`.
pub open spec fn child_path(path: Seq<char>, seg: Seq<char>) -> Seq<char> {
    if path.len() == 0 {
        seg
    } else {
        path + seq!['/'] + seg
    }
}

fn join_path(path: &String, seg: &String) -> (r: String)
    ensures
        r@ == child_path(path@, seg@),
{
    if path.as_str().unicode_len() == 0 {
        seg.clone()
    } else {
        proof {
            reveal_strlit("/");
        }
        path.clone().concat("/").concat(seg.as_str())
    }
}

pub open spec fn next_depth(d: usize) -> usize {
    if d < usize::MAX {
        (d + 1) as usize
    } else {
        d
    }
}

/// A visible node, for display.
#[derive(Debug)]
pub struct TopicInfo {
    pub full_path: String,
    pub segment: String,
    pub depth: usize,
    pub is_expanded: bool,
    pub has_children: bool,
    pub message_count: u64,
    pub bytes_received: u64,
    pub last_message_time: Option<i64>,
}

/// A visible node as plain values.
pub type InfoView = (Seq<char>, Seq<char>, usize, bool, bool, u64, u64, Option<i64>);

pub open spec fn info_view(t: TopicInfo) -> InfoView {
    (
        t.full_path@,
        t.segment@,
        t.depth,
        t.is_expanded,
        t.has_children,
        t.message_count,
        t.bytes_received,
        t.last_message_time,
    )
}

pub open spec fn info_views(s: Seq<TopicInfo>) -> Seq<InfoView> {
    s.map_values(|t: TopicInfo| info_view(t))
}

/// The rows shown below `n` (at `path`): each child in segment order, then,
/// when its path is in `expanded`, the rows below it one level deeper.
pub open spec fn visible_node(n: TopicNode, path: Seq<char>, depth: usize, expanded: Seq<Seq<char>>) -> Seq<
    InfoView,
>
    decreases n,
{
    visible_children(n.children@, path, depth, expanded)
}

pub open spec fn visible_children(
    s: Seq<(String, TopicNode)>,
    path: Seq<char>,
    depth: usize,
    expanded: Seq<Seq<char>>,
) -> Seq<InfoView>
    decreases s,
{
    if s.len() == 0 {
        Seq::empty()
    } else {
        let (seg, child) = s.last();
        let fp = child_path(path, seg@);
        let open = expanded.contains(fp);
        let row: InfoView = (
            fp,
            seg@,
            depth,
            open,
            child.children@.len() > 0,
            child.message_count,
            child.bytes_received,
            child.last_message_time,
        );
        visible_children(s.drop_last(), path, depth, expanded) + seq![row] + if open {
            visible_node(child, fp, next_depth(depth), expanded)
        } else {
            Seq::empty()
        }
    }
}

/// The text of `s`, lower-cased.
pub uninterp spec fn lower_of(s: Seq<char>) -> Seq<char>;

/// Relies on str::to_lowercase: the lower-case form of the text, which
/// depends on the text alone.
#[verifier::external_body]
fn to_lower(s: &str) -> (r: String)
    ensures
        r@ == lower_of(s@),
{
    s.to_lowercase()
}

/// Whether `needle` occurs in `hay`.
pub open spec fn occurs_in(hay: Seq<char>, needle: Seq<char>) -> bool {
    exists|i: int| 0 <= i && i + needle.len() <= hay.len() && #[trigger] hay.subrange(i, i + needle.len()) == needle
}

/// Whether `needle` occurs in `hay`.
pub fn text_contains(hay: &str, needle: &str) -> (r: bool)
    ensures
        r == occurs_in(hay@, needle@),
{
    let n = hay.unicode_len();
    let m = needle.unicode_len();
    if m > n {
        return false;
    }
    if m == 0 {
        assert(hay@.subrange(0int, 0int + needle@.len()) =~= needle@);
        return true;
    }
    let bound = n - m + 1;
    let mut i: usize = 0;
    while i < bound
        invariant
            n == hay@.len(),
            m == needle@.len(),
            1 <= m <= n,
            bound == n - m + 1,
            i <= bound,
            forall|k: int| 0 <= k < i ==> #[trigger] hay@.subrange(k, k + m) != needle@,
        decreases bound - i,
    {
        let mut j: usize = 0;
        let mut same = true;
        proof {
            assert(hay@.subrange(i as int, i as int) =~= needle@.subrange(0, 0));
        }
        while j < m
            invariant
                n == hay@.len(),
                m == needle@.len(),
                i + m <= n,
                j <= m,
                same == (hay@.subrange(i as int, i + j) == needle@.subrange(0, j as int)),
            decreases m - j,
        {
            let a = hay.get_char(i + j);
            let b = needle.get_char(j);
            proof {
                assert(hay@.subrange(i as int, i + j + 1) =~= hay@.subrange(i as int, i + j).push(a));
                assert(needle@.subrange(0, j + 1) =~= needle@.subrange(0, j as int).push(b));
                if hay@.subrange(i as int, i + j + 1) == needle@.subrange(0, j + 1) {
                    assert(hay@.subrange(i as int, i + j) =~= hay@.subrange(i as int, i + j + 1).drop_last());
                    assert(needle@.subrange(0, j as int) =~= needle@.subrange(0, j + 1).drop_last());
                    assert(hay@.subrange(i as int, i + j + 1).last() == a);
                    assert(needle@.subrange(0, j + 1).last() == b);
                }
            }
            if a != b {
                same = false;
            }
            j = j + 1;
        }
        proof {
            assert(needle@.subrange(0, m as int) =~= needle@);
        }
        if same {
            return true;
        }
        i = i + 1;
    }
    proof {
        assert forall|k: int| 0 <= k && k + m <= n implies #[trigger] hay@.subrange(k, k + m) != needle@ by {
            assert(k < i);
        }
    }
    false
}

/// Full paths of the topics below `n` (at `path`) whose lower-cased path holds
/// `pat`, in depth-first order with children in segment order.
pub open spec fn search_node(n: TopicNode, path: Seq<char>, pat: Seq<char>) -> Seq<Seq<char>>
    decreases n,
{
    search_children(n.children@, path, pat)
}

pub open spec fn search_children(s: Seq<(String, TopicNode)>, path: Seq<char>, pat: Seq<char>) -> Seq<
    Seq<char>,
>
    decreases s,
{
    if s.len() == 0 {
        Seq::empty()
    } else {
        let (seg, child) = s.last();
        let fp = child_path(path, seg@);
        let own = if occurs_in(lower_of(fp), pat) && child.is_topic {
            seq![fp]
        } else {
            Seq::empty()
        };
        search_children(s.drop_last(), path, pat) + own + search_node(child, fp, pat)
    }
}

/// Messages landed anywhere below and at `n`.
pub open spec fn count_node(n: TopicNode) -> nat
    decreases n,
{
    n.message_count as nat + count_children(n.children@)
}

pub open spec fn count_children(s: Seq<(String, TopicNode)>) -> nat
    decreases s,
{
    if s.len() == 0 {
        0
    } else {
        count_children(s.drop_last()) + count_node(s.last().1)
    }
}

pub open spec fn cap_u64(x: int) -> u64 {
    if x <= u64::MAX {
        x as u64
    } else {
        u64::MAX
    }
}

pub fn string_listed(list: &[String], x: &String) -> (r: bool)
    ensures
        r == views(list@).contains(x@),
{
    let mut i: usize = 0;
    while i < list.len()
        invariant
            i <= list@.len(),
            forall|k: int| 0 <= k < i ==> list@[k]@ != x@,
        decreases list.len() - i,
    {
        if list[i] == *x {
            proof {
                assert(views(list@)[i as int] == x@);
            }
            return true;
        }
        i = i + 1;
    }
    proof {
        if views(list@).contains(x@) {
            let k = choose|k: int| 0 <= k < views(list@).len() && #[trigger] views(list@)[k] == x@;
            assert(list@[k]@ == x@);
        }
    }
    false
}

fn collect_visible(
    node: &TopicNode,
    path: &String,
    depth: usize,
    expanded: &[String],
    result: &mut Vec<TopicInfo>,
)
    ensures
        info_views(final(result)@) == info_views(old(result)@) + visible_node(
            *node,
            path@,
            depth,
            views(expanded@),
        ),
    decreases *node,
{
    let ghost ex = views(expanded@);
    let ghost r0 = info_views(result@);
    let mut i: usize = 0;
    proof {
        assert(node.children@.take(0) =~= Seq::<(String, TopicNode)>::empty());
        assert(r0 + visible_children(node.children@.take(0), path@, depth, ex) =~= r0);
    }
    while i < node.children.len()
        invariant
            i <= node.children@.len(),
            ex == views(expanded@),
            info_views(result@) == r0 + visible_children(node.children@.take(i as int), path@, depth, ex),
        decreases node.children.len() - i,
    {
        let seg = &node.children[i].0;
        let child = &node.children[i].1;
        let fp = join_path(path, seg);
        let open = string_listed(expanded, &fp);
        let ghost before = info_views(result@);
        let row = TopicInfo {
            full_path: fp.clone(),
            segment: seg.clone(),
            depth,
            is_expanded: open,
            has_children: child.children.len() > 0,
            message_count: child.message_count,
            bytes_received: child.bytes_received,
            last_message_time: child.last_message_time,
        };
        result.push(row);
        proof {
            assert(info_views(result@) =~= before.push(info_view(row)));
            assert(node.children@.take(i + 1).drop_last() =~= node.children@.take(i as int));
        }
        let ghost mid = info_views(result@);
        if open {
            proof {
                let ns = node.children;
                assert(decreases_to!(*node => node.children));
                assert(decreases_to!(ns => ns@));
                assert(decreases_to!(ns@ => ns@[i as int]));
                assert(decreases_to!(ns@[i as int] => ns@[i as int].1));
            }
            let d = if depth < usize::MAX {
                depth + 1
            } else {
                depth
            };
            collect_visible(child, &fp, d, expanded, result);
        }
        proof {
            assert(info_views(result@) =~= r0 + visible_children(node.children@.take(i + 1), path@, depth, ex));
        }
        i = i + 1;
    }
    proof {
        assert(node.children@.take(i as int) =~= node.children@);
    }
}

fn search_rec(node: &TopicNode, path: &String, pat: &String, results: &mut Vec<String>)
    ensures
        views(final(results)@) == views(old(results)@) + search_node(*node, path@, pat@),
    decreases *node,
{
    let ghost r0 = views(results@);
    let mut i: usize = 0;
    proof {
        assert(node.children@.take(0) =~= Seq::<(String, TopicNode)>::empty());
        assert(r0 + search_children(node.children@.take(0), path@, pat@) =~= r0);
    }
    while i < node.children.len()
        invariant
            i <= node.children@.len(),
            views(results@) == r0 + search_children(node.children@.take(i as int), path@, pat@),
        decreases node.children.len() - i,
    {
        let seg = &node.children[i].0;
        let child = &node.children[i].1;
        let fp = join_path(path, seg);
        let lowered = to_lower(fp.as_str());
        let ghost before = views(results@);
        if text_contains(lowered.as_str(), pat.as_str()) && child.is_topic {
            results.push(fp.clone());
            proof {
                assert(views(results@) =~= before.push(fp@));
            }
        }
        proof {
            assert(node.children@.take(i + 1).drop_last() =~= node.children@.take(i as int));
            let ns = node.children;
            assert(decreases_to!(*node => node.children));
            assert(decreases_to!(ns => ns@));
            assert(decreases_to!(ns@ => ns@[i as int]));
            assert(decreases_to!(ns@[i as int] => ns@[i as int].1));
        }
        search_rec(child, &fp, pat, results);
        proof {
            assert(views(results@) =~= r0 + search_children(node.children@.take(i + 1), path@, pat@));
        }
        i = i + 1;
    }
    proof {
        assert(node.children@.take(i as int) =~= node.children@);
    }
}

fn count_rec(node: &TopicNode) -> (r: u64)
    ensures
        r == cap_u64(count_node(*node) as int),
    decreases *node,
{
    let mut total: u64 = node.message_count;
    let mut i: usize = 0;
    proof {
        assert(node.children@.take(0) =~= Seq::<(String, TopicNode)>::empty());
    }
    while i < node.children.len()
        invariant
            i <= node.children@.len(),
            total == cap_u64(node.message_count + count_children(node.children@.take(i as int))),
        decreases node.children.len() - i,
    {
        proof {
            assert(node.children@.take(i + 1).drop_last() =~= node.children@.take(i as int));
            let ns = node.children;
            assert(decreases_to!(*node => node.children));
            assert(decreases_to!(ns => ns@));
            assert(decreases_to!(ns@ => ns@[i as int]));
            assert(decreases_to!(ns@[i as int] => ns@[i as int].1));
        }
        let c = count_rec(&node.children[i].1);
        if total > u64::MAX - c {
            total = u64::MAX;
        } else {
            total = total + c;
        }
        i = i + 1;
    }
    proof {
        assert(node.children@.take(i as int) =~= node.children@);
    }
    total
}

pub open spec fn is_topic_at(n: TopicNode, p: Seq<Seq<char>>) -> bool {
    stats_at(n, p) matches Some(s) && s.0
}

/// The topic index.
#[derive(Debug)]
pub struct TopicTree {
    pub root: TopicNode,
    /// Number of distinct topics that received a message.
    pub total_topics: usize,
}

/// `post` is `pre` after a message of `size` bytes on `topic` at `now`.
pub open spec fn insert_effect(pre: TopicTree, post: TopicTree, topic: Seq<char>, size: u64, now: i64) -> bool {
    let segs = split_spec(topic, '/');
    &&& node_wf(post.root)
    &&& forall|p: Seq<Seq<char>>|
        #[trigger] stats_at(post.root, p) == stats_after(stats_at(pre.root, p), p, segs, size, now)
    &&& post.total_topics == if is_topic_at(pre.root, segs) || pre.total_topics == usize::MAX {
        pre.total_topics
    } else {
        (pre.total_topics + 1) as usize
    }
}

impl TopicTree {
    pub open spec fn wf(&self) -> bool {
        node_wf(self.root)
    }

    /// Whether nothing was inserted yet.
    pub open spec fn is_empty_tree(&self) -> bool {
        &&& self.root.children@.len() == 0
        &&& stats_of(self.root) == empty_stats()
        &&& self.total_topics == 0
    }

    pub fn new() -> (r: Self)
        ensures
            r.wf(),
            r.is_empty_tree(),
    {
        TopicTree { root: new_node(), total_topics: 0 }
    }

    /// Counts a message of `payload_size` bytes on `topic` received at `now`.
    pub fn insert_at(&mut self, topic: &str, payload_size: usize, now: i64)
        requires
            old(self).wf(),
        ensures
            final(self).wf(),
            insert_effect(*old(self), *final(self), topic@, payload_size as u64, now),
    {
        let segs = split_on(topic, '/');
        let fresh = insert_rec(&mut self.root, &segs, 0, payload_size as u64, now);
        proof {
            assert(views(segs@).skip(0) =~= views(segs@));
        }
        if fresh && self.total_topics < usize::MAX {
            self.total_topics = self.total_topics + 1;
        }
    }

    /// Counts a message of `payload_size` bytes on `topic` received now.
    pub fn insert(&mut self, topic: &str, payload_size: usize)
        requires
            old(self).wf(),
        ensures
            final(self).wf(),
            exists|now: i64| #[trigger] insert_effect(*old(self), *final(self), topic@, payload_size as u64, now),
    {
        self.insert_at(topic, payload_size, now_millis());
    }

    /// Number of distinct topics that received a message.
    pub fn topic_count(&self) -> (r: usize)
        ensures
            r == self.total_topics,
    {
        self.total_topics
    }

    /// Messages counted over the whole tree, saturating.
    pub fn total_messages(&self) -> (r: u64)
        ensures
            r == cap_u64(count_node(self.root) as int),
    {
        count_rec(&self.root)
    }

    /// The rows to display: top-level topics in segment order, each followed
    /// by its rows one level deeper when its full path is in `expanded`.
    pub fn get_visible_topics(&self, expanded: &[String]) -> (r: Vec<TopicInfo>)
        ensures
            info_views(r@) == visible_node(self.root, Seq::empty(), 0, views(expanded@)),
    {
        let mut result: Vec<TopicInfo> = Vec::new();
        let path = String::new();
        collect_visible(&self.root, &path, 0, expanded, &mut result);
        proof {
            assert(info_views(Seq::<TopicInfo>::empty()) =~= Seq::<InfoView>::empty());
        }
        result
    }

    /// Full paths of the topics whose path holds `pattern`, both lower-cased.
    pub fn search(&self, pattern: &str) -> (r: Vec<String>)
        ensures
            views(r@) == search_node(self.root, Seq::empty(), lower_of(pattern@)),
    {
        let pat = to_lower(pattern);
        self.search_lowered(&pat)
    }

    /// Full paths of the topics whose lower-cased path holds `pat`.
    pub fn search_lowered(&self, pat: &String) -> (r: Vec<String>)
        ensures
            views(r@) == search_node(self.root, Seq::empty(), pat@),
    {
        let mut results: Vec<String> = Vec::new();
        let path = String::new();
        search_rec(&self.root, &path, pat, &mut results);
        proof {
            assert(views(Seq::<String>::empty()) =~= Seq::<Seq<char>>::empty());
        }
        results
    }

    /// Message count, bytes and last message time of `topic`, if it is one.
    pub fn get_topic_stats(&self, topic: &str) -> (r: Option<(u64, u64, Option<i64>)>)
        requires
            self.wf(),
        ensures
            r == (match stats_at(self.root, split_spec(topic@, '/')) {
                Some(s) => if s.0 {
                    Some((s.1, s.2, s.3))
                } else {
                    None
                },
                None => None,
            }),
    {
        let segs = split_on(topic, '/');
        let ghost path = views(segs@);
        let mut current: &TopicNode = &self.root;
        let mut i: usize = 0;
        proof {
            assert(path.skip(0) =~= path);
        }
        while i < segs.len()
            invariant
                path == views(segs@),
                path == split_spec(topic@, '/'),
                i <= segs@.len(),
                node_wf(*current),
                lookup(self.root, path) == lookup(*current, path.skip(i as int)),
            decreases segs.len() - i,
        {
            let (found, idx) = locate(&current.children, &segs[i]);
            proof {
                lemma_sorted_unique(current.children@);
                assert(path.skip(i as int)[0] == segs@[i as int]@);
                assert(path.skip(i as int).drop_first() =~= path.skip(i + 1));
            }
            if !found {
                return None;
            }
            proof {
                lemma_keyed_has(current.children@, idx as int);
                lemma_children_wf_at(current.children@, idx as int);
            }
            current = &current.children[idx].1;
            i = i + 1;
        }
        proof {
            assert(path.skip(i as int).len() == 0);
        }
        if current.is_topic {
            Some((current.message_count, current.bytes_received, current.last_message_time))
        } else {
            None
        }
    }

    /// Forgets every topic.
    pub fn clear(&mut self)
        ensures
            final(self).wf(),
            final(self).is_empty_tree(),
    {
        self.root = new_node();
        self.total_topics = 0;
    }
}

/// Whether a row with full path `path` passes the display filters: starred
/// only (when a star list is given) and accepted by the wildcard filter (when
/// one is given).
pub open spec fn row_shown(path: Seq<char>, starred: Option<Seq<Seq<char>>>, pattern: Option<Seq<char>>) -> bool {
    &&& (starred matches Some(st) ==> st.contains(path))
    &&& (pattern matches Some(p) ==> matches_spec(p, path))
}

/// The rows of `rows` that pass the display filters, in order.
pub open spec fn shown_rows(rows: Seq<InfoView>, starred: Option<Seq<Seq<char>>>, pattern: Option<Seq<char>>) -> Seq<
    InfoView,
>
    decreases rows.len(),
{
    if rows.len() == 0 {
        rows
    } else {
        let rest = shown_rows(rows.drop_last(), starred, pattern);
        if row_shown(rows.last().0, starred, pattern) {
            rest.push(rows.last())
        } else {
            rest
        }
    }
}

pub open spec fn opt_views(o: Option<&[String]>) -> Option<Seq<Seq<char>>> {
    match o {
        Some(v) => Some(views(v@)),
        None => None,
    }
}

pub open spec fn opt_text(o: Option<&str>) -> Option<Seq<char>> {
    match o {
        Some(t) => Some(t@),
        None => None,
    }
}

/// The display filters of the topic view: keeps the rows whose full path is
/// starred (when `starred` is given) and matches the wildcard `pattern` (when
/// given).
pub fn filter_rows(rows: Vec<TopicInfo>, starred: Option<&[String]>, pattern: Option<&str>) -> (r: Vec<TopicInfo>)
    ensures
        info_views(r@) == shown_rows(info_views(rows@), opt_views(starred), opt_text(pattern)),
{
    let ghost all = info_views(rows@);
    let mut out: Vec<TopicInfo> = Vec::new();
    let mut rest = rows;
    let mut i: usize = 0;
    let n = rest.len();
    proof {
        assert(rest@.skip(0) =~= rest@);
        assert(all.take(0) =~= Seq::<InfoView>::empty());
    }
    let ghost orig = rest@;
    while i < n
        invariant
            n == orig.len(),
            all == info_views(orig),
            i <= n,
            rest@ == orig.skip(i as int),
            info_views(out@) == shown_rows(all.take(i as int), opt_views(starred), opt_text(pattern)),
        decreases n - i,
    {
        let row = rest.remove(0);
        proof {
            assert(row == orig[i as int]);
            assert(rest@ =~= orig.skip(i + 1));
            assert(all.take(i + 1).drop_last() =~= all.take(i as int));
            assert(all.take(i + 1).last() == info_view(row));
        }
        let keep_star = match starred {
            Some(list) => string_listed(list, &row.full_path),
            None => true,
        };
        let keep_pattern = match pattern {
            Some(p) => topic_matches(p, row.full_path.as_str()),
            None => true,
        };
        let ghost before = info_views(out@);
        if keep_star && keep_pattern {
            out.push(row);
            proof {
                assert(info_views(out@) =~= before.push(info_view(row)));
            }
        }
        i = i + 1;
    }
    proof {
        assert(all.take(i as int) =~= all);
    }
    out
}

/// Number of distinct texts in `ts`.
pub open spec fn distinct_count(ts: Seq<Seq<char>>) -> nat
    decreases ts.len(),
{
    if ts.len() == 0 {
        0
    } else {
        distinct_count(ts.drop_last()) + if ts.drop_last().contains(ts.last()) {
            0nat
        } else {
            1nat
        }
    }
}

proof fn lemma_distinct_le(ts: Seq<Seq<char>>)
    ensures
        distinct_count(ts) <= ts.len(),
    decreases ts.len(),
{
    if ts.len() > 0 {
        lemma_distinct_le(ts.drop_last());
    }
}

proof fn lemma_empty_tree_no_topics(n: TopicNode, p: Seq<Seq<char>>)
    requires
        n.children@.len() == 0,
        stats_of(n) == empty_stats(),
    ensures
        !is_topic_at(n, p),
        p.len() > 0 ==> stats_at(n, p) is None,
{
    if p.len() > 0 {
        assert(keyed(n.children@) =~= Map::<Seq<char>, TopicNode>::empty());
    }
}

/// Inserting topics one after another into an empty index leaves as many
/// topics as distinct topic texts were inserted, and a path is a topic exactly
/// when some inserted text splits into it.
pub proof fn lemma_topic_count_distinct(
    states: Seq<TopicTree>,
    ts: Seq<Seq<char>>,
    sizes: Seq<u64>,
    nows: Seq<i64>,
)
    requires
        states.len() == ts.len() + 1,
        sizes.len() == ts.len(),
        nows.len() == ts.len(),
        ts.len() < usize::MAX,
        states[0].is_empty_tree(),
        forall|k: int|
            0 <= k < ts.len() ==> insert_effect(
                #[trigger] states[k],
                states[k + 1],
                ts[k],
                sizes[k],
                nows[k],
            ),
    ensures
        states.last().total_topics == distinct_count(ts),
        forall|p: Seq<Seq<char>>|
            is_topic_at(states.last().root, p) <==> exists|j: int|
                0 <= j < ts.len() && #[trigger] split_spec(ts[j], '/') == p,
    decreases ts.len(),
{
    if ts.len() == 0 {
        assert forall|p: Seq<Seq<char>>| !is_topic_at(states.last().root, p) by {
            lemma_empty_tree_no_topics(states[0].root, p);
        }
    } else {
        let k = ts.len() - 1;
        let pst = states.drop_last();
        let pts = ts.drop_last();
        assert forall|x: int| 0 <= x < pts.len() implies insert_effect(
            #[trigger] pst[x],
            pst[x + 1],
            pts[x],
            sizes.drop_last()[x],
            nows.drop_last()[x],
        ) by {
            assert(insert_effect(states[x], states[x + 1], ts[x], sizes[x], nows[x]));
        }
        lemma_topic_count_distinct(pst, pts, sizes.drop_last(), nows.drop_last());
        let pre = states[k];
        let post = states[k + 1];
        assert(pst.last() == pre);
        assert(insert_effect(pre, post, ts[k], sizes[k], nows[k]));
        let segs = split_spec(ts[k], '/');
        lemma_split_nonempty(ts[k], '/');
        assert forall|p: Seq<Seq<char>>|
            is_topic_at(post.root, p) <==> (is_topic_at(pre.root, p) || p == segs) by {
            assert(stats_at(post.root, p) == stats_after(stats_at(pre.root, p), p, segs, sizes[k], nows[k]));
        }
        assert(is_topic_at(pre.root, segs) == pts.contains(ts[k])) by {
            if is_topic_at(pre.root, segs) {
                let j = choose|j: int| 0 <= j < pts.len() && #[trigger] split_spec(pts[j], '/') == segs;
                lemma_split_injective(pts[j], ts[k], '/');
                assert(pts[j] == ts[k]);
            }
            if pts.contains(ts[k]) {
                let j = choose|j: int| 0 <= j < pts.len() && pts[j] == ts[k];
                assert(split_spec(pts[j], '/') == segs);
            }
        }
        lemma_distinct_le(pts);
        assert forall|p: Seq<Seq<char>>|
            is_topic_at(states.last().root, p) <==> exists|j: int|
                0 <= j < ts.len() && #[trigger] split_spec(ts[j], '/') == p by {
            if is_topic_at(states.last().root, p) {
                if p == segs {
                    assert(split_spec(ts[k], '/') == p);
                } else {
                    let j = choose|j: int| 0 <= j < pts.len() && #[trigger] split_spec(pts[j], '/') == p;
                    assert(split_spec(ts[j], '/') == p);
                }
            }
            if exists|j: int| 0 <= j < ts.len() && #[trigger] split_spec(ts[j], '/') == p {
                let j = choose|j: int| 0 <= j < ts.len() && #[trigger] split_spec(ts[j], '/') == p;
                if j < k {
                    assert(split_spec(pts[j], '/') == p);
                }
            }
        }
    }
}

/// The sum of `s`.
pub open spec fn total_of(s: Seq<u64>) -> int
    decreases s.len(),
{
    if s.len() == 0 {
        0
    } else {
        total_of(s.drop_last()) + s.last()
    }
}

proof fn lemma_total_of_nonneg(s: Seq<u64>)
    ensures
        total_of(s) >= 0,
    decreases s.len(),
{
    if s.len() > 0 {
        lemma_total_of_nonneg(s.drop_last());
    }
}

/// Inserting one topic `n` times counts `n` messages on it (below the
/// counter's limit), the sum of their sizes (saturating), and a last message
/// time.
pub proof fn lemma_repeated_topic_count(
    states: Seq<TopicTree>,
    t: Seq<char>,
    sizes: Seq<u64>,
    nows: Seq<i64>,
)
    requires
        states.len() == sizes.len() + 1,
        nows.len() == sizes.len(),
        sizes.len() < u64::MAX,
        states[0].is_empty_tree(),
        forall|k: int|
            0 <= k < sizes.len() ==> insert_effect(#[trigger] states[k], states[k + 1], t, sizes[k], nows[k]),
    ensures
        sizes.len() > 0 ==> (stats_at(states.last().root, split_spec(t, '/')) matches Some(s) && s.0
            && s.1 == sizes.len() && s.2 == cap_u64(total_of(sizes)) && s.3 is Some),
        sizes.len() == 0 ==> stats_at(states.last().root, split_spec(t, '/')) is None,
    decreases sizes.len(),
{
    let segs = split_spec(t, '/');
    lemma_split_nonempty(t, '/');
    if sizes.len() == 0 {
        lemma_empty_tree_no_topics(states[0].root, segs);
    } else {
        let k = sizes.len() - 1;
        let pst = states.drop_last();
        assert forall|x: int| 0 <= x < sizes.drop_last().len() implies insert_effect(
            #[trigger] pst[x],
            pst[x + 1],
            t,
            sizes.drop_last()[x],
            nows.drop_last()[x],
        ) by {
            assert(insert_effect(states[x], states[x + 1], t, sizes[x], nows[x]));
        }
        lemma_repeated_topic_count(pst, t, sizes.drop_last(), nows.drop_last());
        assert(pst.last() == states[k]);
        assert(insert_effect(states[k], states[k + 1], t, sizes[k], nows[k]));
        assert(stats_at(states[k + 1].root, segs) == stats_after(stats_at(states[k].root, segs), segs, segs, sizes[k], nows[k]));
        lemma_total_of_nonneg(sizes.drop_last());
        assert(total_of(sizes) == total_of(sizes.drop_last()) + sizes[k]);
        if k == 0 {
            assert(total_of(sizes.drop_last()) == 0);
        }
    }
}

proof fn lemma_collapsed_rows(s: Seq<(String, TopicNode)>)
    ensures
        visible_children(s, Seq::empty(), 0, Seq::empty()).len() == s.len(),
        forall|i: int|
            0 <= i < s.len() ==> {
                let row = #[trigger] visible_children(s, Seq::empty(), 0, Seq::empty())[i];
                &&& row.2 == 0
                &&& row.1 == s[i].0@
                &&& row.0 == s[i].0@
                &&& !row.3
            },
    decreases s.len(),
{
    if s.len() > 0 {
        lemma_collapsed_rows(s.drop_last());
        let v = visible_children(s, Seq::empty(), 0, Seq::empty());
        let w = visible_children(s.drop_last(), Seq::empty(), 0, Seq::empty());
        let fp = child_path(Seq::empty(), s.last().0@);
        assert(!Seq::<Seq<char>>::empty().contains(fp));
        assert forall|i: int| 0 <= i < s.len() implies {
            let row = #[trigger] v[i];
            &&& row.2 == 0
            &&& row.1 == s[i].0@
            &&& row.0 == s[i].0@
            &&& !row.3
        } by {
            if i < s.len() - 1 {
                assert(v[i] == w[i]);
            }
        }
    }
}

/// With nothing expanded, only the top-level nodes are shown: one row for
/// each child of the root, all at depth 0, each collapsed, its full path its
/// segment, in strictly increasing segment order.
pub proof fn lemma_collapsed_shows_top_level(t: TopicTree)
    requires
        t.wf(),
    ensures
        visible_node(t.root, Seq::empty(), 0, Seq::empty()).len() == t.root.children@.len(),
        forall|i: int|
            0 <= i < t.root.children@.len() ==> {
                let row = #[trigger] visible_node(t.root, Seq::empty(), 0, Seq::empty())[i];
                &&& row.2 == 0
                &&& row.0 == row.1
                &&& !row.3
            },
        forall|i: int, j: int|
            0 <= i < j < t.root.children@.len() ==> text_less(
                visible_node(t.root, Seq::empty(), 0, Seq::empty())[i].1,
                visible_node(t.root, Seq::empty(), 0, Seq::empty())[j].1,
            ),
{
    lemma_collapsed_rows(t.root.children@);
    let v = visible_node(t.root, Seq::empty(), 0, Seq::empty());
    assert forall|i: int, j: int| 0 <= i < j < t.root.children@.len() implies text_less(v[i].1, v[j].1) by {
        assert(v[i].1 == t.root.children@[i].0@);
        assert(v[j].1 == t.root.children@[j].0@);
    }
}

} // verus!
