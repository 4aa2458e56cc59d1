//! Numeric time series extracted from JSON payloads: each tracked series is
//! bound to a topic filter and a dot-separated field path.

use vstd::prelude::*;
use std::collections::VecDeque;
use crate::clock::now_millis;
use crate::json::{Json, json_of, parse_json};
use crate::keyed::{
    keyed, unique_keys, find_key, set_entry, lemma_keyed_has, lemma_keyed_keys, lemma_keyed_remove,
    lemma_keyed_len,
};
use crate::number::{parse_milli, parse_milli_spec};
use crate::wildcard::{split_on, split_spec, topic_matches, matches_spec, views};
use crate::schema_tracker::{member_path, join_member};

verus! {

/// The first member of `members` named `key`.
pub open spec fn member_get(members: Seq<(String, Json)>, key: Seq<char>) -> Option<Json>
    decreases members.len(),
{
    if members.len() == 0 {
        None
    } else if members[0].0@ == key {
        Some(members[0].1)
    } else {
        member_get(members.drop_first(), key)
    }
}

/// Member `key` of an object; `None` for anything else.
pub open spec fn json_get(j: Json, key: Seq<char>) -> Option<Json> {
    match j {
        Json::Object(m) => member_get(m@, key),
        _ => None,
    }
}

/// Follows `keys` through nested objects.
pub open spec fn walk(j: Json, keys: Seq<Seq<char>>) -> Option<Json>
    decreases keys.len(),
{
    if keys.len() == 0 {
        Some(j)
    } else {
        match json_get(j, keys[0]) {
            Some(c) => walk(c, keys.drop_first()),
            None => None,
        }
    }
}

/// The value of a number, or of a string holding a decimal number, in
/// thousandths.
pub open spec fn numeric_value(j: Json) -> Option<i64> {
    match j {
        Json::Number(n) => parse_milli_spec(n.text@),
        Json::Str(s) => parse_milli_spec(s@),
        _ => None,
    }
}

/// The number at dot-separated `path` in `j`, in thousandths.
pub open spec fn extract_spec(j: Json, path: Seq<char>) -> Option<i64> {
    match walk(j, split_spec(path, '.')) {
        Some(x) => numeric_value(x),
        None => None,
    }
}

fn get_member<'a>(j: &'a Json, key: &String) -> (r: Option<&'a Json>)
    ensures
        match r {
            Some(c) => json_get(*j, key@) == Some(*c),
            None => json_get(*j, key@) is None,
        },
{
    match j {
        Json::Object(members) => {
            let mut i: usize = 0;
            proof {
                assert(members@.skip(0) =~= members@);
            }
            while i < members.len()
                invariant
                    *j == Json::Object(*members),
                    i <= members@.len(),
                    member_get(members@, key@) == member_get(members@.skip(i as int), key@),
                decreases members.len() - i,
            {
                proof {
                    assert(members@.skip(i as int).drop_first() =~= members@.skip(i + 1));
                }
                assert(members@.skip(i as int)[0] == members@[i as int]);
                if members[i].0 == *key {
                    return Some(&members[i].1);
                }
                i = i + 1;
            }
            None
        },
        _ => None,
    }
}

/// The number at dot-separated `path` in `json`, in thousandths: a JSON
/// number, or a string holding one. `None` when the path does not resolve.
pub fn extract_numeric(json: &Json, path: &str) -> (r: Option<i64>)
    ensures
        r == extract_spec(*json, path@),
{
    let parts = split_on(path, '.');
    let ghost keys = views(parts@);
    let mut current: &Json = json;
    let mut i: usize = 0;
    proof {
        assert(keys.skip(0) =~= keys);
    }
    while i < parts.len()
        invariant
            keys == views(parts@),
            keys == split_spec(path@, '.'),
            i <= parts@.len(),
            walk(*json, keys) == walk(*current, keys.skip(i as int)),
        decreases parts.len() - i,
    {
        proof {
            assert(keys.skip(i as int)[0] == parts@[i as int]@);
            assert(keys.skip(i as int).drop_first() =~= keys.skip(i + 1));
        }
        match get_member(current, &parts[i]) {
            Some(c) => current = c,
            None => return None,
        }
        i = i + 1;
    }
    proof {
        assert(keys.skip(i as int).len() == 0);
    }
    match current {
        Json::Number(n) => parse_milli(n.text.as_str()),
        Json::Str(s) => parse_milli(s.as_str()),
        _ => None,
    }
}

/// The numeric leaves below `j` at `prefix`, in member order: numbers and
/// strings holding a decimal number, with their dotted paths; arrays are not
/// entered.
pub open spec fn numeric_fields_spec(j: Json, prefix: Seq<char>) -> Seq<(Seq<char>, i64)>
    decreases j,
{
    match j {
        Json::Object(members) => numeric_members_spec(members@, prefix),
        Json::Number(n) => match parse_milli_spec(n.text@) {
            Some(v) => seq![(prefix, v)],
            None => Seq::empty(),
        },
        Json::Str(s) => match parse_milli_spec(s@) {
            Some(v) => seq![(prefix, v)],
            None => Seq::empty(),
        },
        _ => Seq::empty(),
    }
}

pub open spec fn numeric_members_spec(members: Seq<(String, Json)>, prefix: Seq<char>) -> Seq<(Seq<char>, i64)>
    decreases members,
{
    if members.len() == 0 {
        Seq::empty()
    } else {
        numeric_members_spec(members.drop_last(), prefix) + numeric_fields_spec(
            members.last().1,
            member_path(prefix, members.last().0@),
        )
    }
}

pub open spec fn field_views(s: Seq<(String, i64)>) -> Seq<(Seq<char>, i64)> {
    s.map_values(|e: (String, i64)| (e.0@, e.1))
}

fn push_leaf(fields: &mut Vec<(String, i64)>, prefix: &String, v: Option<i64>)
    ensures
        field_views(final(fields)@) == field_views(old(fields)@) + match v {
            Some(x) => seq![(prefix@, x)],
            None => Seq::empty(),
        },
{
    let ghost pre = field_views(fields@);
    match v {
        Some(x) => {
            fields.push((prefix.clone(), x));
            assert(field_views(fields@) =~= pre + seq![(prefix@, x)]);
        },
        None => {
            assert(pre + Seq::<(Seq<char>, i64)>::empty() =~= pre);
        },
    }
}

fn collect_numeric_fields(json: &Json, prefix: &String, fields: &mut Vec<(String, i64)>)
    ensures
        field_views(final(fields)@) == field_views(old(fields)@) + numeric_fields_spec(*json, prefix@),
    decreases json,
{
    match json {
        Json::Object(members) => {
            let ghost f0 = field_views(fields@);
            let mut i: usize = 0;
            proof {
                assert(members@.take(0) =~= Seq::<(String, Json)>::empty());
                assert(f0 + numeric_members_spec(members@.take(0), prefix@) =~= f0);
            }
            while i < members.len()
                invariant
                    i <= members@.len(),
                    *json == Json::Object(*members),
                    field_views(fields@) == f0 + numeric_members_spec(members@.take(i as int), prefix@),
                decreases members.len() - i,
            {
                let p = join_member(prefix, &members[i].0);
                proof {
                    let ms = *members;
                    assert(decreases_to!(*json => (*json)->Object_0));
                    assert(decreases_to!(ms => ms@));
                    assert(decreases_to!(ms@ => ms@[i as int]));
                    assert(decreases_to!(ms@[i as int] => ms@[i as int].1));
                    assert(members@.take(i + 1).drop_last() =~= members@.take(i as int));
                }
                collect_numeric_fields(&members[i].1, &p, fields);
                proof {
                    assert(field_views(fields@) =~= f0 + numeric_members_spec(members@.take(i + 1), prefix@));
                }
                i = i + 1;
            }
            proof {
                assert(members@.take(i as int) =~= members@);
            }
        },
        Json::Number(n) => push_leaf(fields, prefix, parse_milli(n.text.as_str())),
        Json::Str(s) => push_leaf(fields, prefix, parse_milli(s.as_str())),
        _ => {
            proof {
                assert(field_views(fields@) + Seq::<(Seq<char>, i64)>::empty() =~= field_views(fields@));
            }
        },
    }
}

/// Every numeric leaf of `json` with its dotted path, values in thousandths:
/// the candidates for a tracked series.
pub fn get_numeric_fields(json: &Json) -> (r: Vec<(String, i64)>)
    ensures
        field_views(r@) == numeric_fields_spec(*json, Seq::empty()),
{
    let mut fields: Vec<(String, i64)> = Vec::new();
    let prefix = String::new();
    collect_numeric_fields(json, &prefix, &mut fields);
    proof {
        assert(field_views(Seq::<(String, i64)>::empty()) =~= Seq::<(Seq<char>, i64)>::empty());
    }
    fields
}

/// The last `cap` elements of `s`.
pub open spec fn keep_last<T>(s: Seq<T>, cap: nat) -> Seq<T> {
    if s.len() > cap {
        s.skip(s.len() - cap)
    } else {
        s
    }
}

pub open spec fn min_i64(a: i64, b: i64) -> i64 {
    if a <= b {
        a
    } else {
        b
    }
}

pub open spec fn max_i64(a: i64, b: i64) -> i64 {
    if a >= b {
        a
    } else {
        b
    }
}

/// `a / b` rounded toward zero.
pub open spec fn trunc_div(a: int, b: int) -> int {
    if a >= 0 {
        a / b
    } else {
        -((-a) / b)
    }
}

/// Bounds on a running sum of `count` values of `i64`.
pub open spec fn sum_bound(sum: i128, count: u64) -> bool {
    -(count as int) * 0x8000_0000_0000_0000 <= sum <= (count as int) * 0x7fff_ffff_ffff_ffff
}

/// One tracked series: samples `(time in Unix ms, value in thousandths)`, and
/// running minimum, maximum, sum and count over every sample ever recorded.
#[derive(Debug)]
pub struct TrackedMetric {
    pub label: String,
    pub topic_pattern: String,
    pub field_path: String,
    pub data: VecDeque<(i64, i64)>,
    pub min: i64,
    pub max: i64,
    pub sum: i128,
    pub count: u64,
}

/// `post` is `pre` after recording `v` at `now`, keeping `cap` samples.
pub open spec fn recorded(pre: TrackedMetric, post: TrackedMetric, v: i64, now: i64, cap: nat) -> bool {
    &&& post.label == pre.label
    &&& post.topic_pattern == pre.topic_pattern
    &&& post.field_path == pre.field_path
    &&& if pre.count < u64::MAX {
        &&& post.data@ == keep_last(pre.data@.push((now, v)), cap)
        &&& post.min == min_i64(pre.min, v)
        &&& post.max == max_i64(pre.max, v)
        &&& post.sum == pre.sum + v
        &&& post.count == pre.count + 1
    } else {
        &&& post.data == pre.data
        &&& post.min == pre.min
        &&& post.max == pre.max
        &&& post.sum == pre.sum
        &&& post.count == pre.count
    }
}

impl TrackedMetric {
    pub open spec fn wf(&self) -> bool {
        &&& sum_bound(self.sum, self.count)
        &&& self.data@.len() > 0 ==> self.count > 0
        &&& forall|i: int|
            0 <= i < self.data@.len() ==> self.min <= (#[trigger] self.data@[i]).1 <= self.max
    }

    /// A series with no samples yet.
    pub fn new(label: String, topic_pattern: String, field_path: String) -> (r: Self)
        ensures
            r.wf(),
            r.label == label,
            r.topic_pattern == topic_pattern,
            r.field_path == field_path,
            r.data@.len() == 0,
            r.min == i64::MAX,
            r.max == i64::MIN,
            r.sum == 0,
            r.count == 0,
    {
        TrackedMetric {
            label,
            topic_pattern,
            field_path,
            data: VecDeque::new(),
            min: i64::MAX,
            max: i64::MIN,
            sum: 0,
            count: 0,
        }
    }

    /// Records `value` at `now`, keeping the newest `max_points` samples. A
    /// series that has counted `u64::MAX` samples records no more.
    pub fn record_at(&mut self, value: i64, max_points: usize, now: i64)
        requires
            old(self).wf(),
        ensures
            final(self).wf(),
            recorded(*old(self), *final(self), value, now, max_points as nat),
    {
        if self.count == u64::MAX {
            return;
        }
        let ghost pushed = self.data@.push((now, value));
        self.data.push_back((now, value));
        let ghost mut k: int = 0;
        proof {
            assert(pushed.skip(0) =~= pushed);
        }
        while self.data.len() > max_points
            invariant
                0 <= k <= pushed.len(),
                self.data@ == pushed.skip(k),
                k > 0 ==> pushed.len() - k >= max_points,
                self.label == old(self).label,
                self.topic_pattern == old(self).topic_pattern,
                self.field_path == old(self).field_path,
                self.min == old(self).min,
                self.max == old(self).max,
                self.sum == old(self).sum,
                self.count == old(self).count,
            decreases self.data@.len(),
        {
            self.data.pop_front();
            proof {
                assert(self.data@ =~= pushed.skip(k + 1));
                k = k + 1;
            }
        }
        proof {
            if pushed.len() > max_points {
                assert(k == pushed.len() - max_points);
            } else {
                assert(k == 0);
            }
        }
        if value < self.min {
            self.min = value;
        }
        if value > self.max {
            self.max = value;
        }
        proof {
            let c = self.count as int;
            assert(c * 0x8000_0000_0000_0000 <= 0xffff_ffff_ffff_fffe * 0x8000_0000_0000_0000int)
                by (nonlinear_arith)
                requires 0 <= c <= 0xffff_ffff_ffff_fffe;
            assert(c * 0x7fff_ffff_ffff_ffff <= 0xffff_ffff_ffff_fffe * 0x7fff_ffff_ffff_ffffint)
                by (nonlinear_arith)
                requires 0 <= c <= 0xffff_ffff_ffff_fffe;
            assert((c + 1) * 0x8000_0000_0000_0000 == c * 0x8000_0000_0000_0000
                + 0x8000_0000_0000_0000int) by (nonlinear_arith);
            assert((c + 1) * 0x7fff_ffff_ffff_ffff == c * 0x7fff_ffff_ffff_ffff
                + 0x7fff_ffff_ffff_ffffint) by (nonlinear_arith);
        }
        self.sum = self.sum + value as i128;
        self.count = self.count + 1;
        proof {
            assert forall|i: int| 0 <= i < self.data@.len() implies self.min <= (
            #[trigger] self.data@[i]).1 <= self.max by {
                assert(self.data@[i] == pushed[i + k]);
            }
        }
    }

    /// Records `value` now.
    pub fn record(&mut self, value: i64, max_points: usize)
        requires
            old(self).wf(),
        ensures
            final(self).wf(),
            exists|now: i64| recorded(*old(self), *final(self), value, now, max_points as nat),
    {
        self.record_at(value, max_points, now_millis());
    }

    /// The mean of every recorded value, rounded toward zero; `None` before
    /// the first sample.
    pub fn avg(&self) -> (r: Option<i64>)
        requires
            self.wf(),
        ensures
            self.count == 0 ==> r is None,
            self.count > 0 ==> r == Some(trunc_div(self.sum as int, self.count as int) as i64),
    {
        if self.count == 0 {
            return None;
        }
        let c = self.count as i128;
        proof {
            let ci = self.count as int;
            let si = self.sum as int;
            if si >= 0 {
                assert(si / ci <= 0x7fff_ffff_ffff_ffff) by (nonlinear_arith)
                    requires si <= ci * 0x7fff_ffff_ffff_ffff, ci >= 1, si >= 0;
            }
        }
        if self.sum >= 0 {
            Some((self.sum / c) as i64)
        } else {
            proof {
                let ci = self.count as int;
                let ni = -(self.sum as int);
                assert(ni / ci <= 0x8000_0000_0000_0000) by (nonlinear_arith)
                    requires ni <= ci * 0x8000_0000_0000_0000, ci >= 1, ni > 0;
            }
            let q = (-self.sum) / c;
            Some((-q) as i64)
        }
    }

    /// The newest sample's value.
    pub fn latest(&self) -> (r: Option<i64>)
        ensures
            self.data@.len() == 0 ==> r is None,
            self.data@.len() > 0 ==> r == Some(self.data@.last().1),
    {
        let n = self.data.len();
        if n == 0 {
            None
        } else {
            Some(self.data[n - 1].1)
        }
    }
}

/// Sampling stride of a sparkline of `width` points over `len` samples.
pub open spec fn spark_step(len: nat, width: nat) -> nat {
    if len <= width {
        1
    } else {
        len / width
    }
}

/// `v` scaled linearly from `[lo, hi]` onto thousandths `[0, 1000]`, rounded down.
pub open spec fn normalized(v: i64, lo: i64, hi: i64) -> int {
    (v - lo) * 1000 / (hi - lo)
}

/// The sample shown at point `k` of a `width`-point sparkline over `len`
/// samples: every `len / width`-th sample from the oldest when the series is
/// longer than `width`, else the even spread `k * len / width`.
pub open spec fn spark_index(k: int, len: int, width: int) -> int {
    if len > width {
        k * (len / width)
    } else {
        k * len / width
    }
}

/// Point `k` of `out` is the sample at `spark_index` scaled onto `[lo, hi]`.
pub open spec fn spark_point(out: Seq<u64>, data: Seq<(i64, i64)>, lo: i64, hi: i64, width: int, k: int) -> bool {
    let i = spark_index(k, data.len() as int, width);
    &&& 0 <= i < data.len()
    &&& out[k] == normalized(data[i].1, lo, hi)
}

proof fn lemma_spark_index_bounds(k: int, len: int, width: int)
    requires
        0 <= k < width,
        len > 0,
    ensures
        0 <= spark_index(k, len, width) < len,
{
    if len > width {
        let q = len / width;
        assert(q * width <= len) by (nonlinear_arith)
            requires q == len / width, width > 0;
        assert(q >= 1) by (nonlinear_arith)
            requires q == len / width, len > width, width > 0;
        assert(k * q <= (width - 1) * q) by (nonlinear_arith)
            requires k <= width - 1, q >= 0;
        assert((width - 1) * q == q * width - q) by (nonlinear_arith);
        assert(k * q >= 0) by (nonlinear_arith)
            requires k >= 0, q >= 0;
    } else {
        assert(k * len < width * len) by (nonlinear_arith)
            requires k < width, len > 0;
        assert(k * len / width < len) by (nonlinear_arith)
            requires k * len < width * len, width > 0;
        assert(k * len / width >= 0) by (nonlinear_arith)
            requires k >= 0, len > 0, width > 0;
    }
}

impl TrackedMetric {
    /// Whether all samples would scale to zero: no samples, or no spread.
    pub open spec fn flat(&self) -> bool {
        self.data@.len() == 0 || self.max <= self.min
    }

    /// `width` points in thousandths of the range `[min, max]` (linear
    /// min-max scaling over the running minimum and maximum): point `k` is
    /// the sample at `spark_index(k, len, width)`, so a longer series is
    /// subsampled evenly and a shorter one is spread over the width. A series
    /// with no samples or no spread gives `width` zeros.
    pub fn sparkline_data(&self, width: usize) -> (r: Vec<u64>)
        requires
            self.wf(),
        ensures
            r@.len() == width,
            self.flat() ==> forall|k: int| 0 <= k < width ==> r@[k] == 0,
            !self.flat() ==> forall|k: int|
                0 <= k < width ==> #[trigger] spark_point(r@, self.data@, self.min, self.max, width as int, k),
    {
        let n = self.data.len();
        let mut out: Vec<u64> = Vec::new();
        let flat = n == 0 || self.max <= self.min;
        let range: i128 = if flat {
            1
        } else {
            self.max as i128 - self.min as i128
        };
        let mut k: usize = 0;
        while k < width
            invariant
                n == self.data@.len(),
                self.wf(),
                flat == self.flat(),
                !flat ==> range == self.max - self.min && range > 0,
                k <= width,
                out@.len() == k,
                flat ==> forall|x: int| 0 <= x < k ==> out@[x] == 0,
                !flat ==> forall|x: int|
                    0 <= x < k ==> #[trigger] spark_point(out@, self.data@, self.min, self.max, width as int, x),
            decreases width - k,
        {
            let ghost prev = out@;
            if flat {
                out.push(0);
                proof {
                    assert forall|x: int| 0 <= x < k + 1 implies out@[x] == 0 by {
                        if x < k {
                            assert(out@[x] == prev[x]);
                        }
                    }
                }
            } else {
                proof {
                    lemma_spark_index_bounds(k as int, n as int, width as int);
                    assert((k as int) * (n as int) <= (usize::MAX as int) * (usize::MAX as int))
                        by (nonlinear_arith)
                        requires k <= usize::MAX, n <= usize::MAX;
                    assert((k as int) * ((n / width) as int) <= (usize::MAX as int) * (usize::MAX as int))
                        by (nonlinear_arith)
                        requires k <= usize::MAX, n / width <= usize::MAX;
                    assert((usize::MAX as int) * (usize::MAX as int) <= u128::MAX) by (nonlinear_arith);
                }
                let idx128: u128 = if n > width {
                    (k as u128) * ((n / width) as u128)
                } else {
                    (k as u128) * (n as u128) / (width as u128)
                };
                let idx = idx128 as usize;
                assert(idx as int == spark_index(k as int, n as int, width as int));
                let v = self.data[idx].1;
                assert(self.min <= v <= self.max) by {
                    assert(self.data@[idx as int] == self.data@[idx as int]);
                }
                let off: i128 = v as i128 - self.min as i128;
                proof {
                    let oi = off as int;
                    let ri = range as int;
                    assert(oi * 1000 / ri <= 1000) by (nonlinear_arith)
                        requires 0 <= oi <= ri, ri > 0;
                    assert(oi * 1000 / ri >= 0) by (nonlinear_arith)
                        requires 0 <= oi, ri > 0;
                    assert(oi * 1000 <= 1000 * ri) by (nonlinear_arith)
                        requires 0 <= oi <= ri;
                }
                let q: u64 = (off * 1000 / range) as u64;
                out.push(q);
                proof {
                    assert forall|x: int|
                        0 <= x < k + 1 implies #[trigger] spark_point(out@, self.data@, self.min, self.max, width as int, x) by {
                        if x < k {
                            assert(spark_point(prev, self.data@, self.min, self.max, width as int, x));
                            assert(out@[x] == prev[x]);
                        }
                    }
                }
            }
            k = k + 1;
        }
        out
    }
}

/// The level, 0 to 7, of a sample in thousandths: clamped to 1000, scaled to
/// 7 and rounded half up.
pub open spec fn bar_level(v: u64) -> nat {
    let c: nat = if v > 1000 { 1000 } else { v as nat };
    let i: nat = (c * 14 + 1000) / 2000;
    if i > 7 { 7 } else { i }
}

pub open spec fn bar_char(level: nat) -> char {
    if level == 0 {
        '▁'
    } else if level == 1 {
        '▂'
    } else if level == 2 {
        '▃'
    } else if level == 3 {
        '▄'
    } else if level == 4 {
        '▅'
    } else if level == 5 {
        '▆'
    } else if level == 6 {
        '▇'
    } else {
        '█'
    }
}

/// The filler of a sparkline.
pub open spec fn dash() -> char {
    '─'
}

/// `out[k]` is the bar of sample `k * step` of `data`, for every `k` below `count`.
pub open spec fn bars_prefix(out: Seq<char>, data: Seq<u64>, step: int, count: int) -> bool {
    forall|k: int| 0 <= k < count ==> #[trigger] bar_at(out, data, step, k)
}

pub open spec fn bar_at(out: Seq<char>, data: Seq<u64>, step: int, k: int) -> bool {
    0 <= k * step < data.len() && out[k] == bar_char(bar_level(data[k * step]))
}

/// The sparkline of `data` at `width`: `count` bars, then dashes.
pub open spec fn sparkline_text(r: Seq<char>, data: Seq<u64>, width: nat, count: int) -> bool {
    let step = spark_step(data.len(), width) as int;
    &&& 0 <= count <= width
    &&& (count < width ==> count * step >= data.len())
    &&& bars_prefix(r, data, step, count)
    &&& forall|k: int| count <= k < width ==> #[trigger] r[k] == dash()
}

fn bar_str(v: u64) -> (r: &'static str)
    ensures
        r@ == seq![bar_char(bar_level(v))],
{
    let c: u64 = if v > 1000 {
        1000
    } else {
        v
    };
    let i: u64 = (c * 14 + 1000) / 2000;
    proof {
        reveal_strlit("▁");
        reveal_strlit("▂");
        reveal_strlit("▃");
        reveal_strlit("▄");
        reveal_strlit("▅");
        reveal_strlit("▆");
        reveal_strlit("▇");
        reveal_strlit("█");
    }
    let r = if i == 0 {
        "▁"
    } else if i == 1 {
        "▂"
    } else if i == 2 {
        "▃"
    } else if i == 3 {
        "▄"
    } else if i == 4 {
        "▅"
    } else if i == 5 {
        "▆"
    } else if i == 6 {
        "▇"
    } else {
        "█"
    };
    assert(r@ =~= seq![bar_char(bar_level(v))]);
    r
}

/// A sparkline of `width` characters from samples in thousandths: every
/// `step`-th sample as one of eight bars (`step` as for `sparkline_data`), up
/// to `width` of them, then `─` up to `width`. No samples give `width` dashes.
pub fn render_sparkline(data: &[u64], width: usize) -> (r: String)
    ensures
        r@.len() == width,
        data@.len() == 0 ==> sparkline_text(r@, data@, width as nat, 0),
        data@.len() > 0 ==> exists|count: int| #[trigger] sparkline_text(r@, data@, width as nat, count),
{
    let n = data.len();
    let mut out = String::new();
    let mut count: usize = 0;
    let ghost step_g: int = spark_step(n as nat, width as nat) as int;
    proof {
        reveal_strlit("─");
    }
    if n > 0 && width > 0 {
        let step: usize = if n <= width {
            1
        } else {
            n / width
        };
        assert(step >= 1) by (nonlinear_arith)
            requires step == (if n <= width { 1 } else { n / width }), width > 0;
        let mut idx: usize = 0;
        while idx < n && count < width
            invariant
                n == data@.len(),
                step == spark_step(n as nat, width as nat),
                step >= 1,
                count <= width,
                out@.len() == count,
                idx == count * step || (idx == n && count * step >= n),
                idx <= n,
                bars_prefix(out@, data@, step as int, count as int),
            decreases n - idx,
        {
            let ghost prev = out@;
            out.append(bar_str(data[idx]));
            proof {
                assert(out@ =~= prev.push(bar_char(bar_level(data@[idx as int]))));
                assert((count + 1) * step == count * step + step) by (nonlinear_arith);
                assert forall|k: int| 0 <= k < count + 1 implies #[trigger] bar_at(out@, data@, step as int, k) by {
                    assert(k * step >= 0) by (nonlinear_arith)
                        requires k >= 0, step >= 1;
                    if k < count {
                        assert(bar_at(prev, data@, step as int, k));
                        assert(out@[k] == prev[k]);
                    } else {
                        assert(k == count);
                        assert(k * step == idx);
                    }
                }
            }
            count = count + 1;
            if idx > n - step {
                idx = n;
            } else {
                idx = idx + step;
            }
        }
    }
    let ghost head = out@;
    let mut pad: usize = count;
    while pad < width
        invariant
            count <= pad <= width,
            head.len() == count,
            out@.len() == pad,
            out@.take(count as int) == head,
            forall|k: int| count <= k < pad ==> #[trigger] out@[k] == dash(),
        decreases width - pad,
    {
        let ghost prev = out@;
        proof {
            reveal_strlit("─");
        }
        out.append("─");
        proof {
            assert(out@ =~= prev.push(dash()));
            assert(out@.take(count as int) =~= prev.take(count as int));
        }
        pad = pad + 1;
    }
    proof {
        if n > 0 && width > 0 {
            assert forall|k: int| 0 <= k < count implies #[trigger] bar_at(out@, data@, step_g, k) by {
                assert(bar_at(head, data@, step_g, k));
                assert(out@[k] == out@.take(count as int)[k]);
            }
            assert(sparkline_text(out@, data@, width as nat, count as int));
        } else if n > 0 {
            assert(sparkline_text(out@, data@, width as nat, 0));
        } else {
            assert(sparkline_text(out@, data@, width as nat, 0));
        }
    }
    out
}

/// Tracked series by label.
#[derive(Debug)]
pub struct MetricTracker {
    pub metrics: Vec<(String, TrackedMetric)>,
    pub max_points: usize,
}

/// `post` is `pre` after document `j` arrived on `topic` at `now`: every series
/// whose filter accepts the topic and whose field path resolves to a number
/// records it; the others, and the labels, stay as they are.
pub open spec fn fed(pre: MetricTracker, post: MetricTracker, topic: Seq<char>, j: Json, now: i64) -> bool {
    &&& post.max_points == pre.max_points
    &&& post.metrics@.len() == pre.metrics@.len()
    &&& forall|i: int|
        0 <= i < pre.metrics@.len() ==> {
            let a = #[trigger] pre.metrics@[i];
            let b = post.metrics@[i];
            &&& b.0 == a.0
            &&& if matches_spec(a.1.topic_pattern@, topic) && extract_spec(j, a.1.field_path@) is Some {
                recorded(a.1, b.1, extract_spec(j, a.1.field_path@).unwrap(), now, pre.max_points as nat)
            } else {
                b.1 == a.1
            }
        }
}

impl MetricTracker {
    pub open spec fn wf(&self) -> bool {
        &&& unique_keys(self.metrics@)
        &&& self.max_points > 0
        &&& forall|i: int| 0 <= i < self.metrics@.len() ==> (#[trigger] self.metrics@[i]).1.wf()
    }

    /// A tracker keeping `max_points` samples per series; `None` for zero.
    pub fn new(max_points: usize) -> (r: Option<Self>)
        ensures
            r is None <==> max_points == 0,
            r matches Some(t) ==> t.wf() && t.metrics@.len() == 0 && t.max_points == max_points,
    {
        if max_points == 0 {
            None
        } else {
            Some(MetricTracker { metrics: Vec::new(), max_points })
        }
    }

    /// Tracks a new series under `label`, replacing any series of that label.
    pub fn track(&mut self, label: String, topic_pattern: String, field_path: String)
        requires
            old(self).wf(),
        ensures
            final(self).wf(),
            final(self).max_points == old(self).max_points,
            keyed(final(self).metrics@).dom() == keyed(old(self).metrics@).dom().insert(label@),
            forall|l: Seq<char>|
                l != label@ && keyed(old(self).metrics@).contains_key(l) ==> keyed(
                    final(self).metrics@,
                )[l] == keyed(old(self).metrics@)[l],
            ({
                let m = keyed(final(self).metrics@)[label@];
                &&& m.label == label
                &&& m.topic_pattern == topic_pattern
                &&& m.field_path == field_path
                &&& m.data@.len() == 0
                &&& m.count == 0
            }),
    {
        let key = label.clone();
        let ghost pre = self.metrics@;
        let m = TrackedMetric::new(label, topic_pattern, field_path);
        let ghost gm = m;
        set_entry(&mut self.metrics, key, m);
        proof {
            let post = self.metrics@;
            assert(keyed(post) == keyed(pre).insert(label@, gm));
            assert(keyed(post).dom() =~= keyed(pre).dom().insert(label@));
            assert forall|i: int| 0 <= i < post.len() implies (#[trigger] post[i]).1.wf() by {
                lemma_keyed_has(post, i);
                if post[i].0@ != label@ {
                    lemma_keyed_keys(pre, post[i].0@);
                    let x = choose|x: int| 0 <= x < pre.len() && pre[x].0@ == post[i].0@;
                    lemma_keyed_has(pre, x);
                    assert(pre[x].1.wf());
                }
            }
        }
    }

    /// Stops tracking the series under `label`.
    pub fn untrack(&mut self, label: &str)
        requires
            old(self).wf(),
        ensures
            final(self).wf(),
            final(self).max_points == old(self).max_points,
            keyed(final(self).metrics@) == keyed(old(self).metrics@).remove(label@),
    {
        let ghost pre = self.metrics@;
        match find_key(&self.metrics, label) {
            Some(i) => {
                proof {
                    lemma_keyed_remove(pre, i as int);
                }
                self.metrics.remove(i);
                proof {
                    let post = self.metrics@;
                    assert forall|j: int| 0 <= j < post.len() implies (#[trigger] post[j]).1.wf() by {
                        if j < i {
                            assert(post[j] == pre[j]);
                        } else {
                            assert(post[j] == pre[j + 1]);
                        }
                    }
                }
            },
            None => {
                proof {
                    assert(keyed(pre).remove(label@) =~= keyed(pre));
                }
            },
        }
    }

    /// Records into every series whose filter accepts `topic` the value at its
    /// field path in `json`, at time `now`; other series stay as they are.
    pub fn process_json(&mut self, topic: &str, json: &Json, now: i64)
        requires
            old(self).wf(),
        ensures
            final(self).wf(),
            fed(*old(self), *final(self), topic@, *json, now),
    {
        let mut i: usize = 0;
        while i < self.metrics.len()
            invariant
                i <= self.metrics@.len(),
                self.metrics@.len() == old(self).metrics@.len(),
                self.max_points == old(self).max_points,
                unique_keys(old(self).metrics@),
                self.max_points > 0,
                forall|x: int| 0 <= x < self.metrics@.len() ==> (#[trigger] self.metrics@[x]).1.wf(),
                forall|x: int| 0 <= x < self.metrics@.len() ==> (#[trigger] self.metrics@[x]).0 == old(self).metrics@[x].0,
                forall|x: int| i <= x < self.metrics@.len() ==> (#[trigger] self.metrics@[x]) == old(self).metrics@[x],
                forall|x: int|
                    0 <= x < i ==> {
                        let pre = #[trigger] old(self).metrics@[x];
                        let post = self.metrics@[x];
                        if matches_spec(pre.1.topic_pattern@, topic@) && extract_spec(
                            *json,
                            pre.1.field_path@,
                        ) is Some {
                            recorded(
                                pre.1,
                                post.1,
                                extract_spec(*json, pre.1.field_path@).unwrap(),
                                now,
                                old(self).max_points as nat,
                            )
                        } else {
                            post.1 == pre.1
                        }
                    },
            decreases self.metrics.len() - i,
        {
            let hit = topic_matches(self.metrics[i].1.topic_pattern.as_str(), topic);
            if hit {
                let v = extract_numeric(json, self.metrics[i].1.field_path.as_str());
                match v {
                    Some(x) => {
                        let max_points = self.max_points;
                        let ghost before = self.metrics@;
                        self.metrics[i].1.record_at(x, max_points, now);
                        proof {
                            assert forall|y: int| 0 <= y < self.metrics@.len() && y != i implies #[trigger] self.metrics@[y] == before[y] by {}
                        }
                    },
                    None => {},
                }
            }
            i = i + 1;
        }
        proof {
            assert(self.metrics@.len() == old(self).metrics@.len());
            assert forall|a: int, b: int| 0 <= a < b < self.metrics@.len() implies self.metrics@[a].0@ != self.metrics@[b].0@ by {
                assert(self.metrics@[a].0 == old(self).metrics@[a].0);
                assert(self.metrics@[b].0 == old(self).metrics@[b].0);
            }
        }
    }

    /// Handles one payload on `topic`: a JSON payload feeds the series as
    /// `process_json` says; any other payload changes nothing.
    pub fn process_message(&mut self, topic: &str, payload: &[u8])
        requires
            old(self).wf(),
        ensures
            final(self).wf(),
            match json_of(payload@) {
                Some(j) => exists|now: i64| #[trigger] fed(*old(self), *final(self), topic@, j, now),
                None => *final(self) == *old(self),
            },
    {
        match parse_json(payload) {
            Some(j) => {
                let now = now_millis();
                self.process_json(topic, &j, now);
            },
            None => {},
        }
    }

    /// Every tracked series.
    pub fn get_metrics(&self) -> (r: Vec<&TrackedMetric>)
        ensures
            r@.len() == self.metrics@.len(),
            forall|i: int| 0 <= i < r@.len() ==> *r@[i] == self.metrics@[i].1,
    {
        let mut out: Vec<&TrackedMetric> = Vec::new();
        let mut i: usize = 0;
        while i < self.metrics.len()
            invariant
                i <= self.metrics@.len(),
                out@.len() == i,
                forall|k: int| 0 <= k < i ==> *out@[k] == self.metrics@[k].1,
            decreases self.metrics.len() - i,
        {
            out.push(&self.metrics[i].1);
            i = i + 1;
        }
        out
    }

    /// The series under `label`.
    pub fn get_metric(&self, label: &str) -> (r: Option<&TrackedMetric>)
        requires
            self.wf(),
        ensures
            match r {
                Some(m) => keyed(self.metrics@).contains_key(label@) && *m == keyed(
                    self.metrics@,
                )[label@],
                None => !keyed(self.metrics@).contains_key(label@),
            },
    {
        match find_key(&self.metrics, label) {
            Some(i) => {
                proof {
                    lemma_keyed_has(self.metrics@, i as int);
                }
                Some(&self.metrics[i].1)
            },
            None => None,
        }
    }

    /// Whether any series is tracked.
    pub fn has_metrics(&self) -> (r: bool)
        requires
            self.wf(),
        ensures
            r == (keyed(self.metrics@).len() > 0),
    {
        proof {
            lemma_keyed_len(self.metrics@);
        }
        self.metrics.len() > 0
    }
}

} // verus!
