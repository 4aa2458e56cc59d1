//! Lists of `(key, value)` pairs with distinct text keys, read as maps.

use vstd::prelude::*;

verus! {

/// The map that a list of pairs describes; a later pair wins over an earlier
/// one with the same key.
pub open spec fn keyed<V>(s: Seq<(String, V)>) -> Map<Seq<char>, V>
    decreases s.len(),
{
    if s.len() == 0 {
        Map::empty()
    } else {
        keyed(s.drop_last()).insert(s.last().0@, s.last().1)
    }
}

pub open spec fn unique_keys<V>(s: Seq<(String, V)>) -> bool {
    forall|i: int, j: int| 0 <= i < j < s.len() ==> s[i].0@ != s[j].0@
}

pub proof fn lemma_keyed_push<V>(s: Seq<(String, V)>, e: (String, V))
    ensures
        keyed(s.push(e)) == keyed(s).insert(e.0@, e.1),
{
    assert(s.push(e).drop_last() =~= s);
}

pub proof fn lemma_keyed_has<V>(s: Seq<(String, V)>, i: int)
    requires
        unique_keys(s),
        0 <= i < s.len(),
    ensures
        keyed(s).contains_key(s[i].0@),
        keyed(s)[s[i].0@] == s[i].1,
    decreases s.len(),
{
    if i < s.len() - 1 {
        lemma_keyed_has(s.drop_last(), i);
    }
}

pub proof fn lemma_keyed_keys<V>(s: Seq<(String, V)>, k: Seq<char>)
    ensures
        keyed(s).contains_key(k) <==> exists|i: int| 0 <= i < s.len() && s[i].0@ == k,
    decreases s.len(),
{
    if s.len() > 0 {
        lemma_keyed_keys(s.drop_last(), k);
        if keyed(s).contains_key(k) && s.last().0@ != k {
            let i = choose|i: int| 0 <= i < s.len() - 1 && s.drop_last()[i].0@ == k;
            assert(s[i].0@ == k);
        }
        if exists|i: int| 0 <= i < s.len() && s[i].0@ == k {
            let i = choose|i: int| 0 <= i < s.len() && s[i].0@ == k;
            if i < s.len() - 1 {
                assert(s.drop_last()[i].0@ == k);
            }
        }
    }
}

pub proof fn lemma_keyed_len<V>(s: Seq<(String, V)>)
    requires
        unique_keys(s),
    ensures
        keyed(s).dom().finite(),
        keyed(s).dom().len() == s.len(),
    decreases s.len(),
{
    if s.len() > 0 {
        let p = s.drop_last();
        lemma_keyed_len(p);
        lemma_keyed_keys(p, s.last().0@);
        assert(!keyed(p).contains_key(s.last().0@)) by {
            if keyed(p).contains_key(s.last().0@) {
                let i = choose|i: int| 0 <= i < p.len() && p[i].0@ == s.last().0@;
                assert(s[i].0@ == s[s.len() - 1].0@);
            }
        }
    }
}

pub proof fn lemma_keyed_update<V>(s: Seq<(String, V)>, i: int, e: (String, V))
    requires
        unique_keys(s),
        0 <= i < s.len(),
        s[i].0@ == e.0@,
    ensures
        keyed(s.update(i, e)) == keyed(s).insert(e.0@, e.1),
        unique_keys(s.update(i, e)),
    decreases s.len(),
{
    let u = s.update(i, e);
    if i == s.len() - 1 {
        assert(u.drop_last() =~= s.drop_last());
        assert(keyed(s).insert(e.0@, e.1) =~= keyed(s.drop_last()).insert(e.0@, e.1));
    } else {
        assert(u.drop_last() =~= s.drop_last().update(i, e));
        lemma_keyed_update(s.drop_last(), i, e);
        assert(s.last().0@ != e.0@);
        assert(keyed(u) =~= keyed(s).insert(e.0@, e.1));
    }
    assert forall|a: int, b: int| 0 <= a < b < u.len() implies u[a].0@ != u[b].0@ by {
        assert(s[a].0@ != s[b].0@);
    }
}

pub proof fn lemma_keyed_remove<V>(s: Seq<(String, V)>, i: int)
    requires
        unique_keys(s),
        0 <= i < s.len(),
    ensures
        keyed(s.remove(i)) == keyed(s).remove(s[i].0@),
        unique_keys(s.remove(i)),
    decreases s.len(),
{
    let r = s.remove(i);
    let k = s[i].0@;
    if i == s.len() - 1 {
        assert(r =~= s.drop_last());
        lemma_keyed_keys(s.drop_last(), k);
        assert(!keyed(s.drop_last()).contains_key(k)) by {
            if keyed(s.drop_last()).contains_key(k) {
                let j = choose|j: int| 0 <= j < s.len() - 1 && s.drop_last()[j].0@ == k;
                assert(s[j].0@ == s[i].0@);
            }
        }
        assert(keyed(s).remove(k) =~= keyed(s.drop_last()));
    } else {
        assert(r.drop_last() =~= s.drop_last().remove(i));
        lemma_keyed_remove(s.drop_last(), i);
        assert(r.last() == s.last());
        assert(s.last().0@ != k);
        assert(keyed(r) =~= keyed(s).remove(k));
    }
    assert forall|a: int, b: int| 0 <= a < b < r.len() implies r[a].0@ != r[b].0@ by {
        if a < i {
            if b < i {
                assert(s[a].0@ != s[b].0@);
            } else {
                assert(s[a].0@ != s[b + 1].0@);
            }
        } else {
            assert(s[a + 1].0@ != s[b + 1].0@);
        }
    }
}

/// The position of `key`, if it is present.
pub fn find_key<V>(v: &Vec<(String, V)>, key: &str) -> (r: Option<usize>)
    requires
        unique_keys(v@),
    ensures
        match r {
            Some(i) => i < v@.len() && v@[i as int].0@ == key@,
            None => !keyed(v@).contains_key(key@),
        },
{
    let target = String::from_str(key);
    let mut i: usize = 0;
    while i < v.len()
        invariant
            i <= v.len(),
            target@ == key@,
            forall|k: int| 0 <= k < i ==> v@[k].0@ != key@,
        decreases v.len() - i,
    {
        if v[i].0 == target {
            return Some(i);
        }
        i = i + 1;
    }
    proof {
        lemma_keyed_keys(v@, key@);
    }
    None
}

/// Sets `key -> val`, keeping each key once.
pub fn set_entry<V>(v: &mut Vec<(String, V)>, key: String, val: V)
    requires
        unique_keys(old(v)@),
    ensures
        unique_keys(final(v)@),
        keyed(final(v)@) == keyed(old(v)@).insert(key@, val),
{
    match find_key(v, key.as_str()) {
        Some(i) => {
            let ghost prev = v@;
            let ghost e = (key, val);
            proof {
                lemma_keyed_update(prev, i as int, e);
            }
            v.set(i, (key, val));
            assert(v@ == prev.update(i as int, e));
        },
        None => {
            let ghost prev = v@;
            let ghost e = (key, val);
            proof {
                lemma_keyed_keys(prev, e.0@);
            }
            v.push((key, val));
            proof {
                lemma_keyed_push(prev, e);
                assert(v@ == prev.push(e));
                assert forall|a: int, b: int| 0 <= a < b < v@.len() implies v@[a].0@
                    != v@[b].0@ by {
                    if b < prev.len() {
                        assert(prev[a].0@ != prev[b].0@);
                    }
                }
            }
        },
    }
}

} // verus!
