//! Splitting of `/`-delimited topics and wildcard (`+`, `#`) filter matching.

use vstd::prelude::*;

verus! {

/// The pieces of `s` between occurrences of `sep`, left to right.
/// An empty text is one empty piece; `n` separators give `n + 1` pieces.
pub open spec fn split_spec(s: Seq<char>, sep: char) -> Seq<Seq<char>>
    decreases s.len(),
{
    if s.len() == 0 {
        seq![Seq::<char>::empty()]
    } else {
        let init = split_spec(s.drop_last(), sep);
        if s.last() == sep {
            init.push(Seq::<char>::empty())
        } else {
            init.update(init.len() - 1, init.last().push(s.last()))
        }
    }
}

/// The text views of a vector of strings.
pub open spec fn views(v: Seq<String>) -> Seq<Seq<char>> {
    v.map_values(|x: String| x@)
}

pub proof fn lemma_split_nonempty(s: Seq<char>, sep: char)
    ensures
        split_spec(s, sep).len() >= 1,
    decreases s.len(),
{
    if s.len() > 0 {
        lemma_split_nonempty(s.drop_last(), sep);
    }
}

/// The pieces joined back with `sep` between them.
pub open spec fn join_spec(parts: Seq<Seq<char>>, sep: char) -> Seq<char>
    decreases parts.len(),
{
    if parts.len() <= 1 {
        if parts.len() == 1 {
            parts[0]
        } else {
            Seq::empty()
        }
    } else {
        join_spec(parts.drop_last(), sep) + seq![sep] + parts.last()
    }
}

proof fn lemma_join_extend_last(parts: Seq<Seq<char>>, sep: char, c: char)
    requires
        parts.len() >= 1,
    ensures
        join_spec(parts.update(parts.len() - 1, parts.last().push(c)), sep) == join_spec(parts, sep).push(c),
{
    let u = parts.update(parts.len() - 1, parts.last().push(c));
    if parts.len() == 1 {
    } else {
        assert(u.drop_last() =~= parts.drop_last());
        assert(join_spec(u, sep) =~= join_spec(parts, sep).push(c));
    }
}

/// Joining the pieces gives the text back.
pub proof fn lemma_join_split(s: Seq<char>, sep: char)
    ensures
        join_spec(split_spec(s, sep), sep) == s,
    decreases s.len(),
{
    if s.len() == 0 {
        assert(join_spec(seq![Seq::<char>::empty()], sep) =~= s);
    } else {
        let init = s.drop_last();
        lemma_join_split(init, sep);
        lemma_split_nonempty(init, sep);
        let sp = split_spec(init, sep);
        if s.last() == sep {
            assert(sp.push(Seq::<char>::empty()).drop_last() =~= sp);
            assert(join_spec(sp.push(Seq::<char>::empty()), sep) =~= s);
        } else {
            lemma_join_extend_last(sp, sep, s.last());
            assert(init.push(s.last()) =~= s);
        }
    }
}

/// Different texts split into different pieces.
pub proof fn lemma_split_injective(a: Seq<char>, b: Seq<char>, sep: char)
    requires
        split_spec(a, sep) == split_spec(b, sep),
    ensures
        a == b,
{
    lemma_join_split(a, sep);
    lemma_join_split(b, sep);
}

/// Splits `s` on every occurrence of `sep`.
pub fn split_on(s: &str, sep: char) -> (r: Vec<String>)
    ensures
        views(r@) == split_spec(s@, sep),
{
    let n = s.unicode_len();
    let mut parts: Vec<String> = Vec::new();
    let mut start: usize = 0;
    let mut i: usize = 0;
    proof {
        assert(s@.subrange(0, 0) =~= Seq::<char>::empty());
        assert(views(parts@).push(s@.subrange(0, 0)) =~= seq![Seq::<char>::empty()]);
    }
    while i < n
        invariant
            n == s@.len(),
            start <= i <= n,
            views(parts@).push(s@.subrange(start as int, i as int)) == split_spec(
                s@.subrange(0, i as int),
                sep,
            ),
        decreases n - i,
    {
        let c = s.get_char(i);
        proof {
            lemma_split_nonempty(s@.subrange(0, i as int), sep);
            assert(s@.subrange(0, i + 1).drop_last() =~= s@.subrange(0, i as int));
            assert(s@.subrange(0, i + 1).last() == c);
        }
        if c == sep {
            let piece = String::from_str(s.substring_char(start, i));
            let ghost prev = parts@;
            parts.push(piece);
            proof {
                assert(views(parts@) =~= views(prev).push(s@.subrange(start as int, i as int)));
                assert(s@.subrange(i + 1, i + 1) =~= Seq::<char>::empty());
            }
            start = i + 1;
        } else {
            proof {
                assert(s@.subrange(start as int, i + 1) =~= s@.subrange(start as int, i as int).push(c));
            }
        }
        i = i + 1;
    }
    let last = String::from_str(s.substring_char(start, n));
    let ghost prev = parts@;
    parts.push(last);
    proof {
        assert(views(parts@) =~= views(prev).push(s@.subrange(start as int, n as int)));
        assert(s@.subrange(0, n as int) =~= s@);
    }
    parts
}

/// Whether filter segments `p` accept topic segments `t`: `#` accepts whatever
/// remains (also nothing), `+` accepts exactly one segment, any other segment
/// must equal the topic's segment, and both must run out together.
pub open spec fn segments_match(p: Seq<Seq<char>>, t: Seq<Seq<char>>) -> bool
    decreases p.len(),
{
    if p.len() == 0 {
        t.len() == 0
    } else if p[0] == seq!['#'] {
        true
    } else if t.len() == 0 {
        false
    } else if p[0] == seq!['+'] || p[0] == t[0] {
        segments_match(p.drop_first(), t.drop_first())
    } else {
        false
    }
}

/// Whether the filter `pattern` accepts `topic`, both split on `/`.
pub open spec fn matches_spec(pattern: Seq<char>, topic: Seq<char>) -> bool {
    segments_match(split_spec(pattern, '/'), split_spec(topic, '/'))
}

/// Whether `s` is exactly the one character `c`.
pub fn is_single(s: &str, c: char) -> (r: bool)
    ensures
        r == (s@ == seq![c]),
{
    if s.unicode_len() == 1 {
        let first = s.get_char(0);
        if first == c {
            assert(s@ =~= seq![c]);
            true
        } else {
            false
        }
    } else {
        false
    }
}

/// Whether the topic `topic` is accepted by the wildcard filter `pattern`.
pub fn topic_matches(pattern: &str, topic: &str) -> (r: bool)
    ensures
        r == matches_spec(pattern@, topic@),
{
    let pp = split_on(pattern, '/');
    let tt = split_on(topic, '/');
    let ghost gp = views(pp@);
    let ghost gt = views(tt@);
    let mut i: usize = 0;
    assert(gp.skip(0) =~= gp);
    assert(gt.skip(0) =~= gt);
    while i < pp.len()
        invariant
            gp == views(pp@),
            gt == views(tt@),
            gp == split_spec(pattern@, '/'),
            gt == split_spec(topic@, '/'),
            i <= pp.len(),
            i <= tt.len(),
            gp.len() == pp@.len(),
            gt.len() == tt@.len(),
            segments_match(gp, gt) == segments_match(gp.skip(i as int), gt.skip(i as int)),
        decreases pp.len() - i,
    {
        let ghost sp = gp.skip(i as int);
        let ghost st = gt.skip(i as int);
        assert(sp[0] == pp@[i as int]@);
        if is_single(pp[i].as_str(), '#') {
            return true;
        }
        if i >= tt.len() {
            assert(st.len() == 0);
            return false;
        }
        assert(st[0] == tt@[i as int]@);
        if is_single(pp[i].as_str(), '+') || pp[i] == tt[i] {
            assert(sp.drop_first() =~= gp.skip(i + 1));
            assert(st.drop_first() =~= gt.skip(i + 1));
            i = i + 1;
        } else {
            return false;
        }
    }
    assert(gp.skip(i as int).len() == 0);
    i == tt.len()
}

/// The filter `#` accepts every topic, the empty topic included.
pub proof fn lemma_hash_accepts_all(topic: Seq<char>)
    ensures
        matches_spec(seq!['#'], topic),
{
    let h = seq!['#'];
    assert(h.drop_last() =~= Seq::<char>::empty());
    assert(split_spec(Seq::<char>::empty(), '/') == seq![Seq::<char>::empty()]);
    assert(Seq::<char>::empty().push('#') =~= h);
    assert(split_spec(h, '/') =~= seq![h]);
}

} // verus!
