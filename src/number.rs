//! Decimal numbers read from text as fixed-point thousandths.

use vstd::prelude::*;

verus! {

/// Values are held as integer thousandths.
pub const SCALE: i64 = 1000;

pub open spec fn is_digit(c: char) -> bool {
    '0' <= c && c <= '9'
}

pub open spec fn all_digits(s: Seq<char>) -> bool {
    forall|i: int| 0 <= i < s.len() ==> is_digit(#[trigger] s[i])
}

/// The value of a run of decimal digits.
pub open spec fn digits_value(s: Seq<char>) -> nat
    decreases s.len(),
{
    if s.len() == 0 {
        0
    } else {
        digits_value(s.drop_last()) * 10 + (s.last() as nat - '0' as nat) as nat
    }
}

/// Position of the first `.` in `s`, or its length when there is none.
pub open spec fn dot_index(s: Seq<char>) -> nat
    decreases s.len(),
{
    if s.len() == 0 {
        0
    } else if s[0] == '.' {
        0
    } else {
        1 + dot_index(s.drop_first())
    }
}

/// Position of the first exponent mark (`e` or `E`) in `s`, or its length.
pub open spec fn exp_index(s: Seq<char>) -> nat
    decreases s.len(),
{
    if s.len() == 0 {
        0
    } else if s[0] == 'e' || s[0] == 'E' {
        0
    } else {
        1 + exp_index(s.drop_first())
    }
}

/// The values of the digits of `m`, points left out, in order.
pub open spec fn digit_seq(m: Seq<char>) -> Seq<nat>
    decreases m.len(),
{
    if m.len() == 0 {
        Seq::empty()
    } else if m.last() == '.' {
        digit_seq(m.drop_last())
    } else {
        digit_seq(m.drop_last()).push((m.last() as nat - '0' as nat) as nat)
    }
}

/// The number that a run of digit values spells.
pub open spec fn seq_value(d: Seq<nat>) -> nat
    decreases d.len(),
{
    if d.len() == 0 {
        0
    } else {
        seq_value(d.drop_last()) * 10 + d.last()
    }
}

pub open spec fn pow10(n: nat) -> nat
    decreases n,
{
    if n == 0 {
        1
    } else {
        10 * pow10((n - 1) as nat)
    }
}

/// Decimal digits with at most one point, and at least one digit.
pub open spec fn plain_mantissa(m: Seq<char>) -> bool {
    &&& forall|x: int| 0 <= x < m.len() ==> is_digit(#[trigger] m[x]) || (m[x] == '.' && x == dot_index(m))
    &&& digit_seq(m).len() > 0
}

/// The exponent written in `t`: an optional sign and at least one digit.
pub open spec fn exponent_value(t: Seq<char>) -> Option<int> {
    let signed = t.len() > 0 && (t[0] == '-' || t[0] == '+');
    let d = if signed { t.skip(1) } else { t };
    if d.len() > 0 && all_digits(d) {
        Some(if t.len() > 0 && t[0] == '-' { -digits_value(d) } else { digits_value(d) as int })
    } else {
        None
    }
}

/// The magnitude in thousandths of the digits `d` whose first `t` digits lie
/// at or above the thousandths place: later digits are cut off, missing ones
/// are zeros.
pub open spec fn milli_magnitude(d: Seq<nat>, t: int) -> nat {
    if t <= 0 {
        0
    } else if t >= d.len() {
        seq_value(d) * pow10((t - d.len()) as nat)
    } else {
        seq_value(d.take(t))
    }
}

/// The decimal text `s` in thousandths, cut toward zero: an optional sign, a
/// mantissa of digits with at most one point (at least one digit), and an
/// optional exponent (`e` or `E`, an optional sign, digits) that moves the
/// point; `None` for other text or a value out of `i64` range.
pub open spec fn parse_milli_spec(s: Seq<char>) -> Option<i64> {
    let signed = s.len() > 0 && (s[0] == '-' || s[0] == '+');
    let neg = s.len() > 0 && s[0] == '-';
    let body = if signed { s.skip(1) } else { s };
    let ei = exp_index(body) as int;
    let mant = body.take(ei);
    let e = if ei < body.len() { exponent_value(body.skip(ei + 1)) } else { Some(0int) };
    match e {
        Some(e) => {
            let mag = milli_magnitude(digit_seq(mant), dot_index(mant) + e + 3);
            let v: int = if neg { -mag } else { mag as int };
            if plain_mantissa(mant) && i64::MIN <= v <= i64::MAX {
                Some(v as i64)
            } else {
                None
            }
        },
        None => None,
    }
}

/// The integer written in `s`: an optional sign and at least one decimal
/// digit, nothing else, within `i64` range.
pub open spec fn int_text_spec(s: Seq<char>) -> Option<i64> {
    let signed = s.len() > 0 && (s[0] == '-' || s[0] == '+');
    let neg = s.len() > 0 && s[0] == '-';
    let d = if signed { s.skip(1) } else { s };
    let v: int = if neg { -digits_value(d) } else { digits_value(d) as int };
    if d.len() > 0 && all_digits(d) && i64::MIN <= v <= i64::MAX {
        Some(v as i64)
    } else {
        None
    }
}

/// Reads the integer written in `s`: an optional `+` or `-` followed by
/// decimal digits only, within `i64` range (as `str::parse::<i64>` does).
pub fn parse_i64(s: &str) -> (r: Option<i64>)
    ensures
        r == int_text_spec(s@),
{
    let n = s.unicode_len();
    let ghost g = s@;
    let mut st: usize = 0;
    let mut neg = false;
    if n > 0 {
        let c = s.get_char(0);
        if c == '-' || c == '+' {
            neg = c == '-';
            st = 1;
        }
    }
    let mut i: usize = st;
    let mut v: u128 = 0;
    let mut digits = true;
    proof {
        assert(g.subrange(st as int, st as int) =~= Seq::<char>::empty());
    }
    while i < n
        invariant
            n == g.len(),
            g == s@,
            st <= i <= n,
            digits == all_digits(g.subrange(st as int, i as int)),
            digits ==> v == capped(digits_value(g.subrange(st as int, i as int))),
        decreases n - i,
    {
        let c = s.get_char(i);
        let ghost p = g.subrange(st as int, i as int);
        let ghost q = g.subrange(st as int, i + 1);
        proof {
            assert(q.drop_last() =~= p);
            assert(q.last() == c);
        }
        if digits && '0' <= c && c <= '9' {
            let d = digit_of(c);
            proof {
                assert(all_digits(q));
            }
            if v >= WHOLE_CAP / 10 {
                v = WHOLE_CAP;
            } else {
                v = v * 10 + d;
                if v > WHOLE_CAP {
                    v = WHOLE_CAP;
                }
            }
        } else {
            proof {
                if digits {
                    assert(!is_digit(q[q.len() - 1]));
                }
                assert(!all_digits(q)) by {
                    if !digits {
                        let x = choose|x: int| 0 <= x < p.len() && !is_digit(#[trigger] p[x]);
                        assert(q[x] == p[x]);
                    }
                }
            }
            digits = false;
        }
        i = i + 1;
    }
    let ghost d = g.subrange(st as int, n as int);
    proof {
        let signed = g.len() > 0 && (g[0] == '-' || g[0] == '+');
        assert(signed == (st == 1));
        assert(neg == (g.len() > 0 && g[0] == '-'));
        if signed {
            assert(g.skip(1) =~= d);
        } else {
            assert(g =~= d);
        }
    }
    if !digits || n - st == 0 {
        return None;
    }
    if v >= WHOLE_CAP {
        return None;
    }
    if neg {
        if v > 9_223_372_036_854_775_808 {
            return None;
        }
        if v == 9_223_372_036_854_775_808 {
            return Some(i64::MIN);
        }
        Some(-(v as i64))
    } else {
        if v > 9_223_372_036_854_775_807 {
            return None;
        }
        Some(v as i64)
    }
}

/// A bound above every whole part that fits in range.
pub const WHOLE_CAP: u128 = 100_000_000_000_000_000_000;

pub open spec fn capped(v: nat) -> nat {
    if v < WHOLE_CAP {
        v
    } else {
        WHOLE_CAP as nat
    }
}

pub proof fn lemma_dot_index(s: Seq<char>, k: int)
    requires
        0 <= k <= s.len(),
        forall|x: int| 0 <= x < k ==> s[x] != '.',
        k == s.len() || s[k] == '.',
    ensures
        dot_index(s) == k,
    decreases s.len(),
{
    if s.len() > 0 && k > 0 {
        let t = s.drop_first();
        assert forall|x: int| 0 <= x < k - 1 implies t[x] != '.' by {
            assert(t[x] == s[x + 1]);
        }
        lemma_dot_index(t, k - 1);
    }
}

fn digit_of(c: char) -> (r: u128)
    requires
        is_digit(c),
    ensures
        r == c as nat - '0' as nat,
        r < 10,
{
    (c as u32 - '0' as u32) as u128
}

pub proof fn lemma_exp_index(s: Seq<char>, k: int)
    requires
        0 <= k <= s.len(),
        forall|x: int| 0 <= x < k ==> s[x] != 'e' && s[x] != 'E',
        k == s.len() || s[k] == 'e' || s[k] == 'E',
    ensures
        exp_index(s) == k,
    decreases s.len(),
{
    if s.len() > 0 && k > 0 {
        let t = s.drop_first();
        assert forall|x: int| 0 <= x < k - 1 implies t[x] != 'e' && t[x] != 'E' by {
            assert(t[x] == s[x + 1]);
        }
        lemma_exp_index(t, k - 1);
    }
}

pub proof fn lemma_pow10_mono(a: nat, b: nat)
    requires
        a <= b,
    ensures
        1 <= pow10(a) <= pow10(b),
    decreases b,
{
    if b > a {
        lemma_pow10_mono(a, (b - 1) as nat);
    } else if a > 0 {
        lemma_pow10_mono((a - 1) as nat, (a - 1) as nat);
    }
}

/// The digit values held in bytes.
pub open spec fn nats(v: Seq<u8>) -> Seq<nat> {
    v.map_values(|x: u8| x as nat)
}

/// The value of the first `l` digits, capped.
fn prefix_value(digits: &Vec<u8>, l: usize) -> (r: u128)
    requires
        l <= digits@.len(),
        forall|x: int| 0 <= x < digits@.len() ==> digits@[x] < 10,
    ensures
        r == capped(seq_value(nats(digits@).take(l as int))),
{
    let ghost d = nats(digits@);
    let mut acc: u128 = 0;
    let mut k: usize = 0;
    proof {
        assert(d.take(0) =~= Seq::<nat>::empty());
    }
    while k < l
        invariant
            l <= digits@.len(),
            d == nats(digits@),
            forall|x: int| 0 <= x < digits@.len() ==> digits@[x] < 10,
            k <= l,
            acc == capped(seq_value(d.take(k as int))),
        decreases l - k,
    {
        let x = digits[k] as u128;
        proof {
            assert(d.take(k + 1).drop_last() =~= d.take(k as int));
            assert(d.take(k + 1).last() == x);
        }
        if acc >= WHOLE_CAP / 10 {
            acc = WHOLE_CAP;
        } else {
            acc = acc * 10 + x;
            if acc > WHOLE_CAP {
                acc = WHOLE_CAP;
            }
        }
        k = k + 1;
    }
    acc
}

/// The mantissa of `s` from position `st`: up to the first exponent mark, its
/// digit values, where its point lies, and whether it is a plain mantissa.
fn scan_mantissa(s: &str, st: usize) -> (r: (usize, Vec<u8>, usize, bool))
    requires
        st <= s@.len(),
    ensures
        ({
            let (mark, digits, dot, ok) = r;
            let mant = s@.subrange(st as int, mark as int);
            &&& st <= mark <= s@.len()
            &&& dot <= mark - st
            &&& digits@.len() <= mark - st
            &&& exp_index(s@.skip(st as int)) == mark - st
            &&& s@.skip(st as int).take(mark - st) == mant
            &&& forall|x: int| 0 <= x < digits@.len() ==> digits@[x] < 10
            &&& plain_mantissa(mant) == ok
            &&& ok ==> nats(digits@) == digit_seq(mant) && dot == dot_index(mant)
        }),
{
    let n = s.unicode_len();
    let ghost g = s@;
    let ghost body = g.skip(st as int);
    let mut i: usize = st;
    let mut digits: Vec<u8> = Vec::new();
    let mut seen_dot = false;
    let mut dot_rel: usize = 0;
    let mut shape_ok = true;
    proof {
        assert(g.subrange(st as int, st as int) =~= Seq::<char>::empty());
        assert(nats(digits@) =~= Seq::<nat>::empty());
    }
    while i < n && s.get_char(i) != 'e' && s.get_char(i) != 'E'
        invariant
            n == g.len(),
            g == s@,
            st <= i <= n,
            forall|x: int| st <= x < i ==> g[x] != 'e' && g[x] != 'E',
            shape_ok ==> nats(digits@) == digit_seq(g.subrange(st as int, i as int)),
            forall|x: int| 0 <= x < digits@.len() ==> digits@[x] < 10,
            digits@.len() <= i - st,
            seen_dot ==> dot_rel < i - st && g[st + dot_rel] == '.' && forall|x: int|
                st <= x < st + dot_rel ==> g[x] != '.',
            !seen_dot ==> forall|x: int| st <= x < i ==> g[x] != '.',
            shape_ok == forall|x: int|
                st <= x < i ==> is_digit(#[trigger] g[x]) || (g[x] == '.' && seen_dot && x == st
                    + dot_rel),
        decreases n - i,
    {
        let c = s.get_char(i);
        let ghost p = g.subrange(st as int, i as int);
        let ghost q = g.subrange(st as int, i + 1);
        proof {
            assert(q.drop_last() =~= p);
            assert(q.last() == c);
        }
        if c == '.' {
            if seen_dot {
                shape_ok = false;
            } else {
                seen_dot = true;
                dot_rel = i - st;
            }
        } else if '0' <= c && c <= '9' {
            let d = digit_of(c);
            let ghost before = nats(digits@);
            digits.push(d as u8);
            proof {
                assert(nats(digits@) =~= before.push(d as nat));
            }
        } else {
            shape_ok = false;
        }
        i = i + 1;
    }
    let mark = i;
    let ghost mant = g.subrange(st as int, mark as int);
    let dot: usize = if seen_dot {
        dot_rel
    } else {
        mark - st
    };
    proof {
        assert forall|x: int| 0 <= x < mark - st implies body[x] != 'e' && body[x] != 'E' by {
            assert(body[x] == g[x + st]);
        }
        lemma_exp_index(body, mark - st);
        assert(body.take(mark - st) =~= mant);
        assert forall|x: int| 0 <= x < dot implies mant[x] != '.' by {
            assert(mant[x] == g[st + x]);
        }
        if seen_dot {
            assert(mant[dot as int] == g[st + dot_rel]);
        }
        lemma_dot_index(mant, dot as int);
        if shape_ok {
            assert forall|x: int| 0 <= x < mant.len() implies is_digit(#[trigger] mant[x]) || (
            mant[x] == '.' && x == dot_index(mant)) by {
                assert(mant[x] == g[st + x]);
            }
        } else {
            let y = choose|y: int|
                st <= y < mark && !(is_digit(#[trigger] g[y]) || (g[y] == '.' && seen_dot && y
                    == st + dot_rel));
            assert(mant[y - st] == g[y]);
            if g[y] == '.' && !seen_dot {
                assert(false);
            }
            assert(!plain_mantissa(mant));
        }
    }
    let ok = shape_ok && digits.len() > 0;
    (mark, digits, dot, ok)
}

/// The exponent written in `s` from position `from` to its end: whether it is
/// one, its sign, and its magnitude capped.
fn scan_exponent(s: &str, from: usize) -> (r: (bool, bool, u128))
    requires
        from <= s@.len(),
    ensures
        ({
            let (ok, neg, ev) = r;
            let t = s@.subrange(from as int, s@.len() as int);
            &&& ok == exponent_value(t) is Some
            &&& ev <= WHOLE_CAP
            &&& ok ==> {
                let e = exponent_value(t).unwrap();
                &&& ev < WHOLE_CAP ==> e == if neg { -(ev as int) } else { ev as int }
                &&& ev == WHOLE_CAP ==> if neg { e <= -(WHOLE_CAP as int) } else { e >= WHOLE_CAP as int }
            }
        }),
{
    let n = s.unicode_len();
    let ghost g = s@;
    let ghost t = g.subrange(from as int, n as int);
    let mut est: usize = from;
    let mut neg = false;
    if est < n {
        let c = s.get_char(est);
        if c == '-' || c == '+' {
            neg = c == '-';
            est = est + 1;
        }
    }
    let mut ev: u128 = 0;
    let mut j: usize = est;
    let mut edig = true;
    proof {
        assert(g.subrange(est as int, est as int) =~= Seq::<char>::empty());
    }
    while j < n
        invariant
            n == g.len(),
            g == s@,
            est <= j <= n,
            ev <= WHOLE_CAP,
            edig == all_digits(g.subrange(est as int, j as int)),
            edig ==> ev == capped(digits_value(g.subrange(est as int, j as int))),
        decreases n - j,
    {
        let c = s.get_char(j);
        let ghost p = g.subrange(est as int, j as int);
        let ghost q = g.subrange(est as int, j + 1);
        proof {
            assert(q.drop_last() =~= p);
            assert(q.last() == c);
        }
        if edig && '0' <= c && c <= '9' {
            let d = digit_of(c);
            proof {
                assert(all_digits(q));
            }
            if ev >= WHOLE_CAP / 10 {
                ev = WHOLE_CAP;
            } else {
                ev = ev * 10 + d;
                if ev > WHOLE_CAP {
                    ev = WHOLE_CAP;
                }
            }
        } else {
            proof {
                if edig {
                    assert(!is_digit(q[q.len() - 1]));
                }
                assert(!all_digits(q)) by {
                    if !edig {
                        let x = choose|x: int| 0 <= x < p.len() && !is_digit(#[trigger] p[x]);
                        assert(q[x] == p[x]);
                    }
                }
            }
            edig = false;
        }
        j = j + 1;
    }
    proof {
        let signed = t.len() > 0 && (t[0] == '-' || t[0] == '+');
        assert(signed == (est == from + 1));
        assert(neg == (t.len() > 0 && t[0] == '-'));
        let dd = if signed { t.skip(1) } else { t };
        assert(dd =~= g.subrange(est as int, n as int));
    }
    (edig && n > est, neg, ev)
}

/// The capped magnitude in thousandths of `digits` when the point sits after
/// `dot` of them, moved by `e`.
fn scaled_magnitude(digits: &Vec<u8>, dot: usize, e: i128) -> (r: u128)
    requires
        forall|x: int| 0 <= x < digits@.len() ==> digits@[x] < 10,
        -(WHOLE_CAP as int) < e < WHOLE_CAP as int,
    ensures
        r == capped(milli_magnitude(nats(digits@), dot + e + 3)),
{
    let ghost d = nats(digits@);
    let len = digits.len();
    proof {
        assert(d.take(len as int) =~= d);
    }
    let t: i128 = dot as i128 + e + 3;
    if t <= 0 {
        return 0;
    }
    let l: usize = if t < len as i128 {
        t as usize
    } else {
        len
    };
    let mut acc = prefix_value(digits, l);
    if t > len as i128 {
        let extra: i128 = t - len as i128;
        let mut k: i128 = 0;
        proof {
            assert(pow10(0) == 1);
            assert(seq_value(d) * pow10(0) == seq_value(d)) by (nonlinear_arith)
                requires pow10(0) == 1;
        }
        while k < extra && acc != 0 && acc < WHOLE_CAP
            invariant
                0 <= k <= extra,
                acc <= WHOLE_CAP,
                acc == capped(seq_value(d) * pow10(k as nat)),
            decreases extra - k,
        {
            proof {
                assert(pow10((k + 1) as nat) == 10 * pow10(k as nat));
                assert(seq_value(d) * pow10((k + 1) as nat) == 10 * (seq_value(d) * pow10(k as nat)))
                    by (nonlinear_arith)
                    requires pow10((k + 1) as nat) == 10 * pow10(k as nat);
            }
            acc = if acc >= WHOLE_CAP / 10 {
                WHOLE_CAP
            } else {
                acc * 10
            };
            k = k + 1;
        }
        proof {
            let full = extra as nat;
            lemma_pow10_mono(k as nat, full);
            if acc == 0 {
                assert(seq_value(d) == 0) by (nonlinear_arith)
                    requires seq_value(d) * pow10(k as nat) == 0, pow10(k as nat) >= 1;
                assert(seq_value(d) * pow10(full) == 0) by (nonlinear_arith)
                    requires seq_value(d) == 0;
            } else if acc >= WHOLE_CAP {
                assert(seq_value(d) * pow10(full) >= seq_value(d) * pow10(k as nat))
                    by (nonlinear_arith)
                    requires pow10(full) >= pow10(k as nat);
            }
            assert(milli_magnitude(d, t as int) == seq_value(d) * pow10(full));
        }
    } else {
        proof {
            if t == len as i128 {
                assert(pow10(0) == 1);
                assert(seq_value(d) * pow10(0) == seq_value(d)) by (nonlinear_arith)
                    requires pow10(0) == 1;
                assert(milli_magnitude(d, t as int) == seq_value(d));
            } else {
                assert(milli_magnitude(d, t as int) == seq_value(d.take(t as int)));
            }
        }
    }
    acc
}

/// Reads decimal text, with an optional exponent, as thousandths.
pub fn parse_milli(s: &str) -> (r: Option<i64>)
    ensures
        r == parse_milli_spec(s@),
{
    let n = s.unicode_len();
    let ghost g = s@;
    let mut st: usize = 0;
    let mut neg = false;
    if n > 0 {
        let c = s.get_char(0);
        if c == '-' || c == '+' {
            neg = c == '-';
            st = 1;
        }
    }
    let ghost body = g.skip(st as int);
    proof {
        let signed = g.len() > 0 && (g[0] == '-' || g[0] == '+');
        assert(signed == (st == 1));
        if !signed {
            assert(g.skip(0) =~= g);
        }
    }
    let (mark, digits, dot, m_ok) = scan_mantissa(s, st);
    let ghost mant = g.subrange(st as int, mark as int);
    let (e_ok, e_neg, ev) = if mark < n {
        scan_exponent(s, mark + 1)
    } else {
        (true, false, 0)
    };
    let ghost espec: Option<int> = if mark < n {
        exponent_value(g.subrange(mark + 1, n as int))
    } else {
        Some(0int)
    };
    proof {
        if mark < n {
            assert(body.skip(mark - st + 1) =~= g.subrange(mark + 1, n as int));
        }
    }
    if !m_ok || !e_ok {
        return None;
    }
    let ghost e = espec.unwrap();
    let ghost dg = nats(digits@);
    if ev >= WHOLE_CAP {
        if e_neg {
            proof {
                assert(dot <= mark - st);
                assert(dot + e + 3 <= 0);
            }
            return Some(0);
        }
        let all = prefix_value(&digits, digits.len());
        proof {
            assert(dg.take(dg.len() as int) =~= dg);
            let t = dot + e + 3;
            assert(dg.len() <= mark - st);
            assert(t >= dg.len() + 20);
            lemma_pow10_mono(20, (t - dg.len()) as nat);
            reveal_with_fuel(pow10, 21);
            assert(pow10(20) == 100_000_000_000_000_000_000);
            if all != 0 {
                assert(seq_value(dg) >= 1);
                assert(seq_value(dg) * pow10((t - dg.len()) as nat) >= pow10((t - dg.len()) as nat))
                    by (nonlinear_arith)
                    requires seq_value(dg) >= 1;
            } else {
                assert(seq_value(dg) == 0);
                assert(seq_value(dg) * pow10((t - dg.len()) as nat) == 0) by (nonlinear_arith)
                    requires seq_value(dg) == 0;
            }
        }
        if all == 0 {
            return Some(0);
        }
        return None;
    }
    let e_int: i128 = if e_neg {
        -(ev as i128)
    } else {
        ev as i128
    };
    let mag = scaled_magnitude(&digits, dot, e_int);
    if mag >= WHOLE_CAP {
        return None;
    }
    if neg {
        if mag > 9_223_372_036_854_775_808 {
            return None;
        }
        if mag == 9_223_372_036_854_775_808 {
            return Some(i64::MIN);
        }
        Some(-(mag as i64))
    } else {
        if mag > 9_223_372_036_854_775_807 {
            return None;
        }
        Some(mag as i64)
    }
}

} // verus!
