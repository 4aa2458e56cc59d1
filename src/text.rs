//! Decimal rendering of counts, sizes and durations.

use vstd::prelude::*;
use vstd::string::StringSliceAdditionalSpecFns;
use vstd::utf8::is_char_boundary;

verus! {

pub open spec fn digit_char(d: nat) -> char {
    ('0' as nat + d) as char
}

/// The decimal digits of `n`, without leading zeros.
pub open spec fn decimal_spec(n: nat) -> Seq<char>
    decreases n,
{
    if n < 10 {
        seq![digit_char(n)]
    } else {
        decimal_spec(n / 10).push(digit_char(n % 10))
    }
}

/// `n / unit` rounded half up to `places` decimals (1 or 2), as an integer
/// count of tenths or hundredths.
pub open spec fn scaled(n: nat, unit: nat, places: nat) -> nat {
    let p: nat = if places == 1 { 10 } else { 100 };
    ((2 * n * p + unit) / (2 * unit)) as nat
}

/// The digits after the point of a value held in tenths or hundredths.
pub open spec fn fraction_digits(v: nat, places: nat) -> Seq<char> {
    if places == 1 {
        seq![digit_char(v % 10)]
    } else {
        seq![digit_char((v % 100) / 10), digit_char(v % 10)]
    }
}

/// `n / unit` with `places` decimals, rounded half up.
pub open spec fn fixed_spec(n: nat, unit: nat, places: nat) -> Seq<char> {
    let v = scaled(n, unit, places);
    let p: nat = if places == 1 { 10 } else { 100 };
    decimal_spec(v / p) + seq!['.'] + fraction_digits(v, places)
}

fn digit_str(d: u64) -> (r: &'static str)
    requires
        d < 10,
    ensures
        r@ == seq![digit_char(d as nat)],
{
    proof {
        reveal_strlit("0");
        reveal_strlit("1");
        reveal_strlit("2");
        reveal_strlit("3");
        reveal_strlit("4");
        reveal_strlit("5");
        reveal_strlit("6");
        reveal_strlit("7");
        reveal_strlit("8");
        reveal_strlit("9");
    }
    let r = match d {
        0 => "0",
        1 => "1",
        2 => "2",
        3 => "3",
        4 => "4",
        5 => "5",
        6 => "6",
        7 => "7",
        8 => "8",
        _ => "9",
    };
    assert(r@ =~= seq![digit_char(d as nat)]);
    r
}

/// `n` in decimal.
pub fn decimal(n: u64) -> (r: String)
    ensures
        r@ == decimal_spec(n as nat),
    decreases n,
{
    if n < 10 {
        String::from_str(digit_str(n))
    } else {
        let mut s = decimal(n / 10);
        s.append(digit_str(n % 10));
        s
    }
}

/// `n / unit` with `places` decimals (1 or 2), rounded half up.
pub fn fixed(n: u64, unit: u64, places: u64) -> (r: String)
    requires
        unit > 0,
        places == 1 || places == 2,
    ensures
        r@ == fixed_spec(n as nat, unit as nat, places as nat),
{
    let p: u128 = if places == 1 {
        10
    } else {
        100
    };
    proof {
        assert(2 * (n as int) * (p as int) <= 200 * (u64::MAX as int)) by (nonlinear_arith)
            requires p <= 100, n <= u64::MAX;
        assert((2 * (n as int) * (p as int) + unit) / (2 * unit as int) <= 200 * (u64::MAX as int) / 2 + 1)
            by (nonlinear_arith)
            requires p <= 100, n <= u64::MAX, unit >= 1;
    }
    let v: u128 = (2 * (n as u128) * p + (unit as u128)) / (2 * (unit as u128));
    let whole: u128 = v / p;
    proof {
        let num = 2 * (n as int) * (p as int) + unit;
        let den = 2 * (unit as int);
        assert(v as int * den <= num) by (nonlinear_arith)
            requires v == num / den, den > 0, num >= 0;
        assert(v as int <= (n as int) * (p as int)) by (nonlinear_arith)
            requires v as int * den <= num, num == 2 * (n as int) * (p as int) + unit,
                den == 2 * (unit as int), unit >= 1, n >= 0, p >= 1, v >= 0;
        assert(whole <= n) by (nonlinear_arith)
            requires whole == v / p, v as int <= (n as int) * (p as int), p >= 1;
    }
    let mut s = decimal(whole as u64);
    proof {
        reveal_strlit(".");
    }
    s.append(".");
    if places == 1 {
        s.append(digit_str((v % 10) as u64));
    } else {
        s.append(digit_str(((v % 100) / 10) as u64));
        s.append(digit_str((v % 10) as u64));
    }
    assert(s@ =~= fixed_spec(n as nat, unit as nat, places as nat));
    s
}

/// `s` followed by `t`.
pub fn joined(s: String, t: &str) -> (r: String)
    ensures
        r@ == s@ + t@,
{
    s.concat(t)
}

/// `n` with a unit: millions with two decimals, thousands with one, or plain.
pub open spec fn number_text(n: nat) -> Seq<char> {
    if n >= 1_000_000 {
        fixed_spec(n, 1_000_000, 2) + "M"@
    } else if n >= 1000 {
        fixed_spec(n, 1000, 1) + "k"@
    } else {
        decimal_spec(n)
    }
}

/// `n` with a unit: millions or thousands with one decimal, or plain.
pub open spec fn count_text(n: nat) -> Seq<char> {
    if n >= 1_000_000 {
        fixed_spec(n, 1_000_000, 1) + "M"@
    } else if n >= 1000 {
        fixed_spec(n, 1000, 1) + "k"@
    } else {
        decimal_spec(n)
    }
}

/// A large count in short form: `"1.23M"`, `"4.5k"` or `"999"`.
pub fn format_number(n: u64) -> (r: String)
    ensures
        r@ == number_text(n as nat),
{
    proof {
        reveal_strlit("M");
        reveal_strlit("k");
    }
    if n >= 1_000_000 {
        joined(fixed(n, 1_000_000, 2), "M")
    } else if n >= 1000 {
        joined(fixed(n, 1000, 1), "k")
    } else {
        decimal(n)
    }
}

/// A count in short form: `"1.2M"`, `"4.5k"` or `"999"`.
pub fn format_count(n: u64) -> (r: String)
    ensures
        r@ == count_text(n as nat),
{
    proof {
        reveal_strlit("M");
        reveal_strlit("k");
    }
    if n >= 1_000_000 {
        joined(fixed(n, 1_000_000, 1), "M")
    } else if n >= 1000 {
        joined(fixed(n, 1000, 1), "k")
    } else {
        decimal(n)
    }
}

/// The longest prefix of `s` of at most `max_bytes` bytes that ends on a
/// character boundary; all of `s` when it fits.
pub fn truncate_safe(s: &str, max_bytes: usize) -> (r: &str)
    ensures
        s.len() <= max_bytes ==> r@ == s@,
        s.len() > max_bytes ==> exists|e: int|
            #[trigger] is_char_boundary(s.spec_bytes(), e) && 0 <= e <= max_bytes && r.spec_bytes()
                == s.spec_bytes().subrange(0, e) && forall|k: int|
                e < k <= max_bytes ==> !is_char_boundary(s.spec_bytes(), k),
{
    if s.len() <= max_bytes {
        return s;
    }
    proof {
        vstd::utf8::encode_utf8_valid_utf8(s@);
    }
    let mut end = max_bytes;
    while end > 0 && !s.is_char_boundary(end)
        invariant
            end <= max_bytes,
            vstd::utf8::valid_utf8(s.spec_bytes()),
            forall|k: int| end < k <= max_bytes ==> !is_char_boundary(s.spec_bytes(), k),
        decreases end,
    {
        end = end - 1;
    }
    let (head, _) = s.split_at(end);
    assert(is_char_boundary(s.spec_bytes(), end as int));
    head
}

/// Whether `c` is alphabetic or numeric in Unicode's sense.
pub uninterp spec fn alnum_char(c: char) -> bool;

/// Whether `c` is numeric in Unicode's sense.
pub uninterp spec fn numeric_char(c: char) -> bool;

/// Relies on char::is_alphanumeric, a property of the character alone.
#[verifier::external_body]
fn is_alnum(c: char) -> (r: bool)
    ensures
        r == alnum_char(c),
{
    c.is_alphanumeric()
}

/// Relies on char::is_numeric, a property of the character alone.
#[verifier::external_body]
fn is_num(c: char) -> (r: bool)
    ensures
        r == numeric_char(c),
{
    c.is_numeric()
}

pub open spec fn numeric_count(s: Seq<char>) -> nat
    decreases s.len(),
{
    if s.len() == 0 {
        0
    } else {
        numeric_count(s.drop_last()) + if numeric_char(s.last()) { 1nat } else { 0nat }
    }
}

/// Whether `s` looks like a generated identifier: at least 8 bytes, only
/// alphanumeric characters and `-`, and more than two numeric characters.
pub fn is_uuid_like(s: &str) -> (r: bool)
    ensures
        r == (s.len() >= 8 && (forall|i: int|
            0 <= i < s@.len() ==> alnum_char(#[trigger] s@[i]) || s@[i] == '-') && numeric_count(
            s@,
        ) > 2),
{
    if s.len() < 8 {
        return false;
    }
    let n = s.unicode_len();
    let mut i: usize = 0;
    let mut digits: usize = 0;
    proof {
        assert(s@.take(0) =~= Seq::<char>::empty());
    }
    while i < n
        invariant
            n == s@.len(),
            i <= n,
            forall|k: int| 0 <= k < i ==> alnum_char(#[trigger] s@[k]) || s@[k] == '-',
            digits == numeric_count(s@.take(i as int)),
            digits <= i,
        decreases n - i,
    {
        let c = s.get_char(i);
        if !(is_alnum(c) || c == '-') {
            return false;
        }
        proof {
            assert(s@.take(i + 1).drop_last() =~= s@.take(i as int));
        }
        if is_num(c) {
            digits = digits + 1;
        }
        i = i + 1;
    }
    proof {
        assert(s@.take(i as int) =~= s@);
    }
    digits > 2
}

} // verus!
