//! Byte counts: parsing the decimal count and formatting it for display.
use vstd::prelude::*;
use vstd::arithmetic::div_mod::{lemma_div_denominator, lemma_fundamental_div_mod};
use crate::text::char_vec;

verus! {

pub open spec fn is_digit(c: char) -> bool {
    48 <= c as u32 && c as u32 <= 57
}

pub open spec fn digit_val(c: char) -> nat {
    (c as u32 - 48) as nat
}

pub open spec fn all_digits(s: Seq<char>) -> bool {
    forall|i: int| 0 <= i < s.len() ==> is_digit(#[trigger] s[i])
}

/// The number that a string of decimal digits writes.
pub open spec fn dec_value(s: Seq<char>) -> nat
    decreases s.len(),
{
    if s.len() == 0 {
        0
    } else {
        dec_value(s.drop_last()) * 10 + digit_val(s.last())
    }
}

/// What `str::parse::<u64>` accepts: an optional `+` and then at least one
/// ASCII digit, with a value that fits in 64 bits.
pub open spec fn parse_u64(s: Seq<char>) -> Option<u64> {
    let d = if s.len() > 0 && s[0] == '+' {
        s.drop_first()
    } else {
        s
    };
    if d.len() > 0 && all_digits(d) && dec_value(d) <= u64::MAX {
        Some(dec_value(d) as u64)
    } else {
        None
    }
}

proof fn lemma_dec_value_mono(s: Seq<char>, k: int)
    requires
        0 <= k <= s.len(),
        all_digits(s),
    ensures
        dec_value(s.take(k)) <= dec_value(s),
    decreases s.len() - k,
{
    if k < s.len() {
        lemma_dec_value_mono(s, k + 1);
        assert(s.take(k + 1).drop_last() =~= s.take(k));
    } else {
        assert(s.take(k) =~= s);
    }
}

/// Reads a byte count as `str::parse::<u64>` does.
pub fn parse_count(s: &str) -> (r: Option<u64>)
    ensures
        r == parse_u64(s@),
{
    let v = char_vec(s);
    let n = v.len();
    let mut i: usize = 0;
    if n > 0 && v[0] == '+' {
        i = 1;
    }
    let ghost d = if v@.len() > 0 && v@[0] == '+' {
        v@.drop_first()
    } else {
        v@
    };
    assert(d =~= v@.skip(i as int));
    if i == n {
        return None;
    }
    let start = i;
    let mut val: u128 = 0;
    assert(d.take(0) =~= Seq::<char>::empty());
    while i < n
        invariant
            v@ == s@,
            n == v@.len(),
            start <= i <= n,
            d == v@.skip(start as int),
            d == (if v@.len() > 0 && v@[0] == '+' {
                v@.drop_first()
            } else {
                v@
            }),
            all_digits(d.take(i - start)),
            val == dec_value(d.take(i - start)),
            val <= u64::MAX,
        decreases n - i,
    {
        let c = v[i];
        let u = c as u32;
        let ghost k = i - start;
        assert(d[k] == c);
        if u < 48 || u > 57 {
            assert(!is_digit(d[k]));
            assert(!all_digits(d));
            return None;
        }
        assert(d.take(k + 1).drop_last() =~= d.take(k));
        assert(d.take(k + 1).last() == d[k]);
        assert(dec_value(d.take(k + 1)) == dec_value(d.take(k)) * 10 + digit_val(d[k]));
        assert(all_digits(d.take(k + 1)));
        val = val * 10 + (u - 48) as u128;
        if val > 0xffff_ffff_ffff_ffff {
            proof {
                if all_digits(d) {
                    lemma_dec_value_mono(d, i - start + 1);
                }
            }
            return None;
        }
        i = i + 1;
    }
    assert(d.take(n - start) =~= d);
    Some(val as u64)
}


/// `num / den` rounded to the nearest integer, halves to the even one.
pub open spec fn round_half_even(num: nat, den: nat) -> nat {
    let q = num / den;
    let r = num % den;
    if 2 * r > den {
        q + 1
    } else if 2 * r < den {
        q
    } else if q % 2 == 0 {
        q
    } else {
        q + 1
    }
}

/// The unit in the last place of the `f64` nearest to `n`: 1 below
/// 2^53, and doubling with each further bit of `n`.
pub open spec fn f64_ulp(n: nat) -> nat
    decreases n,
{
    if n < 0x20_0000_0000_0000 {
        1
    } else {
        2 * f64_ulp(n / 2)
    }
}

/// The value of `n as f64`: `n` rounded to 53 significant bits, halves to even.
pub open spec fn f64_value(n: nat) -> nat {
    round_half_even(n, f64_ulp(n)) * f64_ulp(n)
}

pub open spec fn digit_char(d: nat) -> char {
    if d == 0 {
        '0'
    } else if d == 1 {
        '1'
    } else if d == 2 {
        '2'
    } else if d == 3 {
        '3'
    } else if d == 4 {
        '4'
    } else if d == 5 {
        '5'
    } else if d == 6 {
        '6'
    } else if d == 7 {
        '7'
    } else if d == 8 {
        '8'
    } else {
        '9'
    }
}

/// The decimal digits of `v`, without leading zeros.
pub open spec fn dec_digits(v: nat) -> Seq<char>
    decreases v,
{
    if v < 10 {
        seq![digit_char(v)]
    } else {
        dec_digits(v / 10).push(digit_char(v % 10))
    }
}

/// `n / unit` written with one decimal, as `format!("{:.1}", n as f64 / unit as f64)`
/// writes it for a power of two `unit`: the exact quotient of the `f64`
/// value, rounded to tenths, halves to even.
pub open spec fn one_decimal(n: nat, unit: nat) -> Seq<char> {
    let t = round_half_even(10 * f64_value(n), unit);
    dec_digits(t / 10) + "."@ + dec_digits(t % 10)
}

/// A byte count for display: plain bytes below 1 KiB, otherwise KB, MB or GB
/// (binary units) with one decimal.
pub open spec fn bytes_text(n: nat) -> Seq<char> {
    if n >= 1073741824 {
        one_decimal(n, 1073741824) + " GB"@
    } else if n >= 1048576 {
        one_decimal(n, 1048576) + " MB"@
    } else if n >= 1024 {
        one_decimal(n, 1024) + " KB"@
    } else {
        dec_digits(n) + " B"@
    }
}

/// The display of a byte count written as text; text that is no count counts as 0.
pub open spec fn fmt_bytes_text(s: Seq<char>) -> Seq<char> {
    bytes_text(
        match parse_u64(s) {
            Some(n) => n as nat,
            None => 0,
        },
    )
}

proof fn lemma_dec_digits(v: nat)
    ensures
        dec_digits(v).len() > 0,
        all_digits(dec_digits(v)),
        dec_value(dec_digits(v)) == v,
    decreases v,
{
    let d = dec_digits(v);
    if v < 10 {
        assert(d.drop_last() =~= Seq::<char>::empty());
        assert(digit_val(digit_char(v)) == v);
        assert(d.last() == digit_char(v));
        assert(dec_value(d) == dec_value(d.drop_last()) * 10 + digit_val(d.last()));
    } else {
        lemma_dec_digits(v / 10);
        assert(d.drop_last() =~= dec_digits(v / 10));
        assert(digit_val(digit_char(v % 10)) == v % 10);
        assert(d.last() == digit_char(v % 10));
        assert(dec_value(d) == dec_value(d.drop_last()) * 10 + digit_val(d.last()));
        assert((v / 10) * 10 + v % 10 == v);
        assert forall|i: int| 0 <= i < d.len() implies is_digit(#[trigger] d[i]) by {
            if i < d.len() - 1 {
                assert(d[i] == dec_digits(v / 10)[i]);
            }
        }
    }
}

/// Reading back a count written in decimal gives the count.
pub proof fn law_decimal_round_trip(n: u64)
    ensures
        parse_u64(dec_digits(n as nat)) == Some(n),
{
    lemma_dec_digits(n as nat);
    let d = dec_digits(n as nat);
    assert(is_digit(d[0]));
}

/// Text that is no count shows as `0 B`.
pub proof fn law_unreadable_count_is_zero(s: Seq<char>)
    requires
        parse_u64(s) is None,
    ensures
        fmt_bytes_text(s) == "0 B"@,
{
    reveal_strlit("0 B");
    reveal_strlit(" B");
    assert(dec_digits(0) + " B"@ =~= "0 B"@);
}

/// Counts below 1 KiB show as plain bytes.
pub proof fn law_small_counts_plain(n: u64)
    requires
        n < 1024,
    ensures
        fmt_bytes_text(dec_digits(n as nat)) == dec_digits(n as nat) + " B"@,
{
    law_decimal_round_trip(n);
}

/// Below 2^53 the `f64` value of a count is the count itself.
proof fn lemma_f64_exact(n: nat)
    requires
        n < 0x20_0000_0000_0000,
    ensures
        f64_value(n) == n,
{
    assert(f64_ulp(n) == 1);
    assert(n / 1 == n && n % 1 == 0) by (nonlinear_arith);
    assert(n * 1 == n);
}

proof fn lemma_one_decimal_whole(k: nat, u: nat)
    requires
        u > 0,
        k * u < 0x20_0000_0000_0000,
    ensures
        one_decimal(k * u, u) == dec_digits(k) + "."@ + seq!['0'],
{
    lemma_f64_exact(k * u);
    assert((10 * (k * u)) / u == 10 * k && (10 * (k * u)) % u == 0) by (nonlinear_arith)
        requires
            u > 0,
    ;
    let t = round_half_even(10 * f64_value(k * u), u);
    assert(t == 10 * k);
    assert(t / 10 == k && t % 10 == 0);
}

/// An exact number of KiB, MiB or GiB (fewer than 1024 of them) shows
/// as that number with the decimal `.0`.
pub proof fn law_whole_units(k: u64)
    requires
        1 <= k < 1024,
    ensures
        fmt_bytes_text(dec_digits((k * 1024) as nat)) == dec_digits(k as nat) + ".0 KB"@,
        fmt_bytes_text(dec_digits((k * 1048576) as nat)) == dec_digits(k as nat) + ".0 MB"@,
        fmt_bytes_text(dec_digits((k * 1073741824) as nat)) == dec_digits(k as nat) + ".0 GB"@,
{
    reveal_strlit(".0 KB");
    reveal_strlit(".0 MB");
    reveal_strlit(".0 GB");
    reveal_strlit(" KB");
    reveal_strlit(" MB");
    reveal_strlit(" GB");
    reveal_strlit(".");
    let kk = k as nat;
    law_decimal_round_trip((k * 1024) as u64);
    law_decimal_round_trip((k * 1048576) as u64);
    law_decimal_round_trip((k * 1073741824) as u64);
    lemma_one_decimal_whole(kk, 1024);
    lemma_one_decimal_whole(kk, 1048576);
    lemma_one_decimal_whole(kk, 1073741824);
    assert(dec_digits(kk) + "."@ + seq!['0'] + " KB"@ =~= dec_digits(kk) + ".0 KB"@);
    assert(dec_digits(kk) + "."@ + seq!['0'] + " MB"@ =~= dec_digits(kk) + ".0 MB"@);
    assert(dec_digits(kk) + "."@ + seq!['0'] + " GB"@ =~= dec_digits(kk) + ".0 GB"@);
}

/// A number of tenths written with one decimal.
pub open spec fn tenths_text(t: nat) -> Seq<char> {
    dec_digits(t / 10) + "."@ + dec_digits(t % 10)
}

pub open spec fn dist(a: int, b: int) -> int {
    if a >= b {
        a - b
    } else {
        b - a
    }
}

/// Rounding half to even gives a nearest integer, and the even one of two
/// equally near.
pub proof fn law_round_half_even_nearest(num: nat, den: nat)
    requires
        den > 0,
    ensures
        2 * dist(num as int, (round_half_even(num, den) * den) as int) <= den,
        2 * dist(num as int, (round_half_even(num, den) * den) as int) == den ==> round_half_even(num, den)
            % 2 == 0,
{
    let q = num / den;
    let r = num % den;
    lemma_fundamental_div_mod(num as int, den as int);
    vstd::arithmetic::div_mod::lemma_mod_pos_bound(num as int, den as int);
    let (qi, di, ri, ni) = (q as int, den as int, r as int, num as int);
    assert(qi * di == di * qi) by (nonlinear_arith);
    assert((qi + 1) * di == qi * di + di) by (nonlinear_arith);
}

/// Every count from 1 KiB up to 2^53 shows as the tenth of its unit
/// (KB, MB or GB) that lies nearest to it, the even tenth where two are equally near.
pub proof fn law_display_is_nearest_tenth(n: u64)
    requires
        1024 <= n < 0x20_0000_0000_0000,
    ensures
        ({
            let u: nat = if n >= 1073741824 {
                1073741824
            } else if n >= 1048576 {
                1048576
            } else {
                1024
            };
            let unit = if n >= 1073741824 {
                " GB"@
            } else if n >= 1048576 {
                " MB"@
            } else {
                " KB"@
            };
            exists|t: nat|
                {
                    &&& fmt_bytes_text(dec_digits(n as nat)) == #[trigger] tenths_text(t) + unit
                    &&& 2 * dist(10 * n, (t * u) as int) <= u
                    &&& (2 * dist(10 * n, (t * u) as int) == u ==> t % 2 == 0)
                }
        }),
{
    law_decimal_round_trip(n);
    lemma_f64_exact(n as nat);
    let u: nat = if n >= 1073741824 {
        1073741824
    } else if n >= 1048576 {
        1048576
    } else {
        1024
    };
    let t = round_half_even(10 * (n as nat), u);
    law_round_half_even_nearest(10 * (n as nat), u);
    assert(fmt_bytes_text(dec_digits(n as nat)) == one_decimal(n as nat, u) + (if n >= 1073741824 {
        " GB"@
    } else if n >= 1048576 {
        " MB"@
    } else {
        " KB"@
    }));
    assert(one_decimal(n as nat, u) == tenths_text(t));
}

fn round_half_even_exec(num: u128, den: u128) -> (r: u128)
    requires
        den > 0,
        num / den < u128::MAX,
    ensures
        r == round_half_even(num as nat, den as nat),
{
    let q = num / den;
    let r = num % den;
    if r > den - r {
        q + 1
    } else if r < den - r {
        q
    } else if q % 2 == 0 {
        q
    } else {
        q + 1
    }
}

/// The value of `n as f64`, computed exactly.
fn f64_value_exec(n: u64) -> (x: u128)
    ensures
        x == f64_value(n as nat),
        x <= 2 * (n as nat) + 1,
{
    let mut m: u128 = n as u128;
    let mut p: u128 = 1;
    while m >= 0x20_0000_0000_0000
        invariant
            p > 0,
            p <= n + 1,
            m == (n as nat) / (p as nat),
            f64_ulp(n as nat) == p * f64_ulp(m as nat),
        decreases m,
    {
        proof {
            lemma_div_denominator(n as int, p as int, 2);
            lemma_fundamental_div_mod(n as int, p as int);
            let ghost (ni, pi, mi) = (n as int, p as int, m as int);
            assert(pi * 2 <= ni) by (nonlinear_arith)
                requires
                    mi >= 2,
                    ni == pi * mi + (ni % pi),
                    ni % pi >= 0,
                    pi > 0,
            ;
        }
        let ghost u = f64_ulp((m / 2) as nat);
        assert(f64_ulp(m as nat) == 2 * u);
        let ghost pi = p as int;
        assert(pi * (2 * u) == (pi * 2) * u) by (nonlinear_arith);
        m = m / 2;
        p = p * 2;
    }
    assert(f64_ulp(m as nat) == 1);
    assert(f64_ulp(n as nat) == p) by {
        let pi = p as int;
        assert(pi * 1 == pi) by (nonlinear_arith);
    }
    let r = round_half_even_exec(n as u128, p);
    proof {
        lemma_fundamental_div_mod(n as int, p as int);
        let ghost (ni, pi, mi, ri) = (n as int, p as int, m as int, r as int);
        assert(ri * pi <= 2 * ni + 1) by (nonlinear_arith)
            requires
                ri <= mi + 1,
                ni == pi * mi + (ni % pi),
                ni % pi >= 0,
                pi <= ni + 1,
                pi > 0,
        ;
    }
    r * p
}

fn digit_str(d: u128) -> (r: &'static str)
    requires
        d < 10,
    ensures
        r@ == seq![digit_char(d as nat)],
{
    proof {
        reveal_strlit("0");
        reveal_strlit("1");
        reveal_strlit("2");
        reveal_strlit("3");
        reveal_strlit("4");
        reveal_strlit("5");
        reveal_strlit("6");
        reveal_strlit("7");
        reveal_strlit("8");
        reveal_strlit("9");
    }
    if d == 0 {
        "0"
    } else if d == 1 {
        "1"
    } else if d == 2 {
        "2"
    } else if d == 3 {
        "3"
    } else if d == 4 {
        "4"
    } else if d == 5 {
        "5"
    } else if d == 6 {
        "6"
    } else if d == 7 {
        "7"
    } else if d == 8 {
        "8"
    } else {
        "9"
    }
}

/// `v` written in decimal.
pub fn decimal(v: u128) -> (r: String)
    ensures
        r@ == dec_digits(v as nat),
    decreases v,
{
    if v < 10 {
        String::from_str(digit_str(v))
    } else {
        let mut s = decimal(v / 10);
        s.append(digit_str(v % 10));
        s
    }
}

/// `n / unit` with one decimal, as the display writes it.
fn one_decimal_exec(n: u64, unit: u128) -> (r: String)
    requires
        unit > 0,
    ensures
        r@ == one_decimal(n as nat, unit as nat),
{
    let x = f64_value_exec(n);
    let t = round_half_even_exec(10 * x, unit);
    let mut s = decimal(t / 10);
    s.append(".");
    s.append(decimal(t % 10).as_str());
    s
}

/// The display of a byte count written as text, as the detail window shows
/// received and sent bytes; text that is no count counts as 0.
pub fn fmt_bytes(s: &str) -> (r: String)
    ensures
        r@ == fmt_bytes_text(s@),
{
    let n: u64 = match parse_count(s) {
        Some(n) => n,
        None => 0,
    };
    if n >= 1073741824 {
        let mut r = one_decimal_exec(n, 1073741824);
        r.append(" GB");
        r
    } else if n >= 1048576 {
        let mut r = one_decimal_exec(n, 1048576);
        r.append(" MB");
        r
    } else if n >= 1024 {
        let mut r = one_decimal_exec(n, 1024);
        r.append(" KB");
        r
    } else {
        let mut r = decimal(n as u128);
        r.append(" B");
        r
    }
}

} // verus!
