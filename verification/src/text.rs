//! Text that has to come out the same on every run: integers, and numbers at a
//! fixed two decimal places or none.

use crate::num::{half_even, of_hundredths, Num, INF_BITS, SIGN_BIT};
use vstd::arithmetic::power2::*;
use vstd::prelude::*;
use vstd::string::*;

verus! {

pub open spec fn digit_char(d: nat) -> char {
    (48 + d) as char
}

/// The decimal digits of a natural number, most significant first.
pub open spec fn digits(n: nat) -> Seq<char>
    decreases n,
{
    if n < 10 {
        seq![digit_char(n)]
    } else {
        digits(n / 10).push(digit_char(n % 10))
    }
}

pub open spec fn integer_text(i: int) -> Seq<char> {
    if i < 0 {
        seq!['-'] + digits((-i) as nat)
    } else {
        digits(i as nat)
    }
}

/// The number of hundredths nearest to an absolute value, ties to even.
pub open spec fn hundredths(v: Num) -> nat {
    half_even(100 * v.units(), pow2(149))
}

/// A number at two decimal places.
pub open spec fn fixed_text(v: Num) -> Seq<char> {
    if v.is_nan() {
        seq!['N', 'a', 'N']
    } else {
        let body = if v.is_infinite() {
            seq!['i', 'n', 'f']
        } else {
            let h = hundredths(v);
            digits(h / 100) + seq!['.', digit_char(h / 10 % 10), digit_char(h % 10)]
        };
        if v.negative() {
            seq!['-'] + body
        } else {
            body
        }
    }
}

pub fn digit_str(d: u8) -> (s: &'static str)
    requires
        d < 10,
    ensures
        s@ == seq![digit_char(d as nat)],
{
    proof {
        reveal_strlit("0");
        reveal_strlit("1");
        reveal_strlit("2");
        reveal_strlit("3");
        reveal_strlit("4");
        reveal_strlit("5");
        reveal_strlit("6");
        reveal_strlit("7");
        reveal_strlit("8");
        reveal_strlit("9");
    }
    match d {
        0 => "0",
        1 => "1",
        2 => "2",
        3 => "3",
        4 => "4",
        5 => "5",
        6 => "6",
        7 => "7",
        8 => "8",
        _ => "9",
    }
}

/// Whether two texts are the same.
pub fn same_text(a: &str, b: &str) -> (r: bool)
    ensures
        r == (a@ == b@),
{
    a.to_owned() == b.to_owned()
}

fn natural(n: u128) -> (s: String)
    ensures
        s@ == digits(n as nat),
    decreases n,
{
    let last = digit_str((n % 10) as u8);
    if n < 10 {
        last.to_owned()
    } else {
        let mut s = natural(n / 10);
        s.append(last);
        s
    }
}

pub fn integer(i: i64) -> (s: String)
    ensures
        s@ == integer_text(i as int),
{
    if i < 0 {
        let mut s = "-".to_owned();
        proof {
            reveal_strlit("-");
        }
        let n = natural((-(i as i128)) as u128);
        s.append(n.as_str());
        s
    } else {
        natural(i as u128)
    }
}

proof fn lemma_half_even_scaled(p: nat, q: nat, c: nat)
    requires
        q > 0,
        c > 0,
    ensures
        half_even(p * c, q * c) == half_even(p, q),
{
    let w = p / q;
    let r = p % q;
    assert(p == q * w + r && 0 <= r < q) by (nonlinear_arith)
        requires
            q > 0,
            w == p / q,
            r == p % q,
    ;
    let (pi, qi, wi, ri, ci) = (p as int, q as int, w as int, r as int, c as int);
    assert(pi * ci == wi * (qi * ci) + ri * ci && 0 <= ri * ci < qi * ci) by (nonlinear_arith)
        requires
            pi == qi * wi + ri,
            0 <= ri < qi,
            ci > 0,
    ;
    vstd::arithmetic::div_mod::lemma_fundamental_div_mod_converse(pi * ci, qi * ci, wi, ri * ci);
    assert((2 * ri > qi <==> 2 * (ri * ci) > qi * ci) && (2 * ri == qi <==> 2 * (ri * ci) == qi * ci))
        by (nonlinear_arith)
        requires
            ci > 0,
    ;
}

/// A finite magnitude in parts of one, to the nearest.
fn parts_of(v: Num, parts: u64) -> (h: u128)
    requires
        v.finite(),
        v.units() < pow2(149) * 0x100_0000,
        1 <= parts <= 100,
    ensures
        h == half_even(parts as nat * v.units(), pow2(149)),
        h < 0x1_0000_0000,
{
    let mag = v.bits % SIGN_BIT;
    proof {
        lemma2_to64();
        lemma_pow2_pos(149);
    }
    let (s, e): (u64, u32) = if mag < 0x80_0000 {
        (mag as u64, 0)
    } else {
        ((0x80_0000 + mag % 0x80_0000) as u64, mag / 0x80_0000 - 1)
    };
    let ghost pe = pow2(e as nat);
    proof {
        lemma_pow2_pos(e as nat);
        assert(mag < 0x80_0000 ==> s * pe == mag) by (nonlinear_arith)
            requires
                mag < 0x80_0000 ==> pe == 1 && s == mag,
        ;
        assert(v.units() == s * pe);
        if e > 149 {
            lemma_pow2_strictly_increases(149, e as nat);
            lemma_pow2_unfold(e as nat);
            lemma_pow2_monotone(149, (e - 1) as nat);
            assert(s * pe >= 0x80_0000 * (2 * pow2(149))) by (nonlinear_arith)
                requires
                    s >= 0x80_0000,
                    pe >= 2 * pow2(149),
            ;
        }
    }
    let k: u32 = 149 - e;
    assert(s * parts <= 0xff_ffff * 100) by (nonlinear_arith)
        requires
            0 <= s <= 0xff_ffff,
            0 <= parts <= 100,
    ;
    let n: u64 = s * parts;
    proof {
        lemma_pow2_adds(k as nat, e as nat);
        lemma_pow2_pos(k as nat);
        assert(parts * (s * pe) == (s * parts) * pe) by (nonlinear_arith);
        lemma_half_even_scaled(n as nat, pow2(k as nat), pe);
    }
    if k >= 40 {
        proof {
            lemma_pow2_monotone(40, k as nat);
            lemma_pow2_adds(32, 8);
            let pk = pow2(k as nat);
            assert(n as nat / pk == 0 && n as nat % pk == n) by (nonlinear_arith)
                requires
                    0 <= n < pk,
            ;
        }
        0
    } else {
        proof {
            lemma_pow2_monotone(k as nat, 39);
            lemma_pow2_adds(32, 7);
            vstd::bits::lemma_u64_shl_is_mul(1, k as u64);
        }
        let unit = 1u64 << (k as u64);
        let whole = n / unit;
        let rest = n % unit;
        proof {
            assert(whole <= n) by (nonlinear_arith)
                requires
                    whole == n / unit,
                    unit >= 1,
                    n >= 0,
            ;
        }
        if 2 * rest > unit || (2 * rest == unit && whole % 2 == 1) {
            (whole + 1) as u128
        } else {
            whole as u128
        }
    }
}

proof fn lemma_pow2_monotone(a: nat, b: nat)
    requires
        a <= b,
    ensures
        pow2(a) <= pow2(b),
{
    if a < b {
        lemma_pow2_strictly_increases(a, b);
    }
}

/// From 2^24 on every number is whole.
fn whole_of(v: Num) -> (w: u128)
    requires
        v.finite(),
        v.units() >= pow2(149) * 0x100_0000,
    ensures
        hundredths(v) == 100 * w,
        half_even(v.units(), pow2(149)) == w,
{
    let mag = v.bits % SIGN_BIT;
    let ghost c = pow2(149);
    proof {
        lemma2_to64();
        lemma_pow2_pos(149);
        if mag < 0x80_0000 {
            assert(c * 0x100_0000 >= 0x100_0000) by (nonlinear_arith)
                requires
                    c > 0,
            ;
        }
    }
    let s: u128 = (0x80_0000 + mag % 0x80_0000) as u128;
    let e: u32 = mag / 0x80_0000 - 1;
    let ghost pe = pow2(e as nat);
    proof {
        assert(v.units() == s * pe);
        lemma_pow2_pos(e as nat);
        if e <= 149 {
            lemma_pow2_monotone(e as nat, 149);
            assert(s * pe < c * 0x100_0000) by (nonlinear_arith)
                requires
                    s < 0x100_0000,
                    pe <= c,
                    pe > 0,
            ;
        }
    }
    let shift: u32 = e - 149;
    let ghost ps = pow2(shift as nat);
    proof {
        lemma_pow2_adds(shift as nat, 149);
        lemma_pow2_pos(shift as nat);
        let w = (s * ps) as int;
        assert(100 * (s * (ps * c)) == (100 * w) * c) by (nonlinear_arith)
            requires
                w == s * ps,
        ;
        assert(w >= 0) by (nonlinear_arith)
            requires
                w == s * ps,
                s >= 0,
                ps > 0,
        ;
        vstd::arithmetic::div_mod::lemma_fundamental_div_mod_converse(
            100 * v.units() as int,
            c as int,
            100 * w,
            0,
        );
        assert(s * (ps * c) == w * c) by (nonlinear_arith)
            requires
                w == s * ps,
        ;
        vstd::arithmetic::div_mod::lemma_fundamental_div_mod_converse(v.units() as int, c as int, w, 0);
    }
    let mut w: u128 = s;
    let mut done: u32 = 0;
    while done < shift
        invariant
            done <= shift <= 104,
            s < 0x100_0000,
            w == s * pow2(done as nat),
        decreases shift - done,
    {
        proof {
            lemma2_to64();
            lemma_pow2_unfold((done + 1) as nat);
            lemma_pow2_pos(done as nat);
            lemma_pow2_monotone(done as nat, 103);
            lemma_pow2_adds(64, 32);
            lemma_pow2_adds(96, 7);
            let pd = pow2(done as nat);
            assert(s * pd <= 0xff_ffff * 0x80_0000_0000_0000_0000_0000_0000) by (nonlinear_arith)
                requires
                    s <= 0xff_ffff,
                    0 < pd <= 0x80_0000_0000_0000_0000_0000_0000,
            ;
            assert(2 * (s * pd) == s * (2 * pd)) by (nonlinear_arith);
        }
        w = w * 2;
        done = done + 1;
    }
    w
}

/// A number written with two decimal places.
pub fn fixed(v: Num) -> (s: String)
    ensures
        s@ == fixed_text(v),
{
    let mag = v.bits % SIGN_BIT;
    proof {
        reveal_strlit("NaN");
        reveal_strlit("-");
        reveal_strlit("");
        reveal_strlit("inf");
        reveal_strlit(".");
        reveal_strlit(".00");
    }
    if mag > INF_BITS {
        return "NaN".to_owned();
    }
    let mut s = if v.bits >= SIGN_BIT {
        "-".to_owned()
    } else {
        "".to_owned()
    };
    let ghost sign = s@;
    if mag == INF_BITS {
        s.append("inf");
        assert(s@ == fixed_text(v));
        return s;
    }
    proof {
        lemma_units_below(v);
    }
    if mag < 0x4B80_0000 {
        let h = parts_of(v, 100);
        let whole = natural(h / 100);
        s.append(whole.as_str());
        s.append(".");
        s.append(digit_str((h / 10 % 10) as u8));
        s.append(digit_str((h % 10) as u8));
        assert(s@ == sign + (digits(h as nat / 100) + seq!['.', digit_char(h as nat / 10 % 10), digit_char(h as nat % 10)]));
        assert(s@ == fixed_text(v));
    } else {
        let w = whole_of(v);
        let whole = natural(w);
        s.append(whole.as_str());
        s.append(".00");
        assert(s@ == sign + (digits(w as nat) + seq!['.', digit_char(0), digit_char(0)]));
        assert(s@ == fixed_text(v));
    }
    s
}

/// A number without decimal places.
pub open spec fn whole_text(v: Num) -> Seq<char> {
    if v.is_nan() {
        seq!['N', 'a', 'N']
    } else {
        let body = if v.is_infinite() {
            seq!['i', 'n', 'f']
        } else {
            digits(half_even(v.units(), pow2(149)))
        };
        if v.negative() {
            seq!['-'] + body
        } else {
            body
        }
    }
}

/// A number written without decimal places.
pub fn rounded(v: Num) -> (s: String)
    ensures
        s@ == whole_text(v),
{
    let mag = v.bits % SIGN_BIT;
    proof {
        reveal_strlit("NaN");
        reveal_strlit("-");
        reveal_strlit("");
        reveal_strlit("inf");
    }
    if mag > INF_BITS {
        return "NaN".to_owned();
    }
    let mut s = if v.bits >= SIGN_BIT {
        "-".to_owned()
    } else {
        "".to_owned()
    };
    if mag == INF_BITS {
        s.append("inf");
        assert(s@ == whole_text(v));
        return s;
    }
    proof {
        lemma_units_below(v);
    }
    let w = if mag < 0x4B80_0000 {
        parts_of(v, 1)
    } else {
        whole_of(v)
    };
    let whole = natural(w);
    s.append(whole.as_str());
    assert(s@ == whole_text(v));
    s
}

/// Magnitudes below the bits of 2^24 lie below it.
proof fn lemma_units_below(v: Num)
    requires
        v.finite(),
    ensures
        v.mag() < 0x4B80_0000 <==> v.units() < pow2(149) * 0x100_0000,
{
    let m = v.mag();
    let c = pow2(149);
    lemma_pow2_pos(149);
    lemma2_to64();
    if m < 0x80_0000 {
        assert(c * 0x100_0000 >= 0x100_0000) by (nonlinear_arith)
            requires
                c > 0,
        ;
    } else {
        let e = (m / 0x80_0000 - 1) as nat;
        let s = 0x80_0000 + m % 0x80_0000;
        let pe = pow2(e);
        if m < 0x4B80_0000 {
            lemma_pow2_monotone(e, 149);
            assert(s * pe < c * 0x100_0000) by (nonlinear_arith)
                requires
                    0 <= s < 0x100_0000,
                    0 <= pe <= c,
                    c > 0,
            ;
        } else {
            lemma_pow2_monotone(150, e);
            lemma_pow2_unfold(150);
            assert(s * pe >= c * 0x100_0000) by (nonlinear_arith)
                requires
                    s >= 0x80_0000,
                    pe >= 2 * c,
            ;
        }
    }
}

pub open spec fn is_digit(c: char) -> bool {
    48 <= c as int <= 57
}

pub open spec fn digit_value(c: char) -> nat {
    (c as int - 48) as nat
}

pub open spec fn all_digits(s: Seq<char>) -> bool {
    forall|i: int| 0 <= i < s.len() ==> is_digit(#[trigger] s[i])
}

/// The number that digits spell.
pub open spec fn spelled(s: Seq<char>) -> nat
    decreases s.len(),
{
    if s.len() == 0 {
        0
    } else {
        10 * spelled(s.drop_last()) + digit_value(s.last())
    }
}

/// Digits, a point, and two digits more.
pub open spec fn is_fixed(s: Seq<char>) -> bool {
    let n = s.len();
    &&& n >= 4
    &&& s[n - 3] == '.'
    &&& all_digits(s.take(n - 3))
    &&& is_digit(s[n - 2])
    &&& is_digit(s[n - 1])
}

/// The hundredths that such a text spells.
pub open spec fn hundredths_in(s: Seq<char>) -> nat {
    let n = s.len();
    100 * spelled(s.take(n - 3)) + 10 * digit_value(s[n - 2]) + digit_value(s[n - 1])
}

/// A text without its sign.
pub open spec fn unsigned(s: Seq<char>) -> Seq<char> {
    if s.len() > 0 && s[0] == '-' {
        s.skip(1)
    } else {
        s
    }
}

/// The number that a text with two decimal places spells. One with more digits
/// than the hundredths of 64 bits is not read.
pub open spec fn read_text(s: Seq<char>) -> Option<Num> {
    let body = unsigned(s);
    if is_fixed(body) && hundredths_in(body) < 0x8000_0000_0000_0000 {
        Some(of_hundredths(s[0] == '-', hundredths_in(body)))
    } else {
        None
    }
}

fn digit_of(c: char) -> (r: Option<u8>)
    ensures
        match r {
            Some(d) => is_digit(c) && d == digit_value(c),
            None => !is_digit(c),
        },
{
    match c {
        '0' => Some(0),
        '1' => Some(1),
        '2' => Some(2),
        '3' => Some(3),
        '4' => Some(4),
        '5' => Some(5),
        '6' => Some(6),
        '7' => Some(7),
        '8' => Some(8),
        '9' => Some(9),
        _ => None,
    }
}

proof fn lemma_spelled_grows(s: Seq<char>, i: int, j: int)
    requires
        0 <= i <= j <= s.len(),
    ensures
        spelled(s.take(i)) <= spelled(s.take(j)),
    decreases j - i,
{
    if i < j {
        lemma_spelled_grows(s, i, j - 1);
        assert(s.take(j).drop_last() == s.take(j - 1));
    }
}

/// The digits in a stretch of a text, unless something else is among them or
/// there are too many.
fn spell(s: &Vec<char>, from: usize, to: usize) -> (r: Option<u64>)
    requires
        from <= to <= s@.len(),
    ensures
        match r {
            Some(n) => all_digits(s@.subrange(from as int, to as int)) && n == spelled(
                s@.subrange(from as int, to as int),
            ) && n < 0x8000_0000_0000_0000,
            None => !all_digits(s@.subrange(from as int, to as int)) || spelled(
                s@.subrange(from as int, to as int),
            ) >= 0x8000_0000_0000_0000,
        },
{
    let ghost all = s@.subrange(from as int, to as int);
    let mut n: u64 = 0;
    assert(all.take(0).len() == 0);
    for i in from..to
        invariant
            from <= to <= s@.len(),
            all == s@.subrange(from as int, to as int),
            all_digits(all.take(i - from)),
            n == spelled(all.take(i - from)),
            n < 0x8000_0000_0000_0000,
    {
        let d = digit_of(s[i]);
        proof {
            assert(all[i - from] == s@[i as int]);
            assert(all.take(i + 1 - from).drop_last() == all.take(i - from));
            assert(all.take(i + 1 - from).last() == all[i - from]);
        }
        let d = match d {
            Some(d) => d,
            None => {
                return None;
            },
        };
        let next: u128 = 10 * n as u128 + d as u128;
        if next >= 0x8000_0000_0000_0000 {
            proof {
                lemma_spelled_grows(all, i + 1 - from, all.len() as int);
                assert(all.take(all.len() as int) == all);
            }
            return None;
        }
        n = next as u64;
        assert forall|k: int| 0 <= k < i + 1 - from implies is_digit(#[trigger] all.take(i + 1 - from)[k]) by {
            if k < i - from {
                assert(all.take(i - from)[k] == all[k]);
            }
        }
    }
    assert(all.take(all.len() as int) == all);
    Some(n)
}

/// Reads a number with two decimal places from a stretch of a text.
pub fn read_fixed(s: &Vec<char>, start: usize, end: usize) -> (r: Option<Num>)
    requires
        start <= end <= s@.len(),
    ensures
        r == read_text(s@.subrange(start as int, end as int)),
{
    let ghost text = s@.subrange(start as int, end as int);
    let ghost body = unsigned(text);
    let negative = start < end && s[start] == '-';
    let from = if negative {
        start + 1
    } else {
        start
    };
    assert(body == s@.subrange(from as int, end as int));
    if end - from < 4 {
        return None;
    }
    assert(body[body.len() - 3] == s@[end - 3]);
    assert(body[body.len() - 2] == s@[end - 2]);
    assert(body[body.len() - 1] == s@[end - 1]);
    assert(body.take(body.len() - 3) == s@.subrange(from as int, end - 3));
    if s[end - 3] != '.' {
        return None;
    }
    let tens = match digit_of(s[end - 2]) {
        Some(d) => d,
        None => {
            return None;
        },
    };
    let ones = match digit_of(s[end - 1]) {
        Some(d) => d,
        None => {
            return None;
        },
    };
    let whole = match spell(s, from, end - 3) {
        Some(n) => n,
        None => {
            return None;
        },
    };
    let h: u128 = 100 * whole as u128 + 10 * tens as u128 + ones as u128;
    if h >= 0x8000_0000_0000_0000 {
        return None;
    }
    Some(Num::from_hundredths(negative, h as u64))
}

/// Digits spell the number they were made from.
proof fn lemma_digits_spell(n: nat)
    ensures
        all_digits(digits(n)),
        spelled(digits(n)) == n,
        digits(n).len() >= 1,
    decreases n,
{
    let s = digits(n);
    if n < 10 {
        reveal_with_fuel(spelled, 2);
    } else {
        lemma_digits_spell(n / 10);
        let before = digits(n / 10);
        assert(s.drop_last() == before);
        assert forall|i: int| 0 <= i < s.len() implies is_digit(#[trigger] s[i]) by {
            if i < before.len() {
                assert(s[i] == before[i]);
            }
        }
    }
}

/// A finite number written with two decimal places reads back as the number
/// nearest to what was written.
pub proof fn law_what_is_written_reads_back(v: Num)
    requires
        v.finite(),
        hundredths(v) < 0x8000_0000_0000_0000,
    ensures
        read_text(fixed_text(v)) == Some(of_hundredths(v.negative(), hundredths(v))),
{
    let h = hundredths(v);
    let whole = digits(h / 100);
    let body = whole + seq!['.', digit_char(h / 10 % 10), digit_char(h % 10)];
    let text = fixed_text(v);
    lemma_digits_spell(h / 100);
    assert(body.take(body.len() - 3) == whole);
    assert(is_fixed(body));
    assert(hundredths_in(body) == h);
    if v.negative() {
        assert(text.skip(1) == body);
    } else {
        assert(text == body);
        assert(is_digit(whole[0]));
        assert(body[0] == whole[0]);
    }
}

/// The characters of a text.
pub fn letters(s: &str) -> (v: Vec<char>)
    ensures
        v@ == s@,
{
    let n = s.unicode_len();
    let mut v: Vec<char> = Vec::new();
    for i in 0..n
        invariant
            n == s@.len(),
            v@ == s@.take(i as int),
    {
        v.push(s.get_char(i));
    }
    assert(s@.take(n as int) == s@);
    v
}

} // verus!
