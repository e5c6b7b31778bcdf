//! Decimal syntax of 64-bit signed integers, in both directions, and the
//! ordering of numbers as IEEE-754 doubles.

use vstd::prelude::*;

verus! {

pub open spec fn is_digit(c: char) -> bool {
    '0' <= c && c <= '9'
}

pub open spec fn digit_value(c: char) -> int {
    c as int - '0' as int
}

/// The number that a sequence of decimal digits denotes.
pub open spec fn digits_value(s: Seq<char>) -> int
    decreases s.len(),
{
    if s.len() == 0 {
        0
    } else {
        digits_value(s.drop_last()) * 10 + digit_value(s.last())
    }
}

pub open spec fn all_digits(s: Seq<char>) -> bool {
    forall|i: int| 0 <= i < s.len() ==> is_digit(#[trigger] s[i])
}

/// What `i64`'s decimal syntax gives for `s`: an optional `+` or `-`, then
/// one or more digits, with a value that fits in 64 bits.
pub open spec fn int_literal(s: Seq<char>) -> Option<i64> {
    let neg = s.len() > 0 && s[0] == '-';
    let d = s.subrange(sign_len(s), s.len() as int);
    let v = if neg { -digits_value(d) } else { digits_value(d) };
    if d.len() > 0 && all_digits(d) && i64::MIN <= v <= i64::MAX {
        Some(v as i64)
    } else {
        None
    }
}

/// Length of an optional leading sign.
pub open spec fn sign_len(s: Seq<char>) -> int {
    if s.len() > 0 && (s[0] == '-' || s[0] == '+') {
        1
    } else {
        0
    }
}

proof fn lemma_digits_value_grows(s: Seq<char>, k: int)
    requires
        0 <= k <= s.len(),
        all_digits(s),
    ensures
        digits_value(s.subrange(0, k)) <= digits_value(s),
        0 <= digits_value(s.subrange(0, k)),
    decreases s.len() - k,
{
    if k < s.len() {
        lemma_digits_value_grows(s, k + 1);
        let a = s.subrange(0, k + 1);
        assert(a.drop_last() =~= s.subrange(0, k));
        assert(is_digit(a.last()));
    } else {
        assert(s.subrange(0, k) =~= s);
        lemma_digits_value_nonneg(s);
    }
}

proof fn lemma_digits_value_nonneg(s: Seq<char>)
    requires
        all_digits(s),
    ensures
        0 <= digits_value(s),
    decreases s.len(),
{
    if s.len() > 0 {
        assert(is_digit(s[s.len() - 1]));
        lemma_digits_value_nonneg(s.drop_last());
    }
}

pub fn parse_int(s: &[char]) -> (r: Option<i64>)
    ensures
        r == int_literal(s@),
{
    let n = s.len();
    let neg = n > 0 && s[0] == '-';
    let start: usize = if n > 0 && (s[0] == '-' || s[0] == '+') { 1 } else { 0 };
    let ghost d = s@.subrange(start as int, n as int);
    assert(start == sign_len(s@));
    if start >= n {
        return None;
    }
    let mut acc: u128 = 0;
    let mut k: usize = start;
    while k < n
        invariant
            start <= k <= n == s@.len(),
            d == s@.subrange(start as int, n as int),
            start == sign_len(s@),
            neg == (s@.len() > 0 && s@[0] == '-'),
            forall|m: int| 0 <= m < k - start ==> is_digit(#[trigger] d[m]),
            acc as int == digits_value(d.subrange(0, k - start)),
            acc <= 0x8000_0000_0000_0000,
        decreases n - k,
    {
        let c = s[k];
        if !('0' <= c && c <= '9') {
            assert(!is_digit(d[k - start]));
            assert(!all_digits(d));
            return None;
        }
        let next = acc * 10 + (c as u32 - '0' as u32) as u128;
        proof {
            let a = d.subrange(0, k + 1 - start);
            assert(a.drop_last() =~= d.subrange(0, k - start));
            assert(a.last() == c);
            assert(next as int == digits_value(a));
        }
        if next > 0x8000_0000_0000_0000 {
            proof {
                assert(all_digits(d.subrange(0, k + 1 - start)));
                if all_digits(d) {
                    lemma_digits_value_grows(d, k + 1 - start);
                }
            }
            return None;
        }
        acc = next;
        k = k + 1;
    }
    assert(d.subrange(0, n - start) =~= d);
    if neg {
        Some((0 - acc as i128) as i64)
    } else if acc <= 0x7FFF_FFFF_FFFF_FFFF {
        Some(acc as i64)
    } else {
        None
    }
}

pub open spec fn digit_char(d: nat) -> char {
    seq!['0', '1', '2', '3', '4', '5', '6', '7', '8', '9'][d as int]
}

/// Decimal digits of `n`, without leading zeros.
pub open spec fn nat_text(n: nat) -> Seq<char>
    decreases n,
{
    if n < 10 {
        seq![digit_char(n)]
    } else {
        nat_text(n / 10).push(digit_char(n % 10))
    }
}

/// The decimal form of an integer, with a leading `-` when negative.
pub open spec fn int_text(i: int) -> Seq<char> {
    if i < 0 {
        seq!['-'] + nat_text((-i) as nat)
    } else {
        nat_text(i as nat)
    }
}

fn digit_to_char(d: u64) -> (c: char)
    requires
        d < 10,
    ensures
        c == digit_char(d as nat),
{
    let digits: Vec<char> = vec!['0', '1', '2', '3', '4', '5', '6', '7', '8', '9'];
    assert(digits@ =~= seq!['0', '1', '2', '3', '4', '5', '6', '7', '8', '9']);
    digits[d as usize]
}

fn nat_to_text(n: u64) -> (r: Vec<char>)
    ensures
        r@ == nat_text(n as nat),
    decreases n,
{
    if n < 10 {
        vec![digit_to_char(n)]
    } else {
        let mut r = nat_to_text(n / 10);
        r.push(digit_to_char(n % 10));
        r
    }
}

pub fn int_to_text(i: i64) -> (r: Vec<char>)
    ensures
        r@ == int_text(i as int),
{
    if i < 0 {
        let m: u64 = (0 - i as i128) as u64;
        let mut r: Vec<char> = vec!['-'];
        let t = nat_to_text(m);
        r.extend_from_slice(t.as_slice());
        assert(r@ =~= seq!['-'] + t@);
        r
    } else {
        nat_to_text(i as u64)
    }
}


pub open spec fn two_pow(k: nat) -> nat
    decreases k,
{
    if k == 0 {
        1
    } else {
        2 * two_pow((k - 1) as nat)
    }
}

pub proof fn lemma_two_pow_mono(a: nat, b: nat)
    requires
        a <= b,
    ensures
        1 <= two_pow(a) <= two_pow(b),
    decreases b,
{
    if b > a {
        lemma_two_pow_mono(a, (b - 1) as nat);
    } else if a > 0 {
        lemma_two_pow_mono((a - 1) as nat, (a - 1) as nat);
    }
}

proof fn lemma_two_pow_values()
    ensures
        two_pow(52) == 0x10_0000_0000_0000,
        two_pow(63) == 0x8000_0000_0000_0000,
        two_pow(64) == 0x1_0000_0000_0000_0000,
{
    reveal_with_fuel(two_pow, 65);
}

/// Position of the highest set bit of `n` (zero for zero and one).
pub open spec fn log2(n: nat) -> nat
    decreases n,
{
    if n < 2 {
        0
    } else {
        1 + log2(n / 2)
    }
}

proof fn lemma_log2_below(n: nat, k: nat)
    requires
        n < two_pow(k),
    ensures
        log2(n) < k || n < 2,
        n >= 2 ==> log2(n) < k,
    decreases k,
{
    if n >= 2 {
        assert(k > 0);
        assert(two_pow(k) == 2 * two_pow((k - 1) as nat));
        lemma_log2_below(n / 2, (k - 1) as nat);
        assert(log2(n) == 1 + log2(n / 2));
        if n / 2 < 2 {
            assert(log2(n / 2) == 0);
            if k == 1 {
                assert(two_pow(1) == 2 * two_pow(0));
            }
        }
    }
}

/// IEEE-754 double bit pattern, as a number, of the double nearest to `n`
/// (ties to even), for `n` below 2^64.
pub open spec fn double_bits_of_nat(n: nat) -> int {
    if n == 0 {
        0
    } else {
        let e = log2(n);
        let unit = two_pow(52) as int;
        let top: int = (1023 + e) * unit;
        if e <= 52 {
            top + n * two_pow((52 - e) as nat) - unit
        } else {
            let p = two_pow((e - 52) as nat) as int;
            let q = n as int / p;
            let r = n as int % p;
            let q2 = if 2 * r > p || (2 * r == p && q % 2 == 1) {
                q + 1
            } else {
                q
            };
            top + q2 - unit
        }
    }
}

/// A key in which numbers compare as doubles do: the signed magnitude of
/// the bit pattern of the double nearest to the integer.
pub open spec fn int_order_key(i: i64) -> int {
    if i < 0 {
        -double_bits_of_nat((-i) as nat)
    } else {
        double_bits_of_nat(i as nat)
    }
}

pub open spec fn is_nan_bits(b: u64) -> bool {
    (b as int / two_pow(52) as int) % 2048 == 2047 && b as int % two_pow(52) as int != 0
}

/// The same key for a double given by its bit pattern; `None` for NaN,
/// which compares with nothing.
pub open spec fn float_order_key(b: u64) -> Option<int> {
    if is_nan_bits(b) {
        None
    } else if b as int >= two_pow(63) {
        Some(-(b as int - two_pow(63) as int))
    } else {
        Some(b as int)
    }
}

fn two_pow_exec(k: u32) -> (r: u128)
    requires
        k <= 64,
    ensures
        r as int == two_pow(k as nat),
        1 <= r <= 0x1_0000_0000_0000_0000,
{
    let mut r: u128 = 1;
    let mut j: u32 = 0;
    while j < k
        invariant
            j <= k <= 64,
            r as int == two_pow(j as nat),
        decreases k - j,
    {
        proof {
            lemma_two_pow_mono((j + 1) as nat, 64);
            lemma_two_pow_values();
        }
        r = r * 2;
        j = j + 1;
    }
    proof {
        lemma_two_pow_mono(k as nat, 64);
        lemma_two_pow_mono(0, k as nat);
        lemma_two_pow_values();
    }
    r
}

fn double_bits_exec(n: u64) -> (r: u128)
    ensures
        r as int == double_bits_of_nat(n as nat),
{
    if n == 0 {
        return 0;
    }
    let mut m: u64 = n;
    let mut e: u32 = 0;
    proof {
        lemma_two_pow_values();
        lemma_log2_below(n as nat, 64);
    }
    while m >= 2
        invariant
            1 <= m <= n,
            log2(n as nat) == e + log2(m as nat),
            log2(n as nat) < 64 || n < 2,
        decreases m,
    {
        m = m / 2;
        e = e + 1;
    }
    let p52 = two_pow_exec(52);
    let top: u128 = (1023 + e as u128) * p52;
    if e <= 52 {
        let s = two_pow_exec(52 - e);
        proof {
            lemma_two_pow_mono((52 - e) as nat, 52);
            assert(n as int * s as int <= 0x1_0000_0000_0000_0000 * 0x10_0000_0000_0000)
                by (nonlinear_arith)
                requires
                    n < 0x1_0000_0000_0000_0000,
                    s <= 0x10_0000_0000_0000,
            ;
            lemma_scaled_at_least(n as nat, e as nat);
        }
        top + n as u128 * s - p52
    } else {
        let p = two_pow_exec(e - 52);
        let q = n as u128 / p;
        let r = n as u128 % p;
        let q2 = if 2 * r > p || (2 * r == p && q % 2 == 1) {
            q + 1
        } else {
            q
        };
        proof {
            assert(q <= n) by (nonlinear_arith)
                requires
                    q == n as u128 / p,
                    p >= 1,
            ;
        }
        top + q2 - p52
    }
}

proof fn lemma_scaled_at_least(n: nat, e: nat)
    requires
        1 <= n,
        e == log2(n),
        e <= 52,
    ensures
        n * two_pow((52 - e) as nat) >= two_pow(52),
    decreases n,
{
    if n >= 2 {
        lemma_scaled_at_least(n / 2, (e - 1) as nat);
        assert(two_pow((52 - e + 1) as nat) == 2 * two_pow((52 - e) as nat));
        assert(n * two_pow((52 - e) as nat) >= (n / 2) * two_pow((52 - (e - 1)) as nat))
            by (nonlinear_arith)
            requires
                two_pow((52 - (e - 1)) as nat) == 2 * two_pow((52 - e) as nat),
                n >= 2,
        ;
    } else {
        assert(e == 0);
    }
}

/// The order key of an integer, as `int_order_key` states it.
pub fn int_key(i: i64) -> (r: i128)
    ensures
        r as int == int_order_key(i),
{
    if i < 0 {
        let m: u64 = (0 - i as i128) as u64;
        let b = double_bits_exec(m);
        proof {
            lemma_double_bits_small(m as nat);
        }
        0 - b as i128
    } else {
        let b = double_bits_exec(i as u64);
        proof {
            lemma_double_bits_small(i as nat);
        }
        b as i128
    }
}

proof fn lemma_double_bits_small(n: nat)
    requires
        n <= 0x8000_0000_0000_0000,
    ensures
        0 <= double_bits_of_nat(n) < 0x100_0000_0000_0000_0000_0000_0000_0000,
{
    if n > 0 {
        lemma_two_pow_values();
        lemma_log2_below(n, 64);
        let e = log2(n);
        if e <= 52 {
            lemma_two_pow_mono((52 - e) as nat, 52);
            lemma_scaled_at_least(n, e);
            assert(n * two_pow((52 - e) as nat) <= 0x8000_0000_0000_0000 * 0x10_0000_0000_0000)
                by (nonlinear_arith)
                requires
                    n <= 0x8000_0000_0000_0000,
                    two_pow((52 - e) as nat) <= 0x10_0000_0000_0000,
            ;
        } else {
            let p = two_pow((e - 52) as nat);
            lemma_two_pow_mono(0, (e - 52) as nat);
            assert(n / p <= n) by (nonlinear_arith)
                requires
                    p >= 1,
            ;
        }
    }
}

pub fn float_key(b: u64) -> (r: Option<i128>)
    ensures
        r matches Some(k) ==> float_order_key(b) == Some(k as int),
        r is None ==> float_order_key(b) is None,
{
    proof {
        lemma_two_pow_values();
    }
    let exp = (b / 0x10_0000_0000_0000) % 2048;
    let frac = b % 0x10_0000_0000_0000;
    if exp == 2047 && frac != 0 {
        None
    } else if b >= 0x8000_0000_0000_0000 {
        Some(0 - (b - 0x8000_0000_0000_0000) as i128)
    } else {
        Some(b as i128)
    }
}

} // verus!
