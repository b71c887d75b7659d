//! Decimal digit strings, the integers they stand for, and the bits of the
//! binary64 number that is nearest to such an integer.

use vstd::arithmetic::div_mod::{lemma_fundamental_div_mod, lemma_fundamental_div_mod_converse};
use vstd::arithmetic::power2::{
    lemma2_to64, lemma2_to64_rest, lemma_pow2_adds, lemma_pow2_pos, lemma_pow2_strictly_increases,
    lemma_pow2_unfold, pow2,
};
use vstd::prelude::*;
use vstd::string::*;

use crate::search::{Token, Value};

verus! {

/// The bits of the binary64 number that stands for infinity.
pub const INFINITY: Value = 0x7ff0_0000_0000_0000;

pub open spec fn is_digit(c: char) -> bool {
    '0' <= c <= '9'
}

/// Whether `s` is made of decimal digits only.
pub open spec fn is_digits(s: Seq<char>) -> bool {
    forall|i: int| 0 <= i < s.len() ==> is_digit(#[trigger] s[i])
}

/// The number that the digit `c` stands for.
pub open spec fn digit_of(c: char) -> nat {
    (c as nat - '0' as nat) as nat
}

/// The integer that `s` reads as in base ten; leading zeros count for nothing.
pub open spec fn decimal(s: Seq<char>) -> nat
    decreases s.len(),
{
    if s.len() == 0 {
        0
    } else {
        10 * decimal(s.drop_last()) + digit_of(s.last())
    }
}

/// A digit string that can be a literal: not empty, and digits only.
pub open spec fn is_literal(s: Seq<char>) -> bool {
    &&& s.len() > 0
    &&& is_digits(s)
}

/// The tokens of the literal `s`: the first digit opens the literal, the
/// others continue it.
pub open spec fn literal_tokens(s: Seq<char>) -> Seq<Token> {
    Seq::new(
        s.len(),
        |i: int|
            if i == 0 {
                (0xe0 + digit_of(s[i])) as Token
            } else {
                (0xf0 + digit_of(s[i])) as Token
            },
    )
}

/// The `e` with `2^e <= n < 2^(e + 1)`, for `n` above zero.
pub open spec fn exponent(n: nat) -> nat
    decreases n,
{
    if n < 2 {
        0
    } else {
        1 + exponent(n / 2)
    }
}

/// The bits of the binary64 number that equals the integer `n`, for `n` below
/// `2^53`: zero is all zeros; otherwise the sign is clear, the exponent field
/// holds `1023 + e` and the fraction field `n * 2^(52 - e)` without its
/// leading one, where `e` is `exponent(n)`.
pub open spec fn binary64(n: nat) -> nat {
    if n == 0 {
        0
    } else {
        let e = exponent(n);
        ((1023 + e) * pow2(52) + n * pow2((52 - e) as nat) - pow2(52)) as nat
    }
}

pub proof fn lemma_exponent_bounds(n: nat)
    requires
        n > 0,
    ensures
        pow2(exponent(n)) <= n < pow2(exponent(n) + 1),
    decreases n,
{
    lemma2_to64();
    if n < 2 {
    } else {
        lemma_exponent_bounds(n / 2);
        let e = exponent(n / 2);
        lemma_pow2_unfold(e + 1);
        lemma_pow2_unfold(e + 2);
    }
}

/// `exponent(n)` is the only `e` with `2^e <= n < 2^(e + 1)`.
pub proof fn lemma_exponent_unique(n: nat, e: nat)
    requires
        pow2(e) <= n < pow2(e + 1),
    ensures
        exponent(n) == e,
{
    lemma_pow2_pos(e);
    lemma_exponent_bounds(n);
    let x = exponent(n);
    if x < e {
        if x + 1 < e {
            lemma_pow2_strictly_increases(x + 1, e);
        }
    } else if e < x {
        if e + 1 < x {
            lemma_pow2_strictly_increases(e + 1, x);
        }
    }
}

/// Both sides of a cut through a literal are literals.
pub proof fn lemma_literal_cut(s: Seq<char>, k: int)
    requires
        is_literal(s),
        0 < k < s.len(),
    ensures
        is_literal(s.take(k)),
        is_literal(s.skip(k)),
{
}

/// The bits of the binary64 number that is nearest to the integer `n`.
///
/// Below `2^53` that number is `n` itself. From there on `n` has more than
/// the 53 bits that a binary64 number holds: the bits beyond the first 53
/// are cut off, and the number is rounded up where what was cut off is more
/// than half of the last bit kept, or is half of it while the last bit kept
/// is odd. An integer that is rounded to `2^1024` or beyond is infinity.
pub open spec fn nearest64(n: nat) -> nat {
    if n < pow2(53) {
        binary64(n)
    } else {
        let e = exponent(n);
        let k = (e - 52) as nat;
        let q = n / pow2(k);
        let r = n % pow2(k);
        let m = if 2 * r > pow2(k) || (2 * r == pow2(k) && q % 2 == 1) {
            q + 1
        } else {
            q
        };
        let bits = ((1023 + e) * pow2(52) + m - pow2(52)) as nat;
        if bits >= INFINITY {
            INFINITY as nat
        } else {
            bits
        }
    }
}

/// The value of the literal `s`.
pub open spec fn literal_value(s: Seq<char>) -> Value {
    nearest64(decimal(s)) as Value
}

/// The integer that the digits `d` read as in base ten.
pub open spec fn number(d: Seq<u8>) -> nat
    decreases d.len(),
{
    if d.len() == 0 {
        0
    } else {
        10 * number(d.drop_last()) + d.last() as nat
    }
}

/// Whether each of `d` is a digit.
pub open spec fn all_digits(d: Seq<u8>) -> bool {
    forall|i: int| 0 <= i < d.len() ==> (#[trigger] d[i]) < 10
}

/// The first digits of a number read as no more than the whole.
proof fn lemma_number_prefix(d: Seq<u8>, k: int)
    requires
        0 <= k <= d.len(),
    ensures
        number(d.take(k)) <= number(d),
    decreases d.len() - k,
{
    if k == d.len() {
        assert(d.take(k) =~= d);
    } else {
        lemma_number_prefix(d, k + 1);
        assert(d.take(k + 1).drop_last() =~= d.take(k));
    }
}

/// The first 53 bits of an integer of more bits begin with a one.
proof fn lemma_top_bits(n: nat)
    requires
        n >= pow2(53),
    ensures
        exponent(n) >= 53,
        pow2(52) <= n / pow2((exponent(n) - 52) as nat) < pow2(53),
{
    lemma_exponent_bounds_of(n);
    let e = exponent(n);
    if e < 53 {
        if e + 1 < 53 {
            lemma_pow2_strictly_increases(e + 1, 53);
        }
    }
    let k = (e - 52) as nat;
    let q = n / pow2(k);
    let r = n % pow2(k);
    lemma_pow2_pos(k);
    lemma_fundamental_div_mod(n as int, pow2(k) as int);
    lemma_pow2_adds(52, k);
    lemma_pow2_adds(53, k);
    assert(q >= pow2(52)) by (nonlinear_arith)
        requires
            n == pow2(k) * q + r,
            r < pow2(k),
            n >= pow2(52) * pow2(k),
            q >= 0,
    ;
    assert(q < pow2(53)) by (nonlinear_arith)
        requires
            n == pow2(k) * q + r,
            r >= 0,
            n < pow2(53) * pow2(k),
            pow2(k) > 0,
    ;
}

/// `lemma_exponent_bounds` for an integer of which only a lower bound is
/// known.
proof fn lemma_exponent_bounds_of(n: nat)
    requires
        n >= pow2(53),
    ensures
        pow2(exponent(n)) <= n < pow2(exponent(n) + 1),
{
    lemma_pow2_pos(53);
    lemma_exponent_bounds(n);
}

/// An integer of `2^1024` or more is nearest to infinity.
proof fn lemma_nearest_infinity(n: nat)
    requires
        n >= pow2(1024),
    ensures
        nearest64(n) == INFINITY,
{
    lemma_pow2_strictly_increases(53, 1024);
    lemma_top_bits(n);
    lemma_exponent_bounds_of(n);
    let e = exponent(n);
    if e < 1024 {
        if e + 1 < 1024 {
            lemma_pow2_strictly_increases(e + 1, 1024);
        }
    }
    lemma2_to64_rest();
    assert((1023 + e) * pow2(52) >= 2047 * 0x10_0000_0000_0000) by (nonlinear_arith)
        requires
            e >= 1024,
            pow2(52) == 0x10_0000_0000_0000,
    ;
}

/// What the rounding of `n` comes to, where `n` is `q` followed by `k` more
/// bits: a first bit `last` and `low` behind it.
proof fn lemma_nearest_rounded(n: nat, q: nat, k: nat, last: bool, low: nat)
    requires
        k > 0,
        pow2(52) <= q < pow2(53),
        low < pow2((k - 1) as nat),
        n == q * pow2(k) + (if last {
            pow2((k - 1) as nat)
        } else {
            0
        }) + low,
    ensures
        nearest64(n) == ({
            let m = if last && (low > 0 || q % 2 == 1) {
                q + 1
            } else {
                q
            };
            let bits = ((1075 + k) * pow2(52) + m - pow2(52)) as nat;
            if bits >= INFINITY {
                INFINITY as nat
            } else {
                bits
            }
        }),
{
    let half = pow2((k - 1) as nat);
    let r = (if last {
        half
    } else {
        0
    }) + low;
    lemma_pow2_unfold(k);
    lemma_pow2_pos(k);
    lemma_pow2_adds(52, k);
    lemma_pow2_adds(53, k);
    assert(r < pow2(k));
    assert(n >= pow2(52 + k)) by (nonlinear_arith)
        requires
            n == q * pow2(k) + r,
            q >= pow2(52),
            pow2(52 + k) == pow2(52) * pow2(k),
            pow2(k) > 0,
            r >= 0,
    ;
    assert(n < pow2(53 + k)) by (nonlinear_arith)
        requires
            n == q * pow2(k) + r,
            q + 1 <= pow2(53),
            pow2(53 + k) == pow2(53) * pow2(k),
            r < pow2(k),
    ;
    lemma_exponent_unique(n, 52 + k);
    if 53 < 52 + k {
        lemma_pow2_strictly_increases(53, 52 + k);
    }
    lemma_fundamental_div_mod_converse(n as int, pow2(k) as int, q as int, r as int);
}

/// The digits of `numbers` as numbers.
fn digit_values(numbers: &str) -> (d: Vec<u8>)
    requires
        is_digits(numbers@),
    ensures
        d@.len() == numbers@.len(),
        all_digits(d@),
        number(d@) == decimal(numbers@),
        forall|i: int| 0 <= i < d@.len() ==> (#[trigger] d@[i]) == digit_of(numbers@[i]),
{
    let bytes = numbers.as_bytes();
    proof {
        assert(is_ascii(numbers)) by {
            assert forall|i: int| 0 <= i < numbers@.len() implies '\0' <= #[trigger] numbers@[i]
                <= '\u{7f}' by {
                assert(is_digit(numbers@[i]));
            }
        }
        is_ascii_spec_bytes(numbers);
    }
    let mut d: Vec<u8> = Vec::new();
    let mut i: usize = 0;
    while i < bytes.len()
        invariant
            i <= bytes.len(),
            bytes@.len() == numbers@.len(),
            forall|k: int| 0 <= k < bytes@.len() ==> bytes@[k] == numbers@[k] as u8,
            is_digits(numbers@),
            d@.len() == i,
            all_digits(d@),
            number(d@) == decimal(numbers@.take(i as int)),
            forall|k: int| 0 <= k < i ==> (#[trigger] d@[k]) == digit_of(numbers@[k]),
        decreases bytes.len() - i,
    {
        proof {
            assert(is_digit(numbers@[i as int]));
            assert(numbers@.take(i + 1).drop_last() =~= numbers@.take(i as int));
        }
        let ghost before = d@;
        d.push(bytes[i] - 0x30);
        proof {
            assert(d@.drop_last() =~= before);
        }
        i = i + 1;
    }
    proof {
        assert(numbers@.take(i as int) =~= numbers@);
    }
    d
}

/// Half of the number that `d` reads as, and whether one is left over.
fn halve(d: &Vec<u8>) -> (r: (Vec<u8>, bool))
    requires
        all_digits(d@),
    ensures
        all_digits(r.0@),
        number(d@) == 2 * number(r.0@) + (if r.1 {
            1nat
        } else {
            0nat
        }),
{
    let mut half: Vec<u8> = Vec::new();
    let mut carry: u8 = 0;
    let mut i: usize = 0;
    while i < d.len()
        invariant
            i <= d@.len(),
            all_digits(d@),
            all_digits(half@),
            carry < 2,
            number(d@.take(i as int)) == 2 * number(half@) + carry,
        decreases d@.len() - i,
    {
        let all: u8 = carry * 10 + d[i];
        let ghost before = half@;
        half.push(all / 2);
        carry = all % 2;
        proof {
            assert(half@.drop_last() =~= before);
            assert(d@.take(i + 1).drop_last() =~= d@.take(i as int));
        }
        i = i + 1;
    }
    proof {
        assert(d@.take(i as int) =~= d@);
    }
    (half, carry == 1)
}

/// The number that `d` reads as, where it is below `2^53`.
fn below_53_bits(d: &Vec<u8>) -> (r: Option<u64>)
    requires
        all_digits(d@),
    ensures
        match r {
            Some(n) => n == number(d@) && n < 0x20_0000_0000_0000,
            None => number(d@) >= 0x20_0000_0000_0000,
        },
{
    let mut n: u64 = 0;
    let mut i: usize = 0;
    while i < d.len()
        invariant
            i <= d@.len(),
            all_digits(d@),
            n == number(d@.take(i as int)),
            n < 0x20_0000_0000_0000,
        decreases d@.len() - i,
    {
        proof {
            assert(d@.take(i + 1).drop_last() =~= d@.take(i as int));
            lemma_number_prefix(d@, i + 1);
        }
        let next: u64 = 10 * n + d[i] as u64;
        if next >= 0x20_0000_0000_0000 {
            return None;
        }
        n = next;
        i = i + 1;
    }
    proof {
        assert(d@.take(i as int) =~= d@);
    }
    Some(n)
}

/// The bits of the binary64 number that is nearest to the integer that the
/// digits `numbers` read as.
pub fn nearest_bits(numbers: &str) -> (bits: Value)
    requires
        is_digits(numbers@),
    ensures
        bits == literal_value(numbers@),
{
    let mut digits = digit_values(numbers);
    let ghost n = number(digits@);
    let mut k: u64 = 0;
    let mut last = false;
    let mut sticky = false;
    let ghost mut low: nat = 0;
    proof {
        lemma2_to64();
        lemma2_to64_rest();
        assert(n == number(digits@) * pow2(0)) by (nonlinear_arith)
            requires
                n == number(digits@),
                pow2(0) == 1,
        ;
    }
    loop
        invariant
            all_digits(digits@),
            n == decimal(numbers@),
            k <= 971,
            pow2(0) == 1,
            pow2(52) == 0x10_0000_0000_0000,
            pow2(53) == 0x20_0000_0000_0000,
            k == 0 ==> !last && !sticky && low == 0,
            k > 0 ==> number(digits@) >= pow2(52) && low < pow2((k - 1) as nat),
            sticky == (low > 0),
            n == number(digits@) * pow2(k as nat) + (if last {
                pow2((k - 1) as nat)
            } else {
                0
            }) + low,
        decreases 971 - k,
    {
        match below_53_bits(&digits) {
            Some(q) => {
                if k == 0 {
                    proof {
                        assert(n == q) by (nonlinear_arith)
                            requires
                                n == q * pow2(0) + 0 + 0,
                                pow2(0) == 1,
                        ;
                    }
                    return exact_bits(q);
                }
                let m: u64 = if last && (sticky || q % 2 == 1) {
                    q + 1
                } else {
                    q
                };
                proof {
                    lemma_nearest_rounded(n, q as nat, k as nat, last, low);
                    assert((1075 + k) * pow2(52) <= 2046 * 0x10_0000_0000_0000) by (nonlinear_arith)
                        requires
                            k <= 971,
                            pow2(52) == 0x10_0000_0000_0000,
                    ;
                    assert((1075 + k) * pow2(52) >= 0) by (nonlinear_arith)
                        requires
                            pow2(52) == 0x10_0000_0000_0000,
                    ;
                }
                return (1075 + k) * 0x10_0000_0000_0000 + (m - 0x10_0000_0000_0000);
            },
            None => {
                if k >= 971 {
                    proof {
                        let v = number(digits@);
                        let rest = (if last {
                            pow2((k - 1) as nat)
                        } else {
                            0
                        }) + low;
                        lemma_pow2_adds(53, 971);
                        assert(n >= pow2(1024)) by (nonlinear_arith)
                            requires
                                n == v * pow2(971) + rest,
                                rest >= 0,
                                v >= pow2(53),
                                pow2(1024) == pow2(53) * pow2(971),
                        ;
                        lemma_nearest_infinity(n);
                    }
                    return INFINITY;
                }
                let ghost before = number(digits@);
                let ghost rest = (if last {
                    pow2((k - 1) as nat)
                } else {
                    0
                }) + low;
                let (half, odd) = halve(&digits);
                proof {
                    let c: nat = if odd {
                        1
                    } else {
                        0
                    };
                    lemma_pow2_unfold((k + 1) as nat);
                    lemma_pow2_pos(k as nat);
                    if k > 0 {
                        lemma_pow2_unfold(k as nat);
                    }
                    assert(rest < pow2(k as nat));
                    assert(n == number(half@) * pow2((k + 1) as nat) + c * pow2(k as nat) + rest)
                        by (nonlinear_arith)
                        requires
                            n == before * pow2(k as nat) + rest,
                            before == 2 * number(half@) + c,
                            pow2((k + 1) as nat) == 2 * pow2(k as nat),
                    ;
                    low = rest;
                }
                sticky = last || sticky;
                last = odd;
                digits = half;
                k = k + 1;
            },
        }
    }
}

/// The bits of the binary64 number that equals `n`, for `n` below `2^53`.
pub fn exact_bits(n: u64) -> (bits: Value)
    requires
        n < 0x20_0000_0000_0000,
    ensures
        bits == binary64(n as nat),
{
    if n == 0 {
        return 0;
    }
    let mut m: u64 = n;
    let mut e: u64 = 52;
    proof {
        lemma2_to64();
        lemma2_to64_rest();
        assert(m == n * pow2(0)) by (nonlinear_arith)
            requires
                m == n,
                pow2(0) == 1,
        ;
    }
    while m < 0x10_0000_0000_0000
        invariant
            n > 0,
            m > 0,
            e <= 52,
            m == n * pow2((52 - e) as nat),
            m < 0x20_0000_0000_0000,
            pow2(52) == 0x10_0000_0000_0000,
            pow2(53) == 0x20_0000_0000_0000,
        decreases 0x20_0000_0000_0000 - m,
    {
        proof {
            lemma_pow2_pos((52 - e) as nat);
            if e == 0 {
                assert(m >= n * pow2(52)) by (nonlinear_arith)
                    requires
                        m == n * pow2(52),
                ;
                assert(n * pow2(52) >= pow2(52)) by (nonlinear_arith)
                    requires
                        n >= 1,
                ;
            }
            lemma_pow2_unfold((52 - e + 1) as nat);
            assert(2 * (n * pow2((52 - e) as nat)) == n * (2 * pow2((52 - e) as nat)))
                by (nonlinear_arith);
        }
        m = m * 2;
        e = e - 1;
    }
    proof {
        let k = (52 - e) as nat;
        lemma_pow2_adds(e as nat, k);
        lemma_pow2_adds(e as nat + 1, k);
        lemma_pow2_pos(k);
        assert(pow2(e as nat) <= n) by (nonlinear_arith)
            requires
                pow2(e as nat) * pow2(k) <= n * pow2(k),
                pow2(k) > 0,
        ;
        assert(n < pow2(e as nat + 1)) by (nonlinear_arith)
            requires
                n * pow2(k) < pow2(e as nat + 1) * pow2(k),
                pow2(k) > 0,
        ;
        lemma_exponent_unique(n as nat, e as nat);
        assert((1023 + e) * pow2(52) <= 1075 * 0x10_0000_0000_0000) by (nonlinear_arith)
            requires
                e <= 52,
                pow2(52) == 0x10_0000_0000_0000,
        ;
    }
    (1023 + e) * 0x10_0000_0000_0000 + (m - 0x10_0000_0000_0000)
}

/// The bits of the binary64 number that equals `n`.
pub fn integer_bits(n: u32) -> (bits: Value)
    ensures
        bits == binary64(n as nat),
{
    exact_bits(n as u64)
}

} // verus!
