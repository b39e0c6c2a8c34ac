use vstd::arithmetic::power::pow;
use vstd::math::abs;
use vstd::prelude::*;

verus! {

/// The numeric capabilities that the tokenizer, parser and interpreter need.
///
/// Every operation is partial: `None` means the type has no value for the
/// operands (an integer that overflows, a division by zero, the square root of
/// a negative integer). The spec functions give each operation's meaning, and
/// the executable methods are tied to them.
pub trait Num: Sized + Copy {
    /// The value of a numeral (a run of ASCII digits and decimal points).
    spec fn spec_parse(s: Seq<char>) -> Option<Self>;

    spec fn spec_zero() -> Self;

    spec fn spec_one() -> Self;

    spec fn spec_is_whole(a: Self) -> bool;

    spec fn spec_add(a: Self, b: Self) -> Option<Self>;

    spec fn spec_sub(a: Self, b: Self) -> Option<Self>;

    spec fn spec_mul(a: Self, b: Self) -> Option<Self>;

    spec fn spec_div(a: Self, b: Self) -> Option<Self>;

    spec fn spec_rem(a: Self, b: Self) -> Option<Self>;

    spec fn spec_pow(a: Self, b: Self) -> Option<Self>;

    spec fn spec_neg(a: Self) -> Option<Self>;

    spec fn spec_abs(a: Self) -> Option<Self>;

    spec fn spec_sqrt(a: Self) -> Option<Self>;

    spec fn spec_factorial(a: Self) -> Option<Self>;

    spec fn spec_pi() -> Self;

    spec fn spec_e() -> Self;

    spec fn spec_tau() -> Self;

    /// Parses a numeral; `None` where the type cannot represent it.
    fn parse(s: &str) -> (r: Option<Self>)
        ensures
            r == Self::spec_parse(s@),
    ;

    /// The additive identity.
    fn zero() -> (r: Self)
        ensures
            r == Self::spec_zero(),
    ;

    /// The multiplicative identity.
    fn one() -> (r: Self)
        ensures
            r == Self::spec_one(),
    ;

    /// True for a whole number without a fractional part.
    fn is_whole(&self) -> (r: bool)
        ensures
            r == Self::spec_is_whole(*self),
    ;

    fn try_add(&self, other: &Self) -> (r: Option<Self>)
        ensures
            r == Self::spec_add(*self, *other),
    ;

    fn try_sub(&self, other: &Self) -> (r: Option<Self>)
        ensures
            r == Self::spec_sub(*self, *other),
    ;

    fn try_mul(&self, other: &Self) -> (r: Option<Self>)
        ensures
            r == Self::spec_mul(*self, *other),
    ;

    fn try_div(&self, other: &Self) -> (r: Option<Self>)
        ensures
            r == Self::spec_div(*self, *other),
    ;

    fn try_rem(&self, other: &Self) -> (r: Option<Self>)
        ensures
            r == Self::spec_rem(*self, *other),
    ;

    /// `self` raised to the power `other`.
    fn try_pow(&self, other: &Self) -> (r: Option<Self>)
        ensures
            r == Self::spec_pow(*self, *other),
    ;

    fn try_neg(&self) -> (r: Option<Self>)
        ensures
            r == Self::spec_neg(*self),
    ;

    fn try_abs(&self) -> (r: Option<Self>)
        ensures
            r == Self::spec_abs(*self),
    ;

    fn try_sqrt(&self) -> (r: Option<Self>)
        ensures
            r == Self::spec_sqrt(*self),
    ;

    /// The factorial; `None` for negative or fractional input.
    fn try_factorial(&self) -> (r: Option<Self>)
        ensures
            r == Self::spec_factorial(*self),
    ;

    fn pi() -> (r: Self)
        ensures
            r == Self::spec_pi(),
    ;

    fn e() -> (r: Self)
        ensures
            r == Self::spec_e(),
    ;

    fn tau() -> (r: Self)
        ensures
            r == Self::spec_tau(),
    ;
}

pub open spec fn is_digit(c: char) -> bool {
    '0' <= c && c <= '9'
}

pub open spec fn digit_value(c: char) -> nat {
    (c as u32 - '0' as u32) as nat
}

/// The number that a string of decimal digits denotes.
pub open spec fn decimal_value(s: Seq<char>) -> nat
    decreases s.len(),
{
    if s.len() == 0 {
        0
    } else {
        decimal_value(s.drop_last()) * 10 + digit_value(s.last())
    }
}

pub open spec fn all_digits(s: Seq<char>) -> bool {
    forall|i: int| 0 <= i < s.len() ==> is_digit(#[trigger] s[i])
}

pub open spec fn factorial(n: nat) -> nat
    decreases n,
{
    if n == 0 {
        1
    } else {
        n * factorial((n - 1) as nat)
    }
}

pub open spec fn in_i64(x: int) -> bool {
    i64::MIN <= x <= i64::MAX
}

pub open spec fn fit_i64(x: int) -> Option<i64> {
    if in_i64(x) {
        Some(x as i64)
    } else {
        None
    }
}

pub open spec fn is_floor_sqrt(a: int, r: int) -> bool {
    0 <= r && r * r <= a < (r + 1) * (r + 1)
}

/// Division rounding toward zero, as Rust's integer `/` does.
pub open spec fn div_toward_zero(a: int, b: int) -> int {
    if a == 0 {
        0
    } else if a > 0 && b > 0 {
        a / b
    } else if a < 0 && b < 0 {
        (-a) / (-b)
    } else if a < 0 {
        -((-a) / b)
    } else {
        -(a / (-b))
    }
}

/// The remainder that goes with `div_toward_zero`: it takes the sign of `a`.
pub open spec fn rem_toward_zero(a: int, b: int) -> int {
    if a == 0 {
        0
    } else if a > 0 && b > 0 {
        a % b
    } else if a < 0 && b < 0 {
        -((-a) % (-b))
    } else if a < 0 {
        -((-a) % b)
    } else {
        a % (-b)
    }
}

proof fn lemma_decimal_monotone(s: Seq<char>, i: int)
    requires
        0 <= i <= s.len(),
    ensures
        decimal_value(s.subrange(0, i)) <= decimal_value(s),
    decreases s.len() - i,
{
    if i < s.len() {
        lemma_decimal_monotone(s.drop_last(), i);
        assert(s.drop_last().subrange(0, i) =~= s.subrange(0, i));
    } else {
        assert(s.subrange(0, i) =~= s);
    }
}

proof fn lemma_factorial_monotone(i: nat, j: nat)
    requires
        i <= j,
    ensures
        1 <= factorial(i) <= factorial(j),
    decreases j,
{
    if j > 0 {
        if i < j {
            lemma_factorial_monotone(i, (j - 1) as nat);
        } else {
            lemma_factorial_monotone((j - 1) as nat, (j - 1) as nat);
        }
        let f = factorial((j - 1) as nat);
        assert(f <= j * f) by (nonlinear_arith)
            requires
                j >= 1,
                f >= 1,
        ;
    }
}

proof fn lemma_pow_step(a: int, e: nat)
    ensures
        pow(a, e + 1) == a * pow(a, e),
{
    reveal(pow);
}

/// For a base of magnitude two or more, powers grow in magnitude.
proof fn lemma_pow_abs_monotone(a: int, i: nat, j: nat)
    requires
        a >= 2 || a <= -2,
        i <= j,
    ensures
        pow(a, i) != 0,
        abs(pow(a, i)) <= abs(pow(a, j)),
    decreases j,
{
    reveal(pow);
    if j == 0 {
    } else if i == j {
        lemma_pow_abs_monotone(a, (i - 1) as nat, (j - 1) as nat);
        lemma_pow_step(a, (j - 1) as nat);
        let p = pow(a, (j - 1) as nat);
        assert(a * p != 0) by (nonlinear_arith)
            requires
                a >= 2 || a <= -2,
                p != 0,
        ;
    } else {
        lemma_pow_abs_monotone(a, i, (j - 1) as nat);
        lemma_pow_step(a, (j - 1) as nat);
        let p = pow(a, (j - 1) as nat);
        assert(abs(p) <= abs(a * p)) by (nonlinear_arith)
            requires
                a >= 2 || a <= -2,
        ;
    }
}

proof fn lemma_pow_unit(a: int, e: nat)
    requires
        -1 <= a <= 1,
    ensures
        a == 0 ==> pow(a, e) == (if e == 0 { 1int } else { 0int }),
        a == 1 ==> pow(a, e) == 1,
        a == -1 ==> pow(a, e) == (if e % 2 == 0 { 1int } else { -1int }),
    decreases e,
{
    reveal(pow);
    if e > 0 {
        lemma_pow_unit(a, (e - 1) as nat);
    }
}

proof fn lemma_floor_sqrt_unique(a: int, r: int, s: int)
    requires
        is_floor_sqrt(a, r),
        is_floor_sqrt(a, s),
    ensures
        r == s,
{
    if r < s {
        assert((r + 1) * (r + 1) <= s * s) by (nonlinear_arith)
            requires
                0 <= r,
                r + 1 <= s,
        ;
    } else if s < r {
        assert((s + 1) * (s + 1) <= r * r) by (nonlinear_arith)
            requires
                0 <= s,
                s + 1 <= r,
        ;
    }
}

/// Relies on i64::isqrt: the square root rounded down, for a non-negative input.
#[verifier::external_body]
fn floor_sqrt(a: i64) -> (r: i64)
    requires
        a >= 0,
    ensures
        is_floor_sqrt(a as int, r as int),
{
    a.isqrt()
}

/// Exact integer arithmetic: an operation whose result does not fit in 64
/// bits, a zero divisor, a negative exponent, the square root of a negative
/// number and the factorial of a negative one have no value. The square root
/// rounds down; the constants are rounded toward zero.
impl Num for i64 {
    open spec fn spec_parse(s: Seq<char>) -> Option<i64> {
        if s.len() > 0 && all_digits(s) && decimal_value(s) <= i64::MAX {
            Some(decimal_value(s) as i64)
        } else {
            None
        }
    }

    open spec fn spec_zero() -> i64 {
        0
    }

    open spec fn spec_one() -> i64 {
        1
    }

    open spec fn spec_is_whole(a: i64) -> bool {
        true
    }

    open spec fn spec_add(a: i64, b: i64) -> Option<i64> {
        fit_i64(a + b)
    }

    open spec fn spec_sub(a: i64, b: i64) -> Option<i64> {
        fit_i64(a - b)
    }

    open spec fn spec_mul(a: i64, b: i64) -> Option<i64> {
        fit_i64(a * b)
    }

    open spec fn spec_div(a: i64, b: i64) -> Option<i64> {
        if b == 0 {
            None
        } else {
            fit_i64(div_toward_zero(a as int, b as int))
        }
    }

    open spec fn spec_rem(a: i64, b: i64) -> Option<i64> {
        if b == 0 || (a == i64::MIN && b == -1) {
            None
        } else {
            fit_i64(rem_toward_zero(a as int, b as int))
        }
    }

    open spec fn spec_pow(a: i64, b: i64) -> Option<i64> {
        if b < 0 {
            None
        } else {
            fit_i64(pow(a as int, b as nat))
        }
    }

    open spec fn spec_neg(a: i64) -> Option<i64> {
        fit_i64(-a)
    }

    open spec fn spec_abs(a: i64) -> Option<i64> {
        fit_i64(abs(a as int) as int)
    }

    open spec fn spec_sqrt(a: i64) -> Option<i64> {
        if a < 0 {
            None
        } else {
            Some(choose|r: i64| is_floor_sqrt(a as int, r as int))
        }
    }

    open spec fn spec_factorial(a: i64) -> Option<i64> {
        if a < 0 {
            None
        } else {
            fit_i64(factorial(a as nat) as int)
        }
    }

    open spec fn spec_pi() -> i64 {
        3
    }

    open spec fn spec_e() -> i64 {
        2
    }

    open spec fn spec_tau() -> i64 {
        6
    }

    fn parse(s: &str) -> (r: Option<i64>) {
        let n = s.unicode_len();
        if n == 0 {
            return None;
        }
        let ghost cs = s@;
        let mut acc: i64 = 0;
        let mut i: usize = 0;
        while i < n
            invariant
                n == cs.len(),
                cs == s@,
                i <= n,
                all_digits(cs.subrange(0, i as int)),
                acc as int == decimal_value(cs.subrange(0, i as int)),
                0 <= acc,
            decreases n - i,
        {
            let c = s.get_char(i);
            if !('0' <= c && c <= '9') {
                return None;
            }
            let d: i64 = (c as u32 - '0' as u32) as i64;
            proof {
                assert(cs.subrange(0, i + 1).drop_last() =~= cs.subrange(0, i as int));
                assert(cs.subrange(0, i + 1).last() == c);
            }
            if acc > (i64::MAX - d) / 10 {
                proof {
                    assert(acc * 10 + d > i64::MAX) by (nonlinear_arith)
                        requires
                            acc > (i64::MAX - d) / 10,
                            0 <= d <= 9,
                    ;
                    lemma_decimal_monotone(cs, i + 1);
                }
                return None;
            }
            proof {
                assert(acc * 10 + d <= i64::MAX) by (nonlinear_arith)
                    requires
                        acc <= (i64::MAX - d) / 10,
                        0 <= d <= 9,
                        0 <= acc,
                ;
            }
            acc = acc * 10 + d;
            i = i + 1;
        }
        proof {
            assert(cs.subrange(0, n as int) =~= cs);
        }
        Some(acc)
    }

    fn zero() -> (r: i64) {
        0
    }

    fn one() -> (r: i64) {
        1
    }

    fn is_whole(&self) -> (r: bool) {
        true
    }

    fn try_add(&self, other: &i64) -> (r: Option<i64>) {
        self.checked_add(*other)
    }

    fn try_sub(&self, other: &i64) -> (r: Option<i64>) {
        self.checked_sub(*other)
    }

    fn try_mul(&self, other: &i64) -> (r: Option<i64>) {
        self.checked_mul(*other)
    }

    fn try_div(&self, other: &i64) -> (r: Option<i64>) {
        self.checked_div(*other)
    }

    fn try_rem(&self, other: &i64) -> (r: Option<i64>) {
        self.checked_rem(*other)
    }

    fn try_pow(&self, other: &i64) -> (r: Option<i64>) {
        let a = *self;
        let b = *other;
        if b < 0 {
            return None;
        }
        if -1 <= a && a <= 1 {
            proof {
                lemma_pow_unit(a as int, b as nat);
            }
            if a == 0 {
                return if b == 0 { Some(1) } else { Some(0) };
            } else if a == 1 {
                return Some(1);
            } else {
                return if b % 2 == 0 { Some(1) } else { Some(-1) };
            }
        }
        let mut acc: i64 = 1;
        let mut i: i64 = 0;
        proof {
            reveal(pow);
        }
        while i < b
            invariant
                0 <= i <= b,
                acc as int == pow(a as int, i as nat),
                a >= 2 || a <= -2,
                a == *self,
                b == *other,
            decreases b - i,
        {
            proof {
                lemma_pow_step(a as int, i as nat);
            }
            match acc.checked_mul(a) {
                Some(next) => {
                    acc = next;
                },
                None => {
                    proof {
                        let y = pow(a as int, (i + 1) as nat);
                        assert(!in_i64(y));
                        if i + 1 < b {
                            lemma_pow_step(a as int, (i + 1) as nat);
                            lemma_pow_abs_monotone(a as int, (i + 2) as nat, b as nat);
                            assert(abs(a * y) >= 2 * abs(y)) by (nonlinear_arith)
                                requires
                                    a >= 2 || a <= -2,
                            ;
                            assert(pow(a as int, (i + 2) as nat) == a * y);
                            assert(abs(pow(a as int, b as nat)) >= 2 * abs(y));
                            assert(!in_i64(pow(a as int, b as nat)));
                        } else {
                            assert(b as nat == (i + 1) as nat);
                        }
                        assert(!in_i64(pow(a as int, b as nat)));
                    }
                    return None;
                },
            }
            i = i + 1;
        }
        Some(acc)
    }

    fn try_neg(&self) -> (r: Option<i64>) {
        if *self == i64::MIN {
            None
        } else {
            Some(-*self)
        }
    }

    fn try_abs(&self) -> (r: Option<i64>) {
        if *self == i64::MIN {
            None
        } else if *self < 0 {
            Some(-*self)
        } else {
            Some(*self)
        }
    }

    fn try_sqrt(&self) -> (r: Option<i64>) {
        if *self < 0 {
            return None;
        }
        let r = floor_sqrt(*self);
        proof {
            let c = choose|s: i64| is_floor_sqrt(*self as int, s as int);
            lemma_floor_sqrt_unique(*self as int, r as int, c as int);
        }
        Some(r)
    }

    fn try_factorial(&self) -> (r: Option<i64>) {
        let n = *self;
        if n < 0 {
            return None;
        }
        let mut acc: i64 = 1;
        let mut k: i64 = 0;
        proof {
            reveal(factorial);
        }
        while k < n
            invariant
                0 <= k <= n,
                acc as int == factorial(k as nat),
                n == *self,
            decreases n - k,
        {
            proof {
                assert(factorial((k + 1) as nat) == (k + 1) * factorial(k as nat));
            }
            proof {
                assert(acc * (k + 1) == (k + 1) * factorial(k as nat)) by (nonlinear_arith)
                    requires
                        acc as int == factorial(k as nat),
                ;
            }
            match acc.checked_mul(k + 1) {
                Some(next) => {
                    acc = next;
                },
                None => {
                    proof {
                        lemma_factorial_monotone((k + 1) as nat, n as nat);
                        assert(factorial((k + 1) as nat) > i64::MAX);
                        assert(!in_i64(factorial(n as nat) as int));
                    }
                    return None;
                },
            }
            k = k + 1;
        }
        Some(acc)
    }

    fn pi() -> (r: i64) {
        3
    }

    fn e() -> (r: i64) {
        2
    }

    fn tau() -> (r: i64) {
        6
    }
}


pub open spec fn in_i32(x: int) -> bool {
    i32::MIN <= x <= i32::MAX
}

pub open spec fn fit_i32(x: int) -> Option<i32> {
    if in_i32(x) {
        Some(x as i32)
    } else {
        None
    }
}

/// Exact integer arithmetic on 32 bits, with the same rules as for `i64`.
impl Num for i32 {
    open spec fn spec_parse(s: Seq<char>) -> Option<i32> {
        if s.len() > 0 && all_digits(s) && decimal_value(s) <= i32::MAX {
            Some(decimal_value(s) as i32)
        } else {
            None
        }
    }

    open spec fn spec_zero() -> i32 {
        0
    }

    open spec fn spec_one() -> i32 {
        1
    }

    open spec fn spec_is_whole(a: i32) -> bool {
        true
    }

    open spec fn spec_add(a: i32, b: i32) -> Option<i32> {
        fit_i32(a + b)
    }

    open spec fn spec_sub(a: i32, b: i32) -> Option<i32> {
        fit_i32(a - b)
    }

    open spec fn spec_mul(a: i32, b: i32) -> Option<i32> {
        fit_i32(a * b)
    }

    open spec fn spec_div(a: i32, b: i32) -> Option<i32> {
        if b == 0 {
            None
        } else {
            fit_i32(div_toward_zero(a as int, b as int))
        }
    }

    open spec fn spec_rem(a: i32, b: i32) -> Option<i32> {
        if b == 0 || (a == i32::MIN && b == -1) {
            None
        } else {
            fit_i32(rem_toward_zero(a as int, b as int))
        }
    }

    open spec fn spec_pow(a: i32, b: i32) -> Option<i32> {
        if b < 0 {
            None
        } else {
            fit_i32(pow(a as int, b as nat))
        }
    }

    open spec fn spec_neg(a: i32) -> Option<i32> {
        fit_i32(-a)
    }

    open spec fn spec_abs(a: i32) -> Option<i32> {
        fit_i32(abs(a as int) as int)
    }

    open spec fn spec_sqrt(a: i32) -> Option<i32> {
        if a < 0 {
            None
        } else {
            Some(choose|r: i32| is_floor_sqrt(a as int, r as int))
        }
    }

    open spec fn spec_factorial(a: i32) -> Option<i32> {
        if a < 0 {
            None
        } else {
            fit_i32(factorial(a as nat) as int)
        }
    }

    open spec fn spec_pi() -> i32 {
        3
    }

    open spec fn spec_e() -> i32 {
        2
    }

    open spec fn spec_tau() -> i32 {
        6
    }

    fn parse(s: &str) -> (r: Option<i32>) {
        let n = s.unicode_len();
        if n == 0 {
            return None;
        }
        let ghost cs = s@;
        let mut acc: i32 = 0;
        let mut i: usize = 0;
        while i < n
            invariant
                n == cs.len(),
                cs == s@,
                i <= n,
                all_digits(cs.subrange(0, i as int)),
                acc as int == decimal_value(cs.subrange(0, i as int)),
                0 <= acc,
            decreases n - i,
        {
            let c = s.get_char(i);
            if !('0' <= c && c <= '9') {
                return None;
            }
            let d: i32 = (c as u32 - '0' as u32) as i32;
            proof {
                assert(cs.subrange(0, i + 1).drop_last() =~= cs.subrange(0, i as int));
                assert(cs.subrange(0, i + 1).last() == c);
            }
            if acc > (i32::MAX - d) / 10 {
                proof {
                    assert(acc * 10 + d > i32::MAX) by (nonlinear_arith)
                        requires
                            acc > (i32::MAX - d) / 10,
                            0 <= d <= 9,
                    ;
                    lemma_decimal_monotone(cs, i + 1);
                }
                return None;
            }
            proof {
                assert(acc * 10 + d <= i32::MAX) by (nonlinear_arith)
                    requires
                        acc <= (i32::MAX - d) / 10,
                        0 <= d <= 9,
                        0 <= acc,
                ;
            }
            acc = acc * 10 + d;
            i = i + 1;
        }
        proof {
            assert(cs.subrange(0, n as int) =~= cs);
        }
        Some(acc)
    }

    fn zero() -> (r: i32) {
        0
    }

    fn one() -> (r: i32) {
        1
    }

    fn is_whole(&self) -> (r: bool) {
        true
    }

    fn try_add(&self, other: &i32) -> (r: Option<i32>) {
        self.checked_add(*other)
    }

    fn try_sub(&self, other: &i32) -> (r: Option<i32>) {
        self.checked_sub(*other)
    }

    fn try_mul(&self, other: &i32) -> (r: Option<i32>) {
        self.checked_mul(*other)
    }

    fn try_div(&self, other: &i32) -> (r: Option<i32>) {
        self.checked_div(*other)
    }

    fn try_rem(&self, other: &i32) -> (r: Option<i32>) {
        self.checked_rem(*other)
    }

    fn try_pow(&self, other: &i32) -> (r: Option<i32>) {
        let a = *self;
        let b = *other;
        if b < 0 {
            return None;
        }
        if -1 <= a && a <= 1 {
            proof {
                lemma_pow_unit(a as int, b as nat);
            }
            if a == 0 {
                return if b == 0 { Some(1) } else { Some(0) };
            } else if a == 1 {
                return Some(1);
            } else {
                return if b % 2 == 0 { Some(1) } else { Some(-1) };
            }
        }
        let mut acc: i32 = 1;
        let mut i: i32 = 0;
        proof {
            reveal(pow);
        }
        while i < b
            invariant
                0 <= i <= b,
                acc as int == pow(a as int, i as nat),
                a >= 2 || a <= -2,
                a == *self,
                b == *other,
            decreases b - i,
        {
            proof {
                lemma_pow_step(a as int, i as nat);
            }
            match acc.checked_mul(a) {
                Some(next) => {
                    acc = next;
                },
                None => {
                    proof {
                        let y = pow(a as int, (i + 1) as nat);
                        assert(!in_i32(y));
                        if i + 1 < b {
                            lemma_pow_step(a as int, (i + 1) as nat);
                            lemma_pow_abs_monotone(a as int, (i + 2) as nat, b as nat);
                            assert(abs(a * y) >= 2 * abs(y)) by (nonlinear_arith)
                                requires
                                    a >= 2 || a <= -2,
                            ;
                            assert(pow(a as int, (i + 2) as nat) == a * y);
                            assert(abs(pow(a as int, b as nat)) >= 2 * abs(y));
                            assert(!in_i32(pow(a as int, b as nat)));
                        } else {
                            assert(b as nat == (i + 1) as nat);
                        }
                        assert(!in_i32(pow(a as int, b as nat)));
                    }
                    return None;
                },
            }
            i = i + 1;
        }
        Some(acc)
    }

    fn try_neg(&self) -> (r: Option<i32>) {
        if *self == i32::MIN {
            None
        } else {
            Some(-*self)
        }
    }

    fn try_abs(&self) -> (r: Option<i32>) {
        if *self == i32::MIN {
            None
        } else if *self < 0 {
            Some(-*self)
        } else {
            Some(*self)
        }
    }

    fn try_sqrt(&self) -> (r: Option<i32>) {
        if *self < 0 {
            return None;
        }
        let wide = floor_sqrt(*self as i64);
        proof {
            let w = wide as int;
            assert(w < 46341) by (nonlinear_arith)
                requires
                    0 <= w,
                    w * w <= i32::MAX,
            ;
        }
        let r = wide as i32;
        proof {
            let c = choose|s: i32| is_floor_sqrt(*self as int, s as int);
            lemma_floor_sqrt_unique(*self as int, r as int, c as int);
        }
        Some(r)
    }

    fn try_factorial(&self) -> (r: Option<i32>) {
        let n = *self;
        if n < 0 {
            return None;
        }
        let mut acc: i32 = 1;
        let mut k: i32 = 0;
        proof {
            reveal(factorial);
        }
        while k < n
            invariant
                0 <= k <= n,
                acc as int == factorial(k as nat),
                n == *self,
            decreases n - k,
        {
            proof {
                assert(factorial((k + 1) as nat) == (k + 1) * factorial(k as nat));
            }
            proof {
                assert(acc * (k + 1) == (k + 1) * factorial(k as nat)) by (nonlinear_arith)
                    requires
                        acc as int == factorial(k as nat),
                ;
            }
            match acc.checked_mul(k + 1) {
                Some(next) => {
                    acc = next;
                },
                None => {
                    proof {
                        lemma_factorial_monotone((k + 1) as nat, n as nat);
                        assert(factorial((k + 1) as nat) > i32::MAX);
                        assert(!in_i32(factorial(n as nat) as int));
                    }
                    return None;
                },
            }
            k = k + 1;
        }
        Some(acc)
    }

    fn pi() -> (r: i32) {
        3
    }

    fn e() -> (r: i32) {
        2
    }

    fn tau() -> (r: i32) {
        6
    }
}

} // verus!
