//! Scalar domain types: side, order id, fixed-point price and size, coin.
//!
//! Prices and sizes are unsigned 64-bit integers holding the real value
//! multiplied by `10^8`, so all arithmetic is exact.

use vstd::prelude::*;
use vstd::string::*;

verus! {

/// The scale factor between real values and the stored integers: the
/// representation keeps eight decimal places.
pub const FIXED_MULTIPLIER: u64 = 100_000_000;

/// One side of the book.
#[derive(Debug, Clone, Copy, PartialEq, Eq, Structural)]
pub enum Side {
    Ask,
    Bid,
}

/// An order identifier, unique within the venue.
#[derive(Debug, Clone, Copy, PartialEq, Eq, Structural)]
pub struct Oid(pub u64);

/// A fixed-point price: the real price multiplied by `10^8`.
#[derive(Debug, Clone, Copy, PartialEq, Eq, Structural)]
pub struct Px(pub u64);

/// A fixed-point size: the real size multiplied by `10^8`.
#[derive(Debug, Clone, Copy, PartialEq, Eq, Structural)]
pub struct Sz(pub u64);

impl Oid {
    pub fn new(value: u64) -> (r: Self)
        ensures
            r.0 == value,
    {
        Oid(value)
    }

    pub fn value(self) -> (r: u64)
        ensures
            r == self.0,
    {
        self.0
    }
}

impl Px {
    pub fn new(value: u64) -> (r: Self)
        ensures
            r.0 == value,
    {
        Px(value)
    }

    pub fn value(self) -> (r: u64)
        ensures
            r == self.0,
    {
        self.0
    }
}

impl Sz {
    pub fn new(value: u64) -> (r: Self)
        ensures
            r.0 == value,
    {
        Sz(value)
    }

    pub fn is_positive(self) -> (r: bool)
        ensures
            r == (self.0 > 0),
    {
        self.0 > 0
    }

    pub fn is_zero(self) -> (r: bool)
        ensures
            r == (self.0 == 0),
    {
        self.0 == 0
    }

    pub fn value(self) -> (r: u64)
        ensures
            r == self.0,
    {
        self.0
    }

    /// Saturating decrement: the size never goes below zero.
    pub fn decrement_sz(&mut self, dec: u64)
        ensures
            final(self).0 == if old(self).0 >= dec {
                (old(self).0 - dec) as u64
            } else {
                0u64
            },
    {
        if self.0 >= dec {
            self.0 = self.0 - dec;
        } else {
            self.0 = 0;
        }
    }

    /// Checked addition of two sizes; `None` when the sum does not fit.
    pub fn checked_add_sz(self, rhs: Sz) -> (r: Option<Sz>)
        ensures
            self.0 + rhs.0 <= u64::MAX ==> r == Some(Sz((self.0 + rhs.0) as u64)),
            self.0 + rhs.0 > u64::MAX ==> r is None,
    {
        match self.0.checked_add(rhs.0) {
            Some(v) => Some(Sz(v)),
            None => None,
        }
    }
}

/// A coin identifier: an interned symbol string.
#[derive(Debug, Clone)]
pub struct Coin(pub String);

impl View for Coin {
    type V = Seq<char>;

    open spec fn view(&self) -> Seq<char> {
        self.0@
    }
}

/// Whether a coin symbol denotes a spot market: it begins with `'@'` or is
/// exactly `"PURR/USDC"`.
pub open spec fn spec_is_spot(coin: Seq<char>) -> bool {
    (coin.len() > 0 && coin[0] == '@') || coin == "PURR/USDC"@
}

impl Coin {
    pub fn new(coin: &str) -> (r: Self)
        ensures
            r@ == coin@,
    {
        Coin(coin.to_owned())
    }

    pub fn value(&self) -> (r: String)
        ensures
            r@ == self@,
    {
        self.0.clone()
    }

    /// An owned copy of this coin, equal to the original.
    pub fn dup(&self) -> (r: Coin)
        ensures
            r == *self,
            r@ == self@,
    {
        Coin(self.0.clone())
    }

    /// Exact equality of two coin symbols.
    pub fn eq_coin(&self, other: &Coin) -> (r: bool)
        ensures
            r == (self@ == other@),
    {
        self.0 == other.0
    }

    pub fn is_spot(&self) -> (r: bool)
        ensures
            r == spec_is_spot(self@),
    {
        let s: &str = self.0.as_str();
        if s.unicode_len() > 0 && s.get_char(0) == '@' {
            true
        } else {
            let spot: String = "PURR/USDC".to_owned();
            self.0 == spot
        }
    }
}


/// Whether `c` is a decimal digit.
pub open spec fn is_digit(c: char) -> bool {
    48 <= c as u32 <= 57
}

/// The numeric value of a digit character.
pub open spec fn digit_val(c: char) -> int {
    c as u32 - 48
}

/// Whether every character of the sequence is a decimal digit.
pub open spec fn all_digits(s: Seq<char>) -> bool {
    forall|i: int| 0 <= i < s.len() ==> is_digit(s[i])
}

/// The integer denoted by a sequence of decimal digits (0 when empty).
pub open spec fn dec_val(s: Seq<char>) -> int
    decreases s.len(),
{
    if s.len() == 0 {
        0
    } else {
        dec_val(s.drop_last()) * 10 + digit_val(s.last())
    }
}

/// `10^n`.
pub open spec fn pow10(n: nat) -> int
    decreases n,
{
    if n == 0 {
        1
    } else {
        10 * pow10((n - 1) as nat)
    }
}

/// Index of the first `'.'`, or `s.len()` when there is none.
pub open spec fn first_dot(s: Seq<char>) -> int
    decreases s.len(),
{
    if s.len() == 0 {
        0
    } else if s[0] == '.' {
        0
    } else {
        1 + first_dot(s.skip(1))
    }
}

/// Whether the string is a plain decimal number: a nonempty run of digits,
/// optionally followed by `'.'` and a nonempty run of digits.
pub open spec fn valid_decimal(s: Seq<char>) -> bool {
    let d = first_dot(s);
    if d == s.len() {
        s.len() > 0 && all_digits(s)
    } else {
        0 < d && d < s.len() - 1 && all_digits(s.take(d)) && all_digits(s.skip(d + 1))
    }
}

/// The fractional digits scaled to `10^-8` units, rounding half-up on the
/// ninth digit.
pub open spec fn frac_units(f: Seq<char>) -> int {
    if f.len() <= 8 {
        dec_val(f) * pow10((8 - f.len()) as nat)
    } else {
        dec_val(f.take(8)) + if digit_val(f[8]) >= 5 {
            1int
        } else {
            0int
        }
    }
}

/// The fixed-point value (real value times `10^8`) denoted by a valid
/// decimal string.
pub open spec fn fixed_val(s: Seq<char>) -> int {
    let d = first_dot(s);
    if d == s.len() {
        dec_val(s) * 100_000_000
    } else {
        dec_val(s.take(d)) * 100_000_000 + frac_units(s.skip(d + 1))
    }
}

/// Digit sequences denote nonnegative values, and extending one to the
/// right never decreases its value.
pub proof fn lemma_dec_val_bounds(s: Seq<char>)
    requires
        all_digits(s),
    ensures
        dec_val(s) >= 0,
        forall|k: int| 0 <= k <= s.len() ==> dec_val(s.take(k)) <= dec_val(s),
    decreases s.len(),
{
    if s.len() == 0 {
        assert forall|k: int| 0 <= k <= s.len() implies dec_val(s.take(k)) <= dec_val(s) by {
            assert(s.take(k) =~= s);
        }
    } else {
        assert(all_digits(s.drop_last()));
        lemma_dec_val_bounds(s.drop_last());
        assert(is_digit(s.last()));
        assert(dec_val(s) >= dec_val(s.drop_last()));
        assert forall|k: int| 0 <= k <= s.len() implies dec_val(s.take(k)) <= dec_val(s) by {
            if k == s.len() {
                assert(s.take(k) =~= s);
            } else {
                assert(s.take(k) =~= s.drop_last().take(k));
            }
        }
    }
}

/// Appending a digit multiplies the value by ten and adds the digit.
pub proof fn lemma_dec_val_push(t: Seq<char>, c: char)
    ensures
        dec_val(t.push(c)) == 10 * dec_val(t) + digit_val(c),
{
    assert(t.push(c).drop_last() =~= t);
    assert(t.push(c).last() == c);
}

/// `first_dot` is the first index holding a dot; it equals the length
/// exactly when there is no dot.
pub proof fn lemma_first_dot(s: Seq<char>)
    ensures
        0 <= first_dot(s) <= s.len(),
        first_dot(s) < s.len() ==> s[first_dot(s)] == '.',
        forall|k: int| 0 <= k < first_dot(s) ==> s[k] != '.',
    decreases s.len(),
{
    if s.len() == 0 {
    } else if s[0] == '.' {
    } else {
        lemma_first_dot(s.skip(1));
        assert forall|k: int| 0 <= k < first_dot(s) implies s[k] != '.' by {
            if k > 0 {
                assert(s.skip(1)[k - 1] == s[k]);
            }
        }
        if first_dot(s) < s.len() {
            assert(s.skip(1)[first_dot(s.skip(1))] == s[first_dot(s)]);
        }
    }
}

/// `10^k` for `k <= 8`, as an executable value.
fn pow10_small(k: usize) -> (r: u64)
    requires
        k <= 8,
    ensures
        r as int == pow10(k as nat),
{
    proof {
        reveal_with_fuel(pow10, 10);
    }
    match k {
        0 => 1,
        1 => 10,
        2 => 100,
        3 => 1_000,
        4 => 10_000,
        5 => 100_000,
        6 => 1_000_000,
        7 => 10_000_000,
        _ => 100_000_000,
    }
}

/// The numeric value of a digit character, or `None` for any other
/// character.
fn digit_of(c: char) -> (r: Option<u64>)
    ensures
        is_digit(c) ==> r == Some(digit_val(c) as u64),
        !is_digit(c) ==> r is None,
{
    match c {
        '0' => Some(0),
        '1' => Some(1),
        '2' => Some(2),
        '3' => Some(3),
        '4' => Some(4),
        '5' => Some(5),
        '6' => Some(6),
        '7' => Some(7),
        '8' => Some(8),
        '9' => Some(9),
        _ => None,
    }
}

/// Parses a decimal string into fixed-point `10^-8` units, rounding
/// half-up past the eighth fractional digit. Returns `Ok` exactly when the
/// string is a plain decimal number whose fixed-point value fits in 64
/// bits, and `ParseError` otherwise.
pub fn parse_fixed(s: &str) -> (r: Result<u64, crate::errors::BookError>)
    ensures
        (valid_decimal(s@) && fixed_val(s@) <= u64::MAX) ==> r == Ok::<u64, crate::errors::BookError>((fixed_val(s@)) as u64),
        !(valid_decimal(s@) && fixed_val(s@) <= u64::MAX) ==> r == Err::<u64, crate::errors::BookError>(crate::errors::BookError::ParseError),
{
    proof {
        lemma_first_dot(s@);
    }
    let n = s.unicode_len();
    let ghost fd = first_dot(s@);
    let mut i: usize = 0;
    let mut int_acc: u64 = 0;
    let mut saw_dot: bool = false;
    // integer part
    while i < n && !saw_dot
        invariant
            0 <= i <= n,
            n == s@.len(),
            !saw_dot ==> (i <= fd && forall|k: int| 0 <= k < i ==> is_digit(s@[k])),
            !saw_dot ==> int_acc as int == dec_val(s@.take(i as int)),
            saw_dot ==> (i as int == fd + 1 && fd < n && forall|k: int|
                0 <= k < fd ==> is_digit(s@[k]) && int_acc as int == dec_val(
                    s@.take(fd),
                )),
            fd == first_dot(s@),
        decreases n - i + if saw_dot { 0int } else { 1int },
    {
        proof {
            lemma_first_dot(s@);
        }
        let c = s.get_char(i);
        if c == '.' {
            proof {
                if fd < i as int {
                    assert(s@[fd] == '.');
                }
                assert(fd == i as int);
            }
            saw_dot = true;
            i = i + 1;
        } else {
            match digit_of(c) {
                Some(d) => {
                    proof {
                        if fd == i as int {
                            assert(s@[fd] == '.');
                        }
                        assert(i < fd || fd > i as int || fd >= n);
                    }
                    let acc10 = match int_acc.checked_mul(10) {
                        Some(v) => v,
                        None => {
                            proof {
                                overflow_means_no_fit(s@, i as int);
                            }
                            return Err(crate::errors::BookError::ParseError);
                        },
                    };
                    let acc = match acc10.checked_add(d) {
                        Some(v) => v,
                        None => {
                            proof {
                                overflow_means_no_fit(s@, i as int);
                            }
                            return Err(crate::errors::BookError::ParseError);
                        },
                    };
                    proof {
                        lemma_dec_val_push(s@.take(i as int), s@[i as int]);
                        assert(s@.take(i + 1) =~= s@.take(i as int).push(s@[i as int]));
                    }
                    int_acc = acc;
                    i = i + 1;
                },
                None => {
                    proof {
                        lemma_first_dot(s@);
                        assert(i < fd);
                        if valid_decimal(s@) {
                            if fd == s@.len() {
                                assert(is_digit(s@[i as int]));
                            } else {
                                assert(s@.take(fd)[i as int] == s@[i as int]);
                                assert(is_digit(s@[i as int]));
                            }
                        }
                    }
                    return Err(crate::errors::BookError::ParseError);
                },
            }
        }
    }
    if !saw_dot {
        // no dot: the whole string is the integer part
        if n == 0 {
            return Err(crate::errors::BookError::ParseError);
        }
        proof {
            assert(s@.take(n as int) =~= s@);
        }
        match int_acc.checked_mul(FIXED_MULTIPLIER) {
            Some(v) => {
                return Ok(v);
            },
            None => {
                return Err(crate::errors::BookError::ParseError);
            },
        }
    }
    // fractional part
    if i == 1 {
        // the dot came first: empty integer part
        return Err(crate::errors::BookError::ParseError);
    }
    if i >= n {
        // the dot came last: empty fractional part
        return Err(crate::errors::BookError::ParseError);
    }
    let ghost f = s@.skip(fd + 1);
    let mut frac_acc: u64 = 0;
    let mut round_up: bool = false;
    let start = i;
    while i < n
        invariant
            start <= i <= n,
            n == s@.len(),
            0 < fd < n,
            fd == first_dot(s@),
            start == fd + 1 < n,
            f == s@.skip(fd + 1),
            f.len() == n - start,
            forall|k: int| 0 <= k < i - start ==> is_digit(f[k]),
            i - start <= 8 ==> frac_acc as int == dec_val(f.take(i - start)),
            i - start > 8 ==> frac_acc as int == dec_val(f.take(8)),
            round_up == (i - start > 8 && digit_val(f[8]) >= 5),
            frac_acc < 100_000_000,
        decreases n - i,
    {
        let c = s.get_char(i);
        match digit_of(c) {
            Some(d) => {
                proof {
                    assert(f[i - start] == s@[i as int]);
                }
                if i - start < 8 {
                    proof {
                        lemma_dec_val_push(f.take(i - start), f[i - start]);
                        assert(f.take(i - start + 1) =~= f.take(i - start).push(f[i - start]));
                        dec_val_width_bound(f.take(i - start + 1));
                        lemma_pow10_mono((i - start + 1) as nat, 8);
                        reveal_with_fuel(pow10, 10);
                        assert(dec_val(f.take(i - start + 1)) < 100_000_000);
                    }
                    frac_acc = frac_acc * 10 + d;
                } else if i - start == 8 {
                    if d >= 5 {
                        round_up = true;
                    }
                }
                i = i + 1;
            },
            None => {
                proof {
                    if valid_decimal(s@) {
                        assert(f[i - start] == s@[i as int]);
                        assert(is_digit(f[i - start]));
                    }
                }
                return Err(crate::errors::BookError::ParseError);
            },
        }
    }
    let fcnt = n - start;
    let funits: u64 = if fcnt <= 8 {
        proof {
            assert(f.take(fcnt as int) =~= f);
            dec_val_width_bound(f);
            lemma_pow10_add(fcnt as nat, (8 - fcnt) as nat);
            pow10_pos((8 - fcnt) as nat);
            reveal_with_fuel(pow10, 10);
            assert(dec_val(f) * pow10((8 - fcnt) as nat) < pow10(fcnt as nat) * pow10(
                (8 - fcnt) as nat,
            )) by (nonlinear_arith)
                requires
                    dec_val(f) < pow10(fcnt as nat),
                    pow10((8 - fcnt) as nat) > 0,
            ;
            assert(dec_val(f) * pow10((8 - fcnt) as nat) >= 0) by (nonlinear_arith)
                requires
                    dec_val(f) >= 0,
                    pow10((8 - fcnt) as nat) > 0,
            ;
        }
        frac_acc * pow10_small(8 - fcnt)
    } else {
        if round_up {
            frac_acc + 1
        } else {
            frac_acc
        }
    };
    proof {
        assert(all_digits(f));
        frac_units_nonneg(f);
    }
    let scaled = match int_acc.checked_mul(FIXED_MULTIPLIER) {
        Some(v) => v,
        None => {
            proof {
                if valid_decimal(s@) {
                    assert(fixed_val(s@) == dec_val(s@.take(fd)) * 100_000_000 + frac_units(f));
                }
            }
            return Err(crate::errors::BookError::ParseError);
        },
    };
    match scaled.checked_add(funits) {
        Some(v) => Ok(v),
        None => Err(crate::errors::BookError::ParseError),
    }
}

/// A run of at most eight digits denotes less than `10^8`; in general a
/// digit run is bounded by `10^len`.
pub proof fn dec_val_width_bound(s: Seq<char>)
    requires
        all_digits(s),
    ensures
        dec_val(s) < pow10(s.len()),
        dec_val(s) >= 0,
    decreases s.len(),
{
    if s.len() == 0 {
    } else {
        assert(all_digits(s.drop_last()));
        dec_val_width_bound(s.drop_last());
        assert(is_digit(s.last()));
        assert(digit_val(s.last()) <= 9);
    }
}

/// If accumulating the integer part overflows 64 bits at index `i`, no
/// 64-bit fixed-point value exists for the string.
proof fn overflow_means_no_fit(s: Seq<char>, i: int)
    requires
        0 <= i < s.len(),
        forall|k: int| 0 <= k < i ==> is_digit(s[k]),
        is_digit(s[i]),
        i < first_dot(s),
        dec_val(s.take(i)) * 10 + digit_val(s[i]) > u64::MAX,
    ensures
        !(valid_decimal(s) && fixed_val(s) <= u64::MAX),
{
    if valid_decimal(s) && fixed_val(s) <= u64::MAX {
        lemma_first_dot(s);
        let d = first_dot(s);
        lemma_dec_val_push(s.take(i), s[i]);
        assert(s.take(i + 1) =~= s.take(i).push(s[i]));
        assert(dec_val(s.take(i + 1)) > u64::MAX);
        if d == s.len() {
            lemma_dec_val_bounds(s);
            assert(s.take(s.len() as int) =~= s);
            assert(dec_val(s) >= dec_val(s.take(i + 1)));
            assert(dec_val(s) * 100_000_000 >= dec_val(s)) by {
                lemma_dec_val_bounds(s);
                assert(dec_val(s) >= 0);
                assert(dec_val(s) * 100_000_000 >= dec_val(s) * 1) by (nonlinear_arith)
                    requires dec_val(s) >= 0;
            }
        } else {
            let ip = s.take(d);
            lemma_dec_val_bounds(ip);
            assert(ip.take(i + 1) =~= s.take(i + 1));
            assert(dec_val(ip) >= dec_val(ip.take(i + 1)));
            let fr = s.skip(d + 1);
            lemma_dec_val_bounds(fr);
            frac_units_nonneg(fr);
            assert(dec_val(ip) * 100_000_000 >= dec_val(ip)) by {
                assert(dec_val(ip) >= 0);
                assert(dec_val(ip) * 100_000_000 >= dec_val(ip) * 1) by (nonlinear_arith)
                    requires dec_val(ip) >= 0;
            }
        }
    }
}

/// Fractional units are nonnegative for digit runs.
proof fn frac_units_nonneg(f: Seq<char>)
    requires
        all_digits(f),
    ensures
        frac_units(f) >= 0,
{
    if f.len() <= 8 {
        lemma_dec_val_bounds(f);
        pow10_pos(((8 - f.len()) as nat));
        assert(dec_val(f) * pow10((8 - f.len()) as nat) >= 0) by (nonlinear_arith)
            requires dec_val(f) >= 0, pow10((8 - f.len()) as nat) > 0;
    } else {
        assert(all_digits(f.take(8)));
        lemma_dec_val_bounds(f.take(8));
    }
}

/// `10^a <= 10^b` when `a <= b`.
pub proof fn lemma_pow10_mono(a: nat, b: nat)
    requires
        a <= b,
    ensures
        pow10(a) <= pow10(b),
    decreases b,
{
    if a < b {
        lemma_pow10_mono(a, (b - 1) as nat);
        pow10_pos((b - 1) as nat);
    }
}

/// `10^(a+b) == 10^a * 10^b`.
pub proof fn lemma_pow10_add(a: nat, b: nat)
    ensures
        pow10(a + b) == pow10(a) * pow10(b),
    decreases a,
{
    if a == 0 {
    } else {
        lemma_pow10_add((a - 1) as nat, b);
        assert(pow10(a + b) == 10 * (pow10((a - 1) as nat) * pow10(b)));
        assert(10 * (pow10((a - 1) as nat) * pow10(b)) == (10 * pow10((a - 1) as nat)) * pow10(
            b,
        )) by (nonlinear_arith);
    }
}

/// `10^n` is positive.
pub proof fn pow10_pos(n: nat)
    ensures
        pow10(n) > 0,
    decreases n,
{
    if n > 0 {
        pow10_pos((n - 1) as nat);
    }
}


/// Number of decimal digits in `v`, counting 0 as one digit.
pub open spec fn spec_num_digits(v: int) -> int
    decreases v,
{
    if v < 10 {
        1
    } else {
        1 + spec_num_digits(v / 10)
    }
}

/// A value below `10^k` has at most `k` digits.
pub proof fn lemma_num_digits_upper(v: int, k: int)
    requires
        1 <= k,
        0 <= v < pow10(k as nat),
    ensures
        spec_num_digits(v) <= k,
    decreases k,
{
    if v < 10 {
    } else {
        assert(pow10(k as nat) == 10 * pow10((k - 1) as nat));
        assert(v / 10 < pow10((k - 1) as nat));
        assert(k >= 2) by {
            reveal_with_fuel(pow10, 2);
            if k == 1 {
                assert(pow10(1nat) == 10);
            }
        }
        lemma_num_digits_upper(v / 10, k - 1);
    }
}

/// Digit counts are at least one.
pub proof fn lemma_num_digits_pos(v: int)
    ensures
        spec_num_digits(v) >= 1,
    decreases v,
{
    if v >= 10 {
        lemma_num_digits_pos(v / 10);
    }
}

impl Px {
    /// Parses a decimal price string into fixed-point units; `ParseError`
    /// exactly when the string is not a plain decimal number or the value
    /// does not fit.
    pub fn parse_from_str(value: &str) -> (r: Result<Self, crate::errors::BookError>)
        ensures
            (valid_decimal(value@) && fixed_val(value@) <= u64::MAX) ==> r == Ok::<
                Px,
                crate::errors::BookError,
            >(Px(fixed_val(value@) as u64)),
            !(valid_decimal(value@) && fixed_val(value@) <= u64::MAX) ==> r == Err::<
                Px,
                crate::errors::BookError,
            >(crate::errors::BookError::ParseError),
    {
        match parse_fixed(value) {
            Ok(v) => Ok(Px(v)),
            Err(e) => Err(e),
        }
    }

    /// Number of decimal digits of the raw fixed-point value (0 has one).
    pub fn num_digits(self) -> (r: u32)
        ensures
            r as int == spec_num_digits(self.0 as int),
            1 <= r <= 20,
    {
        proof {
            reveal_with_fuel(pow10, 21);
            assert(pow10(20nat) == 100_000_000_000_000_000_000);
            lemma_num_digits_upper(self.0 as int, 20);
            lemma_num_digits_pos(self.0 as int);
        }
        let mut x: u64 = self.0;
        let mut n: u32 = 1;
        while x >= 10
            invariant
                n >= 1,
                spec_num_digits(self.0 as int) == n - 1 + spec_num_digits(x as int),
                spec_num_digits(self.0 as int) <= 20,
                spec_num_digits(x as int) >= 1,
            decreases x,
        {
            proof {
                lemma_num_digits_pos(x as int / 10);
            }
            x = x / 10;
            n = n + 1;
        }
        n
    }
}

impl Sz {
    /// Parses a decimal size string into fixed-point units; `ParseError`
    /// exactly when the string is not a plain decimal number or the value
    /// does not fit.
    pub fn parse_from_str(value: &str) -> (r: Result<Self, crate::errors::BookError>)
        ensures
            (valid_decimal(value@) && fixed_val(value@) <= u64::MAX) ==> r == Ok::<
                Sz,
                crate::errors::BookError,
            >(Sz(fixed_val(value@) as u64)),
            !(valid_decimal(value@) && fixed_val(value@) <= u64::MAX) ==> r == Err::<
                Sz,
                crate::errors::BookError,
            >(crate::errors::BookError::ParseError),
    {
        match parse_fixed(value) {
            Ok(v) => Ok(Sz(v)),
            Err(e) => Err(e),
        }
    }
}


/// The character for one decimal digit.
pub open spec fn digit_char(d: int) -> char {
    if d == 0 {
        '0'
    } else if d == 1 {
        '1'
    } else if d == 2 {
        '2'
    } else if d == 3 {
        '3'
    } else if d == 4 {
        '4'
    } else if d == 5 {
        '5'
    } else if d == 6 {
        '6'
    } else if d == 7 {
        '7'
    } else if d == 8 {
        '8'
    } else {
        '9'
    }
}

/// The shortest decimal rendering of a nonnegative integer (0 renders as
/// one digit).
pub open spec fn min_digits(n: int) -> Seq<char>
    decreases n,
{
    if n < 10 {
        seq![digit_char(n)]
    } else {
        min_digits(n / 10).push(digit_char(n % 10))
    }
}

/// A fixed-width decimal rendering of the low `w` digits of `n`.
pub open spec fn digits_w(n: int, w: nat) -> Seq<char>
    decreases w,
{
    if w == 0 {
        Seq::empty()
    } else {
        digits_w(n / 10, (w - 1) as nat).push(digit_char(n % 10))
    }
}

/// Strips factors of ten: the value and width left once trailing zero
/// digits are removed.
pub open spec fn strip10(n: int, w: nat) -> (int, nat)
    decreases w,
{
    if w == 0 || n % 10 != 0 {
        (n, w)
    } else {
        strip10(n / 10, (w - 1) as nat)
    }
}

/// The canonical decimal rendering of a fixed-point value: the integer
/// part in shortest form, then, when the fractional part is not zero, a
/// dot and the fractional digits with trailing zeros removed.
pub open spec fn render_fixed(v: int) -> Seq<char> {
    let q = v / 100_000_000;
    let r = v % 100_000_000;
    if r == 0 {
        min_digits(q)
    } else {
        min_digits(q) + seq!['.'] + digits_w(strip10(r, 8).0, strip10(r, 8).1)
    }
}

/// A one-character string for one decimal digit.
fn digit_str(d: u64) -> (r: &'static str)
    requires
        d <= 9,
    ensures
        r@ == seq![digit_char(d as int)],
{
    proof {
        reveal_strlit("0");
        reveal_strlit("1");
        reveal_strlit("2");
        reveal_strlit("3");
        reveal_strlit("4");
        reveal_strlit("5");
        reveal_strlit("6");
        reveal_strlit("7");
        reveal_strlit("8");
        reveal_strlit("9");
    }
    let r = match d {
        0 => "0",
        1 => "1",
        2 => "2",
        3 => "3",
        4 => "4",
        5 => "5",
        6 => "6",
        7 => "7",
        8 => "8",
        _ => "9",
    };
    proof {
        assert(r@ =~= seq![digit_char(d as int)]);
    }
    r
}

/// Appends the shortest decimal form of `n`.
fn append_min_digits(s: &mut String, n: u64)
    ensures
        final(s)@ == old(s)@ + min_digits(n as int),
    decreases n,
{
    if n < 10 {
        s.append(digit_str(n));
        proof {
            assert(final(s)@ =~= old(s)@ + min_digits(n as int));
        }
    } else {
        append_min_digits(s, n / 10);
        s.append(digit_str(n % 10));
        proof {
            assert(final(s)@ =~= old(s)@ + min_digits(n as int));
        }
    }
}

/// Appends the low `w` digits of `n`, zero-padded to width `w`.
fn append_digits_w(s: &mut String, n: u64, w: usize)
    ensures
        final(s)@ == old(s)@ + digits_w(n as int, w as nat),
    decreases w,
{
    if w == 0 {
        proof {
            assert(final(s)@ =~= old(s)@ + digits_w(n as int, 0nat));
        }
    } else {
        append_digits_w(s, n / 10, w - 1);
        s.append(digit_str(n % 10));
        proof {
            assert(final(s)@ =~= old(s)@ + digits_w(n as int, w as nat));
        }
    }
}

/// Renders a fixed-point value to its canonical decimal string: shortest
/// integer part, and a fractional part only when it is nonzero, with no
/// trailing zeros.
pub fn render_fixed_str(v: u64) -> (r: String)
    ensures
        r@ == render_fixed(v as int),
{
    let q = v / FIXED_MULTIPLIER;
    let r = v % FIXED_MULTIPLIER;
    let mut out = String::new();
    append_min_digits(&mut out, q);
    if r == 0 {
        proof {
            assert(out@ =~= render_fixed(v as int));
        }
        return out;
    }
    proof {
        reveal_strlit(".");
    }
    out.append(".");
    let ghost mid = out@;
    let mut n = r;
    let mut w: usize = 8;
    while n % 10 == 0 && w > 0
        invariant
            n > 0,
            strip10(r as int, 8nat) == strip10(n as int, w as nat),
        decreases w,
    {
        n = n / 10;
        w = w - 1;
    }
    append_digits_w(&mut out, n, w);
    proof {
        assert(mid =~= Seq::empty() + min_digits(q as int) + seq!['.']);
        assert(out@ =~= render_fixed(v as int));
    }
    out
}

impl Px {
    /// The canonical decimal rendering of this price: no trailing zeros,
    /// and no fractional part when it is zero.
    pub fn to_str(self) -> (r: String)
        ensures
            r@ == render_fixed(self.0 as int),
    {
        render_fixed_str(self.0)
    }
}

impl Sz {
    /// The canonical decimal rendering of this size: no trailing zeros,
    /// and no fractional part when it is zero.
    pub fn to_str(self) -> (r: String)
        ensures
            r@ == render_fixed(self.0 as int),
    {
        render_fixed_str(self.0)
    }
}

} // verus!
