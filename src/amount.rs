use vstd::prelude::*;
use vstd::std_specs::ops::{AddSpec, SubSpec};

verus! {

/// Number of decimal digits kept after the point.
pub const DECIMAL_PLACES: usize = 4;

/// The scaled value of one whole unit: ten to the power `DECIMAL_PLACES`.
pub const AMOUNT_ONE: i64 = 10000;

/// Whole units of a scaled value, rounded toward zero.
pub open spec fn trunc_of(v: int) -> int {
    if v >= 0 {
        v / 10000
    } else {
        -((-v) / 10000)
    }
}

/// What is left of a scaled value once its whole units are taken out; it has
/// the sign of the value.
pub open spec fn fract_of(v: int) -> int {
    v - trunc_of(v) * 10000
}

/// An exact signed amount with four decimal places, stored as its value times
/// ten thousand. Amounts are ordered by that value.
#[derive(Clone, Copy, Debug, PartialEq, Eq, Structural, PartialOrd, Ord)]
pub struct Amount {
    pub value: i64,
}

impl Amount {
    /// Wraps a scaled value (units times ten thousand).
    pub fn new(value: i64) -> (r: Amount)
        ensures
            r.value == value,
    {
        Amount { value }
    }

    /// Whole units, rounded toward zero.
    pub fn trunc(&self) -> (r: i64)
        ensures
            r == trunc_of(self.value as int),
    {
        self.trunc_fract().0
    }

    /// The part below one unit, with the sign of the amount.
    pub fn fract(&self) -> (r: i64)
        ensures
            r == fract_of(self.value as int),
    {
        self.trunc_fract().1
    }

    fn trunc_fract(&self) -> (r: (i64, i64))
        ensures
            r.0 == trunc_of(self.value as int),
            r.1 == fract_of(self.value as int),
            -AMOUNT_ONE < r.1 < AMOUNT_ONE,
    {
        let trunc = self.value / AMOUNT_ONE;
        let fract = self.value - trunc * AMOUNT_ONE;
        (trunc, fract)
    }
}


impl core::ops::Add for Amount {
    type Output = Amount;

    fn add(self, other: Amount) -> (r: Amount) {
        Amount { value: self.value + other.value }
    }
}

impl vstd::std_specs::ops::AddSpecImpl for Amount {
    open spec fn obeys_add_spec() -> bool {
        true
    }

    open spec fn add_req(self, other: Amount) -> bool {
        i64::MIN <= self.value + other.value <= i64::MAX
    }

    open spec fn add_spec(self, other: Amount) -> Amount {
        Amount { value: (self.value + other.value) as i64 }
    }
}

impl core::ops::Sub for Amount {
    type Output = Amount;

    fn sub(self, other: Amount) -> (r: Amount) {
        Amount { value: self.value - other.value }
    }
}

impl vstd::std_specs::ops::SubSpecImpl for Amount {
    open spec fn obeys_sub_spec() -> bool {
        true
    }

    open spec fn sub_req(self, other: Amount) -> bool {
        i64::MIN <= self.value - other.value <= i64::MAX
    }

    open spec fn sub_spec(self, other: Amount) -> Amount {
        Amount { value: (self.value - other.value) as i64 }
    }
}

/// Ten to the power `n`.
pub open spec fn pow10(n: nat) -> int
    decreases n,
{
    if n == 0 {
        1
    } else {
        10 * pow10((n - 1) as nat)
    }
}

/// The character of a decimal digit.
pub open spec fn digit_char(d: int) -> char {
    (d + 48) as char
}

/// The decimal digits of `n`, most significant first, without leading zeros
/// (`"0"` for zero).
pub open spec fn decimal(n: nat) -> Seq<char>
    decreases n,
{
    if n < 10 {
        seq![digit_char(n as int)]
    } else {
        decimal(n / 10).push(digit_char((n % 10) as int))
    }
}

/// `s` with every trailing `'0'` removed.
pub open spec fn strip_zeros(s: Seq<char>) -> Seq<char>
    decreases s.len(),
{
    if s.len() > 0 && s.last() == '0' {
        strip_zeros(s.drop_last())
    } else {
        s
    }
}

/// The four digits of a fraction below ten thousand, zero-padded on the left.
pub open spec fn four_digits(f: int) -> Seq<char> {
    seq![
        digit_char(f / 1000),
        digit_char(f / 100 % 10),
        digit_char(f / 10 % 10),
        digit_char(f % 10),
    ]
}

/// Canonical text of a scaled value: a `-` for a negative value, the whole
/// units, then, unless it is zero, a `.` and the fraction's four digits with
/// trailing zeros removed.
#[verifier::opaque]
pub open spec fn amount_text(v: int) -> Seq<char> {
    let m = if v < 0 { -v } else { v };
    let sign = if v < 0 { seq!['-'] } else { Seq::<char>::empty() };
    let whole = sign + decimal((m / 10000) as nat);
    if m % 10000 == 0 {
        whole
    } else {
        whole + seq!['.'] + strip_zeros(four_digits(m % 10000))
    }
}

proof fn lemma_pow10_monotone(a: nat, b: nat)
    requires
        a <= b,
    ensures
        1 <= pow10(a) <= pow10(b),
    decreases b,
{
    if b > a {
        lemma_pow10_monotone(a, (b - 1) as nat);
    } else if a > 0 {
        lemma_pow10_monotone((a - 1) as nat, (a - 1) as nat);
    }
}

/// Splits a positive value into the number of trailing decimal zeros and
/// what is left once they are removed; other values come back unchanged with
/// a count of zero.
pub fn count_remove_trailing_zeroes(value: i64) -> (r: (usize, i64))
    ensures
        value <= 0 ==> r == (0usize, value),
        value > 0 ==> r.1 > 0 && r.1 % 10 != 0 && value == r.1 * pow10(r.0 as nat),
{
    let mut v: i64 = value;
    let mut count: usize = 0;
    if v > 0 {
        while v % 10 == 0
            invariant
                0 < v <= value,
                value == v * pow10(count as nat),
                count <= 19,
            decreases v,
        {
            let ghost c = count as nat;
            proof {
                lemma_pow10_monotone(c + 1, c + 1);
                assert(value == (v / 10) * pow10(c + 1)) by (nonlinear_arith)
                    requires
                        value == v * pow10(c),
                        v % 10 == 0,
                        pow10(c + 1) == 10 * pow10(c),
                ;
                if c + 1 > 19 {
                    lemma_pow10_monotone(20, c + 1);
                    reveal_with_fuel(pow10, 21);
                    assert(pow10(20) == 100000000000000000000);
                    assert(v / 10 >= 1);
                    assert((v / 10) * pow10(c + 1) >= pow10(c + 1)) by (nonlinear_arith)
                        requires
                            v / 10 >= 1,
                            pow10(c + 1) >= 1,
                    ;
                }
            }
            v = v / 10;
            count = count + 1;
        }
    }
    (count, v)
}

/// Relies on `String::push`: appends one character.
#[verifier::external_body]
pub(crate) fn push_char(s: &mut String, c: char)
    ensures
        final(s)@ == old(s)@.push(c),
{
    s.push(c);
}

fn digit(d: u8) -> (c: char)
    requires
        d < 10,
    ensures
        c == digit_char(d as int),
{
    (d + 48) as char
}

pub(crate) fn push_decimal(out: &mut String, n: u128)
    ensures
        final(out)@ == old(out)@ + decimal(n as nat),
    decreases n,
{
    if n >= 10 {
        push_decimal(out, n / 10);
    }
    push_char(out, digit((n % 10) as u8));
    assert(final(out)@ =~= old(out)@ + decimal(n as nat));
}

proof fn lemma_digit_zero(d: int)
    requires
        0 <= d < 10,
    ensures
        (digit_char(d) == '0') == (d == 0),
{
}

/// A fraction written with its trailing zeros counted off keeps exactly the
/// digits before those zeros.
proof fn lemma_strip_fraction(f: int, count: nat, rest: int)
    requires
        0 < f < 10000,
        rest > 0,
        rest % 10 != 0,
        f == rest * pow10(count),
    ensures
        count <= 3,
        strip_zeros(four_digits(f)) == four_digits(f).take(4 - count),
{
    let fd = four_digits(f);
    if count >= 4 {
        lemma_pow10_monotone(4, count);
        reveal_with_fuel(pow10, 5);
        assert(rest * pow10(count) >= pow10(count)) by (nonlinear_arith)
            requires
                rest >= 1,
                pow10(count) >= 1,
        ;
        assert(false);
    }
    reveal_with_fuel(pow10, 4);
    lemma_digit_zero(f / 1000);
    lemma_digit_zero(f / 100 % 10);
    lemma_digit_zero(f / 10 % 10);
    lemma_digit_zero(f % 10);
    if count == 0 {
        assert(f % 10 != 0);
        assert(fd.take(4) =~= fd);
    } else if count == 1 {
        assert(f % 10 == 0 && f / 10 % 10 == rest % 10) by (nonlinear_arith)
            requires
                f == rest * 10,
        ;
        assert(fd.drop_last() =~= fd.take(3));
        assert(strip_zeros(fd) == strip_zeros(fd.take(3)));
    } else if count == 2 {
        assert(f % 10 == 0 && f / 10 % 10 == 0 && f / 100 % 10 == rest % 10) by (nonlinear_arith)
            requires
                f == rest * 100,
        ;
        assert(fd.drop_last() =~= fd.take(3));
        assert(fd.take(3).drop_last() =~= fd.take(2));
        assert(strip_zeros(fd) == strip_zeros(fd.take(3)));
        assert(strip_zeros(fd.take(3)) == strip_zeros(fd.take(2)));
    } else {
        assert(f % 10 == 0 && f / 10 % 10 == 0 && f / 100 % 10 == 0 && f / 1000 == rest % 10)
            by (nonlinear_arith)
            requires
                f == rest * 1000,
                f < 10000,
                rest > 0,
        ;
        assert(fd.drop_last() =~= fd.take(3));
        assert(fd.take(3).drop_last() =~= fd.take(2));
        assert(fd.take(2).drop_last() =~= fd.take(1));
        assert(strip_zeros(fd) == strip_zeros(fd.take(3)));
        assert(strip_zeros(fd.take(3)) == strip_zeros(fd.take(2)));
        assert(strip_zeros(fd.take(2)) == strip_zeros(fd.take(1)));
    }
}

/// Appends the first `width` of the four digits of `f`.
fn push_fraction_digits(out: &mut String, f: u128, width: usize)
    requires
        f < 10000,
        width <= 4,
    ensures
        final(out)@ == old(out)@ + four_digits(f as int).take(width as int),
{
    let ghost fd = four_digits(f as int);
    let digits: [u8; 4] = [
        (f / 1000) as u8,
        (f / 100 % 10) as u8,
        (f / 10 % 10) as u8,
        (f % 10) as u8,
    ];
    let mut i: usize = 0;
    while i < width
        invariant
            i <= width <= 4,
            f < 10000,
            fd == four_digits(f as int),
            digits@ == seq![
                (f / 1000) as u8,
                (f / 100 % 10) as u8,
                (f / 10 % 10) as u8,
                (f % 10) as u8,
            ],
            out@ == old(out)@ + fd.take(i as int),
        decreases width - i,
    {
        let d = digits[i];
        push_char(out, digit(d));
        i = i + 1;
        assert(out@ =~= old(out)@ + fd.take(i as int));
    }
}

/// Canonical text of a scaled value (see `amount_text`).
pub fn scaled_text(v: i128) -> (r: String)
    requires
        -0x1_0000_0000_0000_0000_0000 < v < 0x1_0000_0000_0000_0000_0000,
    ensures
        r@ == amount_text(v as int),
{
    let neg = v < 0;
    let m: u128 = if neg { (-v) as u128 } else { v as u128 };
    let mut out = String::new();
    if neg {
        push_char(&mut out, '-');
    }
    push_decimal(&mut out, m / 10000);
    let f = m % 10000;
    if f != 0 {
        push_char(&mut out, '.');
        let (count, rest) = count_remove_trailing_zeroes(f as i64);
        proof {
            lemma_strip_fraction(f as int, count as nat, rest as int);
        }
        push_fraction_digits(&mut out, f, DECIMAL_PLACES - count);
    }
    reveal(amount_text);
    assert(out@ =~= amount_text(v as int));
    out
}

impl Amount {
    /// Canonical text of the amount (see `amount_text`): `1.01` for the
    /// scaled value 10100, `-1` for -10000.
    pub fn to_string(&self) -> (r: String)
        ensures
            r@ == amount_text(self.value as int),
    {
        scaled_text(self.value as i128)
    }
}

/// Whether `c` is one of `0` to `9`.
pub open spec fn is_digit(c: char) -> bool {
    '0' <= c <= '9'
}

/// The value of a digit character.
pub open spec fn digit_value(c: char) -> int {
    c as int - 48
}

/// The value of a run of decimal digits, most significant first (zero when
/// empty).
pub open spec fn digits_value(ds: Seq<char>) -> int
    decreases ds.len(),
{
    if ds.len() == 0 {
        0
    } else {
        digits_value(ds.drop_last()) * 10 + digit_value(ds.last())
    }
}

/// Whether every character of `ds` is a digit.
pub open spec fn all_digits(ds: Seq<char>) -> bool {
    forall|i: int| 0 <= i < ds.len() ==> is_digit(#[trigger] ds[i])
}

/// The scaled value of a fraction's digits: the first four count, the rest
/// are cut off.
pub open spec fn fraction_value(fs: Seq<char>) -> int {
    let k = if fs.len() < 4 { fs.len() } else { 4 };
    digits_value(fs.take(k as int)) * pow10((4 - k) as nat)
}

/// Length of a leading `-` or `+`.
pub open spec fn sign_len(s: Seq<char>) -> int {
    if s.len() > 0 && (s[0] == '-' || s[0] == '+') {
        1
    } else {
        0
    }
}

/// The index at which the run of digits that starts at `i` ends.
pub open spec fn digits_end(s: Seq<char>, i: int) -> int
    decreases s.len() - i,
{
    if i < 0 || i >= s.len() || !is_digit(s[i]) {
        i
    } else {
        digits_end(s, i + 1)
    }
}

/// The index at which the whole units of a decimal text end.
pub open spec fn integer_end(s: Seq<char>) -> int {
    digits_end(s, sign_len(s))
}

/// Whether `s` is a decimal text: an optional sign, one or more digits, and
/// optionally a `.` followed by digits.
pub open spec fn is_decimal_text(s: Seq<char>) -> bool {
    let e = integer_end(s);
    &&& e > sign_len(s)
    &&& e == s.len() || (s[e] == '.' && all_digits(s.subrange(e + 1, s.len() as int)))
}

/// The digits after the point of a decimal text (empty when it has no point).
pub open spec fn fraction_part(s: Seq<char>) -> Seq<char> {
    if integer_end(s) < s.len() {
        s.subrange(integer_end(s) + 1, s.len() as int)
    } else {
        Seq::empty()
    }
}

/// The scaled value that a decimal text stands for.
pub open spec fn decimal_value(s: Seq<char>) -> int {
    let m = digits_value(s.subrange(sign_len(s), integer_end(s))) * 10000 + fraction_value(
        fraction_part(s),
    );
    if sign_len(s) == 1 && s[0] == '-' {
        -m
    } else {
        m
    }
}

/// What reading `s` as an amount gives.
pub open spec fn amount_from_text(s: Seq<char>) -> Result<Amount, ParseAmountError> {
    if !is_decimal_text(s) {
        Err(ParseAmountError::Malformed)
    } else if !(i64::MIN <= decimal_value(s) <= i64::MAX) {
        Err(ParseAmountError::OutOfRange)
    } else {
        Ok(Amount { value: decimal_value(s) as i64 })
    }
}

/// Why a text is not an amount.
#[derive(Clone, Copy, Debug, PartialEq, Eq, Structural)]
pub enum ParseAmountError {
    /// The text is not a decimal text (see `is_decimal_text`).
    Malformed,
    /// The value does not fit an `Amount`.
    OutOfRange,
}

proof fn lemma_digits_value_bound(ds: Seq<char>)
    requires
        all_digits(ds),
    ensures
        0 <= digits_value(ds) < pow10(ds.len()),
    decreases ds.len(),
{
    if ds.len() > 0 {
        assert(is_digit(ds[ds.len() - 1]));
        lemma_digits_value_bound(ds.drop_last());
    }
}

/// The largest whole-unit count that `parse` tracks exactly; any larger one
/// is out of range anyway.
const WHOLE_CAP: u64 = 10_000_000_000_000_000;

/// Value of a run of digits, capped at `WHOLE_CAP`.
fn parse_whole_str(s: &str) -> (r: u64)
    requires
        all_digits(s@),
    ensures
        r == if digits_value(s@) < WHOLE_CAP { digits_value(s@) } else { WHOLE_CAP as int },
{
    let n = s.unicode_len();
    let mut acc: u64 = 0;
    let mut i: usize = 0;
    while i < n
        invariant
            n == s@.len(),
            i <= n,
            all_digits(s@),
            acc == if digits_value(s@.take(i as int)) < WHOLE_CAP {
                digits_value(s@.take(i as int))
            } else {
                WHOLE_CAP as int
            },
        decreases n - i,
    {
        let c = s.get_char(i);
        assert(is_digit(s@[i as int]));
        let d = (c as u32 - 48) as u64;
        assert(s@.take(i + 1).drop_last() =~= s@.take(i as int));
        proof {
            lemma_digits_value_bound(s@.take(i as int));
        }
        if acc >= WHOLE_CAP {
            acc = WHOLE_CAP;
        } else {
            acc = acc * 10 + d;
            if acc > WHOLE_CAP {
                acc = WHOLE_CAP;
            }
        }
        i = i + 1;
    }
    assert(s@.take(n as int) =~= s@);
    acc
}

/// Scaled value of the digits after a point: the first four count, the rest
/// are cut off. `None` when a character is not a digit.
fn parse_fractional_str(s: &str) -> (r: Option<i64>)
    ensures
        r is Some <==> all_digits(s@),
        r matches Some(f) ==> f == fraction_value(s@) && 0 <= f < 10000,
{
    let n = s.unicode_len();
    let mut f: i64 = 0;
    let mut k: usize = 0;
    let mut i: usize = 0;
    while i < n
        invariant
            n == s@.len(),
            i <= n,
            k == if i < 4 { i } else { 4 },
            forall|j: int| 0 <= j < i ==> is_digit(#[trigger] s@[j]),
            f == digits_value(s@.take(k as int)),
            0 <= f < pow10(k as nat),
        decreases n - i,
    {
        let c = s.get_char(i);
        if !('0' <= c && c <= '9') {
            return None;
        }
        if k < 4 {
            reveal_with_fuel(pow10, 5);
            assert(s@.take(k + 1).drop_last() =~= s@.take(k as int));
            f = f * 10 + (c as u32 - 48) as i64;
            k = k + 1;
        }
        i = i + 1;
    }
    let ghost k0 = k;
    let ghost v = f;
    assert(f == v * pow10(0));
    while k < 4
        invariant
            k0 <= k <= 4,
            f == v * pow10((k - k0) as nat),
            0 <= f < pow10(k as nat),
        decreases 4 - k,
    {
        reveal_with_fuel(pow10, 5);
        assert(v * pow10((k + 1 - k0) as nat) == v * pow10((k - k0) as nat) * 10) by (nonlinear_arith)
            requires
                pow10((k + 1 - k0) as nat) == 10 * pow10((k - k0) as nat),
        ;
        f = f * 10;
        k = k + 1;
    }
    reveal_with_fuel(pow10, 5);
    Some(f)
}

impl Amount {
    /// Reads a decimal text (see `is_decimal_text`): `"1.5"` gives the scaled
    /// value 15000, `"-2"` gives -20000; digits past the fourth after the
    /// point are cut off.
    pub fn parse(s: &str) -> (r: Result<Amount, ParseAmountError>)
        ensures
            r == amount_from_text(s@),
    {
        let n = s.unicode_len();
        let mut start: usize = 0;
        let mut neg = false;
        if n > 0 {
            let c = s.get_char(0);
            if c == '-' {
                neg = true;
                start = 1;
            } else if c == '+' {
                start = 1;
            }
        }
        let mut end = start;
        while end < n
            invariant
                n == s@.len(),
                start == sign_len(s@),
                start <= end <= n,
                digits_end(s@, start as int) == digits_end(s@, end as int),
                forall|j: int| start <= j < end ==> is_digit(#[trigger] s@[j]),
            ensures
                start <= end <= n,
                digits_end(s@, start as int) == end,
                forall|j: int| start <= j < end ==> is_digit(#[trigger] s@[j]),
            decreases n - end,
        {
            let c = s.get_char(end);
            if !('0' <= c && c <= '9') {
                break;
            }
            end = end + 1;
        }
        assert(integer_end(s@) == end);
        if end == start {
            return Err(ParseAmountError::Malformed);
        }
        let mut frac: i64 = 0;
        if end < n {
            if s.get_char(end) != '.' {
                return Err(ParseAmountError::Malformed);
            }
            match parse_fractional_str(s.substring_char(end + 1, n)) {
                Some(f) => {
                    frac = f;
                },
                None => {
                    return Err(ParseAmountError::Malformed);
                },
            }
        }
        assert(fraction_value(Seq::<char>::empty()) == 0) by {
            assert(Seq::<char>::empty().take(0) =~= Seq::<char>::empty());
        }
        let whole_str = s.substring_char(start, end);
        assert(all_digits(whole_str@));
        let whole = parse_whole_str(whole_str);
        let mag: i128 = whole as i128 * 10000 + frac as i128;
        let v: i128 = if neg {
            -mag
        } else {
            mag
        };
        if v < i64::MIN as i128 || v > i64::MAX as i128 {
            return Err(ParseAmountError::OutOfRange);
        }
        Ok(Amount::new(v as i64))
    }
}

/// Addition is exact, so subtracting what was added gives back the start.
pub proof fn lemma_add_then_subtract(a: Amount, b: Amount)
    requires
        a.add_req(b),
    ensures
        a.add_spec(b).value == a.value + b.value,
        a.add_spec(b).sub_req(b),
        a.add_spec(b).sub_spec(b) == a,
{
}

/// Whether `s` is a decimal text in its plainest spelling: no `+`, no
/// leading zero in the whole units but for a lone `0`, at most four digits
/// after the point, and no `-` before a zero value.
pub open spec fn is_plain_decimal(s: Seq<char>) -> bool {
    let st = sign_len(s);
    let e = integer_end(s);
    &&& is_decimal_text(s)
    &&& st == 1 ==> s[0] == '-'
    &&& s[st] != '0' || e == st + 1
    &&& fraction_part(s).len() <= 4
    &&& st == 1 ==> decimal_value(s) != 0
}

/// `s` with the trailing zeros after its point removed, and the point too
/// when no digit is left after it.
pub open spec fn canonical_decimal(s: Seq<char>) -> Seq<char> {
    let f = strip_zeros(fraction_part(s));
    if f.len() == 0 {
        s.take(integer_end(s))
    } else {
        s.take(integer_end(s)) + seq!['.'] + f
    }
}

proof fn lemma_digits_value_positive(ds: Seq<char>)
    requires
        all_digits(ds),
        ds.len() >= 1,
        ds[0] != '0',
    ensures
        digits_value(ds) >= 1,
    decreases ds.len(),
{
    let dl = ds.drop_last();
    assert(is_digit(ds[ds.len() - 1]));
    if ds.len() > 1 {
        assert(dl[0] == ds[0]);
        assert forall|i: int| 0 <= i < dl.len() implies is_digit(#[trigger] dl[i]) by {
            assert(dl[i] == ds[i]);
        }
        lemma_digits_value_positive(dl);
    } else {
        assert(is_digit(ds[0]));
        assert(ds.last() == ds[0]);
    }
}

/// Digits without a leading zero are the decimal text of their value.
proof fn lemma_decimal_of_digits(ds: Seq<char>)
    requires
        all_digits(ds),
        ds.len() >= 1,
        ds[0] != '0' || ds.len() == 1,
    ensures
        decimal(digits_value(ds) as nat) == ds,
    decreases ds.len(),
{
    let dl = ds.drop_last();
    let c = ds.last();
    assert(is_digit(ds[ds.len() - 1]));
    assert(digits_value(dl) >= 0) by {
        lemma_digits_value_bound(dl);
    }
    if ds.len() == 1 {
        assert(digits_value(dl) == 0);
        assert(seq![c] =~= ds);
    } else {
        assert(dl[0] == ds[0]);
        assert forall|i: int| 0 <= i < dl.len() implies is_digit(#[trigger] dl[i]) by {
            assert(dl[i] == ds[i]);
        }
        lemma_digits_value_positive(dl);
        lemma_decimal_of_digits(dl);
        let n = digits_value(ds);
        assert(n / 10 == digits_value(dl) && n % 10 == digit_value(c));
        assert(dl.push(c) =~= ds);
    }
}

proof fn lemma_strip_appended_zeros(x: Seq<char>, n: nat)
    ensures
        strip_zeros(x + Seq::new(n, |i: int| '0')) == strip_zeros(x),
    decreases n,
{
    if n > 0 {
        let y = x + Seq::new(n, |i: int| '0');
        assert(y.drop_last() =~= x + Seq::new((n - 1) as nat, |i: int| '0'));
        lemma_strip_appended_zeros(x, (n - 1) as nat);
    } else {
        assert(x + Seq::new(0, |i: int| '0') =~= x);
    }
}

proof fn lemma_strip_empty_all_zeros(x: Seq<char>)
    requires
        strip_zeros(x).len() == 0,
    ensures
        forall|i: int| 0 <= i < x.len() ==> x[i] == '0',
    decreases x.len(),
{
    if x.len() > 0 {
        lemma_strip_empty_all_zeros(x.drop_last());
        assert forall|i: int| 0 <= i < x.len() implies x[i] == '0' by {
            if i < x.len() - 1 {
                assert(x.drop_last()[i] == x[i]);
            }
        }
    }
}

/// The four digits of a fraction read from at most four digits are those
/// digits followed by zeros.
proof fn lemma_four_digits_of_fraction(fs: Seq<char>)
    requires
        all_digits(fs),
        fs.len() <= 4,
    ensures
        0 <= fraction_value(fs) < 10000,
        four_digits(fraction_value(fs)) == fs + Seq::new((4 - fs.len()) as nat, |i: int| '0'),
{
    let k = fs.len();
    assert(fs.take(k as int) =~= fs);
    reveal_with_fuel(pow10, 5);
    reveal_with_fuel(digits_value, 5);
    let z = Seq::new((4 - k) as nat, |i: int| '0');
    let f = fraction_value(fs);
    let d0 = if k > 0 { digit_value(fs[0]) } else { 0 };
    let d1 = if k > 1 { digit_value(fs[1]) } else { 0 };
    let d2 = if k > 2 { digit_value(fs[2]) } else { 0 };
    let d3 = if k > 3 { digit_value(fs[3]) } else { 0 };
    if k > 0 {
        assert(is_digit(fs[0]));
    }
    if k > 1 {
        assert(is_digit(fs[1]));
    }
    if k > 2 {
        assert(is_digit(fs[2]));
    }
    if k > 3 {
        assert(is_digit(fs[3]));
    }
    assert(fs.take(0) =~= Seq::<char>::empty());
    assert(digits_value(fs.take(0)) == 0);
    if k >= 1 {
        assert(fs.take(1).drop_last() =~= fs.take(0));
        assert(digits_value(fs.take(1)) == d0);
    }
    if k >= 2 {
        assert(fs.take(2).drop_last() =~= fs.take(1));
        assert(digits_value(fs.take(2)) == d0 * 10 + d1);
    }
    if k >= 3 {
        assert(fs.take(3).drop_last() =~= fs.take(2));
        assert(digits_value(fs.take(3)) == d0 * 100 + d1 * 10 + d2);
    }
    if k >= 4 {
        assert(fs.take(4).drop_last() =~= fs.take(3));
        assert(digits_value(fs.take(4)) == d0 * 1000 + d1 * 100 + d2 * 10 + d3);
    }
    let v = digits_value(fs.take(k as int));
    assert(f == v * pow10((4 - k) as nat));
    if k == 0 {
        assert(v == 0);
        assert(d0 == 0 && d1 == 0 && d2 == 0 && d3 == 0);
        assert(f == 0);
    } else if k == 1 {
        assert(pow10(3) == 1000);
        assert(v == d0 && d1 == 0 && d2 == 0 && d3 == 0);
        assert(f == d0 * 1000 + d1 * 100 + d2 * 10 + d3) by (nonlinear_arith)
            requires
                f == v * 1000,
                v == d0,
                d1 == 0 && d2 == 0 && d3 == 0,
        ;
    } else if k == 2 {
        assert(pow10(2) == 100);
        assert(v == d0 * 10 + d1 && d2 == 0 && d3 == 0);
        assert(f == d0 * 1000 + d1 * 100 + d2 * 10 + d3) by (nonlinear_arith)
            requires
                f == v * 100,
                v == d0 * 10 + d1,
                d2 == 0 && d3 == 0,
        ;
    } else if k == 3 {
        assert(pow10(1) == 10);
        assert(v == d0 * 100 + d1 * 10 + d2 && d3 == 0);
        assert(f == d0 * 1000 + d1 * 100 + d2 * 10 + d3) by (nonlinear_arith)
            requires
                f == v * 10,
                v == d0 * 100 + d1 * 10 + d2,
                d3 == 0,
        ;
    } else {
        assert(pow10(0) == 1);
        assert(f == v);
    }
    assert(f / 1000 == d0 && f / 100 % 10 == d1 && f / 10 % 10 == d2 && f % 10 == d3);
    assert(four_digits(f) =~= fs + z);
}

/// Formatting what `parse` reads from a decimal text in its plainest
/// spelling gives that text back, with the trailing zeros after the point
/// (and a point left bare) removed.
pub proof fn lemma_format_parse_round_trip(s: Seq<char>)
    requires
        is_plain_decimal(s),
        i64::MIN <= decimal_value(s) <= i64::MAX,
    ensures
        amount_from_text(s) is Ok,
        amount_text(amount_from_text(s)->Ok_0.value as int) == canonical_decimal(s),
{
    let st = sign_len(s);
    let e = integer_end(s);
    let ip = s.subrange(st, e);
    let fs = fraction_part(s);
    lemma_digits_end_digits(s, st);
    assert(all_digits(ip));
    assert(ip[0] == s[st]);
    assert(all_digits(fs));
    lemma_four_digits_of_fraction(fs);
    lemma_decimal_of_digits(ip);
    lemma_digits_value_bound(ip);
    let w = digits_value(ip);
    let f = fraction_value(fs);
    let m = w * 10000 + f;
    assert(m / 10000 == w && m % 10000 == f);
    let z = Seq::new((4 - fs.len()) as nat, |i: int| '0');
    lemma_strip_appended_zeros(fs, (4 - fs.len()) as nat);
    assert(strip_zeros(four_digits(f)) == strip_zeros(fs));
    if f == 0 {
        assert(four_digits(0) =~= seq!['0', '0', '0', '0']);
        assert(seq!['0', '0', '0', '0'].drop_last() =~= seq!['0', '0', '0']);
        assert(seq!['0', '0', '0'].drop_last() =~= seq!['0', '0']);
        assert(seq!['0', '0'].drop_last() =~= seq!['0']);
        assert(seq!['0'].drop_last() =~= Seq::<char>::empty());
        reveal_with_fuel(strip_zeros, 5);
        assert(strip_zeros(four_digits(f)).len() == 0);
    } else if strip_zeros(fs).len() == 0 {
        lemma_strip_empty_all_zeros(four_digits(f));
        assert(four_digits(f)[0] == '0' && four_digits(f)[1] == '0');
        assert(four_digits(f)[2] == '0' && four_digits(f)[3] == '0');
        assert(false);
    }
    let sign = if st == 1 { seq!['-'] } else { Seq::<char>::empty() };
    assert(s.take(e) =~= sign + ip);
    reveal(amount_text);
}

proof fn lemma_digits_end_digits(s: Seq<char>, i: int)
    requires
        0 <= i <= s.len(),
    ensures
        i <= digits_end(s, i) <= s.len(),
        all_digits(s.subrange(i, digits_end(s, i))),
        digits_end(s, i) < s.len() ==> !is_digit(s[digits_end(s, i)]),
    decreases s.len() - i,
{
    if i < s.len() && is_digit(s[i]) {
        lemma_digits_end_digits(s, i + 1);
        let e = digits_end(s, i);
        assert forall|j: int| 0 <= j < e - i implies is_digit(#[trigger] s.subrange(i, e)[j]) by {
            if j > 0 {
                assert(s.subrange(i, e)[j] == s.subrange(i + 1, e)[j - 1]);
            }
        }
    }
}

} // verus!
