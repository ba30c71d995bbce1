use vstd::prelude::*;
use vstd::string::StringExecFns;

verus! {

/// The mathematical content of a `Value`: a fraction of unbounded integers.
/// The denominator is positive for every well-formed `Value`.
pub struct Rat {
    pub n: int,
    pub d: int,
}

/// Whether an unbounded integer fits in the machine representation.
pub open spec fn in_i128(x: int) -> bool {
    i128::MIN <= x <= i128::MAX
}

pub open spec fn rat_wf(r: Rat) -> bool {
    r.d > 0
}

/// Two fractions stand for the same number.
pub open spec fn rat_eq(a: Rat, b: Rat) -> bool {
    a.n * b.d == b.n * a.d
}

/// Exact addition; `None` when an intermediate or final part leaves the
/// machine range.
pub open spec fn rat_add(a: Rat, b: Rat) -> Option<Rat> {
    let n1 = a.n * b.d;
    let n2 = b.n * a.d;
    let n = n1 + n2;
    let d = a.d * b.d;
    if in_i128(n1) && in_i128(n2) && in_i128(n) && in_i128(d) {
        Some(Rat { n, d })
    } else {
        None
    }
}

/// Exact subtraction; `None` when out of machine range.
pub open spec fn rat_sub(a: Rat, b: Rat) -> Option<Rat> {
    let n1 = a.n * b.d;
    let n2 = b.n * a.d;
    let n = n1 - n2;
    let d = a.d * b.d;
    if in_i128(n1) && in_i128(n2) && in_i128(n) && in_i128(d) {
        Some(Rat { n, d })
    } else {
        None
    }
}

/// Exact multiplication; `None` when out of machine range.
pub open spec fn rat_mul(a: Rat, b: Rat) -> Option<Rat> {
    let n = a.n * b.n;
    let d = a.d * b.d;
    if in_i128(n) && in_i128(d) {
        Some(Rat { n, d })
    } else {
        None
    }
}

/// Exact division; the divisor must not be zero.  The sign moves to the
/// numerator so that the denominator stays positive.
pub open spec fn rat_div(a: Rat, b: Rat) -> Option<Rat>
    recommends
        b.n != 0,
{
    let n0 = a.n * b.d;
    let d0 = a.d * b.n;
    let n = if b.n < 0 { -n0 } else { n0 };
    let d = if b.n < 0 { -d0 } else { d0 };
    if in_i128(n0) && in_i128(d0) && in_i128(n) && in_i128(d) {
        Some(Rat { n, d })
    } else {
        None
    }
}

/// Integer division truncated toward zero, as the machine's signed division
/// rounds.
pub open spec fn trunc_div(x: int, y: int) -> int
    recommends
        y != 0,
{
    if x == 0 {
        0
    } else if x > 0 && y > 0 {
        x / y
    } else if x < 0 && y < 0 {
        (x * -1) / (y * -1)
    } else if x < 0 {
        ((x * -1) / y) * -1
    } else {
        (x / (y * -1)) * -1
    }
}

/// Remainder with the sign of the dividend: `a - b * trunc(a / b)`.
pub open spec fn rat_mod(a: Rat, b: Rat) -> Option<Rat>
    recommends
        rat_wf(a),
        b.n != 0,
{
    let x = a.n * b.d;
    let y = a.d * b.n;
    if !in_i128(x) || !in_i128(y) {
        None
    } else {
        let t = trunc_div(x, y);
        if !in_i128(t) {
            None
        } else {
            match rat_mul(b, Rat { n: t, d: 1 }) {
                Some(bt) => rat_sub(a, bt),
                None => None,
            }
        }
    }
}

/// Negation; `None` only at the very edge of the machine range.
pub open spec fn rat_neg(a: Rat) -> Option<Rat> {
    if in_i128(-a.n) {
        Some(Rat { n: -a.n, d: a.d })
    } else {
        None
    }
}

/// An exactly represented number: a numerator and a positive denominator,
/// both machine integers.  Arithmetic is exact and reports when a result
/// cannot be represented.
#[derive(Clone, Copy, Debug)]
pub struct Value {
    num: i128,
    den: i128,
}

impl View for Value {
    type V = Rat;

    closed spec fn view(&self) -> Rat {
        Rat { n: self.num as int, d: self.den as int }
    }
}

impl Value {
    pub open spec fn wf(&self) -> bool {
        rat_wf(self@)
    }

    /// A whole number.
    pub fn from_int(n: i64) -> (r: Value)
        ensures
            r.wf(),
            r@ == (Rat { n: n as int, d: 1 }),
    {
        Value { num: n as i128, den: 1 }
    }

    pub fn is_zero(&self) -> (r: bool)
        ensures
            r == (self@.n == 0),
    {
        self.num == 0
    }

    pub fn add(&self, other: &Value) -> (r: Option<Value>)
        requires
            self.wf(),
            other.wf(),
        ensures
            match rat_add(self@, other@) {
                Some(v) => r matches Some(x) && x.wf() && x@ == v,
                None => r is None,
            },
    {
        let n1 = match self.num.checked_mul(other.den) {
            Some(x) => x,
            None => return None,
        };
        let n2 = match other.num.checked_mul(self.den) {
            Some(x) => x,
            None => return None,
        };
        let n = match n1.checked_add(n2) {
            Some(x) => x,
            None => return None,
        };
        let d = match self.den.checked_mul(other.den) {
            Some(x) => x,
            None => return None,
        };
        assert(d > 0) by (nonlinear_arith)
            requires
                self.den > 0,
                other.den > 0,
                d == self.den * other.den,
        ;
        Some(Value { num: n, den: d })
    }

    pub fn sub(&self, other: &Value) -> (r: Option<Value>)
        requires
            self.wf(),
            other.wf(),
        ensures
            match rat_sub(self@, other@) {
                Some(v) => r matches Some(x) && x.wf() && x@ == v,
                None => r is None,
            },
    {
        let n1 = match self.num.checked_mul(other.den) {
            Some(x) => x,
            None => return None,
        };
        let n2 = match other.num.checked_mul(self.den) {
            Some(x) => x,
            None => return None,
        };
        let n = match n1.checked_sub(n2) {
            Some(x) => x,
            None => return None,
        };
        let d = match self.den.checked_mul(other.den) {
            Some(x) => x,
            None => return None,
        };
        assert(d > 0) by (nonlinear_arith)
            requires
                self.den > 0,
                other.den > 0,
                d == self.den * other.den,
        ;
        Some(Value { num: n, den: d })
    }

    pub fn mul(&self, other: &Value) -> (r: Option<Value>)
        requires
            self.wf(),
            other.wf(),
        ensures
            match rat_mul(self@, other@) {
                Some(v) => r matches Some(x) && x.wf() && x@ == v,
                None => r is None,
            },
    {
        let n = match self.num.checked_mul(other.num) {
            Some(x) => x,
            None => return None,
        };
        let d = match self.den.checked_mul(other.den) {
            Some(x) => x,
            None => return None,
        };
        assert(d > 0) by (nonlinear_arith)
            requires
                self.den > 0,
                other.den > 0,
                d == self.den * other.den,
        ;
        Some(Value { num: n, den: d })
    }

    pub fn div(&self, other: &Value) -> (r: Option<Value>)
        requires
            self.wf(),
            other.wf(),
            other@.n != 0,
        ensures
            match rat_div(self@, other@) {
                Some(v) => r matches Some(x) && x.wf() && x@ == v,
                None => r is None,
            },
    {
        let n0 = match self.num.checked_mul(other.den) {
            Some(x) => x,
            None => return None,
        };
        let d0 = match self.den.checked_mul(other.num) {
            Some(x) => x,
            None => return None,
        };
        let (n, d) = if other.num < 0 {
            let n = match 0i128.checked_sub(n0) {
                Some(x) => x,
                None => return None,
            };
            let d = match 0i128.checked_sub(d0) {
                Some(x) => x,
                None => return None,
            };
            (n, d)
        } else {
            (n0, d0)
        };
        assert(d > 0) by (nonlinear_arith)
            requires
                self.den > 0,
                other.num != 0,
                d0 == self.den * other.num,
                d == if other.num < 0 { -(d0 as int) } else { d0 as int },
        ;
        Some(Value { num: n, den: d })
    }

    pub fn rem(&self, other: &Value) -> (r: Option<Value>)
        requires
            self.wf(),
            other.wf(),
            other@.n != 0,
        ensures
            match rat_mod(self@, other@) {
                Some(v) => r matches Some(x) && x.wf() && x@ == v,
                None => r is None,
            },
    {
        let x = match self.num.checked_mul(other.den) {
            Some(v) => v,
            None => return None,
        };
        let y = match self.den.checked_mul(other.num) {
            Some(v) => v,
            None => return None,
        };
        assert(y != 0) by (nonlinear_arith)
            requires
                self.den > 0,
                other.num != 0,
                y == self.den * other.num,
        ;
        let t = match x.checked_div(y) {
            Some(v) => v,
            None => return None,
        };
        let tv = Value { num: t, den: 1 };
        let bt = match other.mul(&tv) {
            Some(v) => v,
            None => return None,
        };
        self.sub(&bt)
    }

    pub fn neg(&self) -> (r: Option<Value>)
        requires
            self.wf(),
        ensures
            match rat_neg(self@) {
                Some(v) => r matches Some(x) && x.wf() && x@ == v,
                None => r is None,
            },
    {
        let n = match 0i128.checked_sub(self.num) {
            Some(x) => x,
            None => return None,
        };
        Some(Value { num: n, den: self.den })
    }
}

/// The largest remainder that can still be multiplied by ten in 128 bits;
/// fraction digits past that point are not produced.
pub const FRAC_REM_CUTOFF: u128 = 34028236692093846346337460743176821145;

/// How many fraction digits a formatted value shows at most.
pub const MAX_FRAC_DIGITS: u64 = 32;

pub open spec fn is_digit_char(c: char) -> bool {
    48 <= c as int <= 57
}

/// The numeric value of a decimal digit character.
pub open spec fn digit_val(c: char) -> int {
    c as int - 48
}

/// The decimal digit character for a value below ten.
pub open spec fn digit_char(d: int) -> char {
    if d == 0 {
        '0'
    } else if d == 1 {
        '1'
    } else if d == 2 {
        '2'
    } else if d == 3 {
        '3'
    } else if d == 4 {
        '4'
    } else if d == 5 {
        '5'
    } else if d == 6 {
        '6'
    } else if d == 7 {
        '7'
    } else if d == 8 {
        '8'
    } else {
        '9'
    }
}

/// The decimal digits of a whole number, most significant first.
pub open spec fn dec_digits(m: nat) -> Seq<char>
    decreases m,
{
    if m < 10 {
        seq![digit_char(m as int)]
    } else {
        dec_digits(m / 10) + seq![digit_char((m % 10) as int)]
    }
}

pub open spec fn pow10(k: nat) -> nat
    decreases k,
{
    if k == 0 {
        1nat
    } else {
        10 * pow10((k - 1) as nat)
    }
}

/// The digits after the decimal point of `rem / d`, at most `k` of them,
/// stopping once the remainder is zero or can no longer be scaled in 128
/// bits.
pub open spec fn frac_digits(rem: nat, d: nat, k: nat) -> Seq<char>
    recommends
        0 < d,
        rem < d,
    decreases k,
{
    if k == 0 || rem == 0 || rem > FRAC_REM_CUTOFF {
        Seq::<char>::empty()
    } else {
        seq![digit_char(((rem * 10) / d) as int)] + frac_digits((rem * 10) % d, d, (k - 1) as nat)
    }
}

/// How a value is rendered: an optional minus sign, the whole part, and the
/// fraction digits when there are any.
pub open spec fn spec_format(r: Rat) -> Seq<char>
    recommends
        rat_wf(r),
{
    let m = (if r.n < 0 {
        -r.n
    } else {
        r.n
    }) as nat;
    let d = r.d as nat;
    let q = m / d;
    let rem = m % d;
    let frac = frac_digits(rem, d, MAX_FRAC_DIGITS as nat);
    let main = if frac.len() == 0 {
        dec_digits(q)
    } else {
        dec_digits(q) + seq!['.'] + frac
    };
    if r.n < 0 {
        seq!['-'] + main
    } else {
        main
    }
}

pub open spec fn all_digits(s: Seq<char>) -> bool {
    forall|i: int| 0 <= i < s.len() ==> is_digit_char(s[i])
}

/// The number written by a sequence of decimal digit characters.
pub open spec fn digits_val(s: Seq<char>) -> nat
    recommends
        all_digits(s),
    decreases s.len(),
{
    if s.len() == 0 {
        0nat
    } else {
        digits_val(s.drop_last()) * 10 + (if 0 <= digit_val(s.last()) < 10 {
            digit_val(s.last())
        } else {
            0
        }) as nat
    }
}

/// The first position at or after `i` that does not hold a digit.
pub open spec fn digits_end(s: Seq<char>, i: int) -> int
    recommends
        0 <= i <= s.len(),
    decreases s.len() - i,
{
    if i < s.len() && is_digit_char(s[i]) {
        digits_end(s, i + 1)
    } else {
        i
    }
}

/// What a piece of number text denotes: one or more digits, then optionally
/// a point and further digits.  `None` when the text has another shape or
/// the number does not fit the machine representation.
pub open spec fn spec_parse_number(s: Seq<char>) -> Option<Rat> {
    let k = digits_end(s, 0);
    if k == 0 {
        None
    } else if k == s.len() {
        let m = digits_val(s);
        if m <= i128::MAX {
            Some(Rat { n: m as int, d: 1 })
        } else {
            None
        }
    } else if s[k] != '.' {
        None
    } else {
        let rest = s.subrange(k + 1, s.len() as int);
        if !all_digits(rest) {
            None
        } else {
            let m = digits_val(s.subrange(0, k) + rest);
            let d = pow10(rest.len());
            if m <= i128::MAX && d <= i128::MAX {
                Some(Rat { n: m as int, d: d as int })
            } else {
                None
            }
        }
    }
}

pub proof fn lemma_digits_end_bounds(s: Seq<char>, i: int)
    requires
        0 <= i <= s.len(),
    ensures
        i <= digits_end(s, i) <= s.len(),
    decreases s.len() - i,
{
    if i < s.len() && is_digit_char(s[i]) {
        lemma_digits_end_bounds(s, i + 1);
    }
}

proof fn lemma_digits_val_step(s: Seq<char>, c: int)
    requires
        0 <= c < s.len(),
    ensures
        digits_val(s.subrange(0, c + 1)) == digits_val(s.subrange(0, c)) * 10 + (if 0 <= digit_val(
            s[c],
        ) < 10 {
            digit_val(s[c])
        } else {
            0
        }),
    decreases s.len(),
{
    assert(s.subrange(0, c + 1).drop_last() =~= s.subrange(0, c));
    assert(s.subrange(0, c + 1).last() == s[c]);
}

proof fn lemma_digits_val_prefix(s: Seq<char>, j: int)
    requires
        0 <= j <= s.len(),
    ensures
        digits_val(s) >= digits_val(s.subrange(0, j)),
    decreases s.len() - j,
{
    if j == s.len() {
        assert(s.subrange(0, j) =~= s);
    } else {
        lemma_digits_val_step(s, j);
        lemma_digits_val_prefix(s, j + 1);
    }
}

pub proof fn lemma_pow10_pos(k: nat)
    ensures
        pow10(k) >= 1,
    decreases k,
{
    if k > 0 {
        lemma_pow10_pos((k - 1) as nat);
    }
}

pub proof fn lemma_pow10_monotone(a: nat, b: nat)
    requires
        a <= b,
    ensures
        pow10(a) <= pow10(b),
    decreases b,
{
    lemma_pow10_pos(a);
    if a < b {
        lemma_pow10_monotone(a, (b - 1) as nat);
        lemma_pow10_pos((b - 1) as nat);
    }
}

proof fn lemma_too_big(s: Seq<char>, i: int)
    requires
        0 <= i < s.len(),
        is_digit_char(s[i]),
        digits_end(s, 0) == digits_end(s, i),
        digits_val(s.subrange(0, i + 1)) > i128::MAX,
    ensures
        spec_parse_number(s) is None,
{
    let k = digits_end(s, 0);
    assert(digits_end(s, i) == digits_end(s, i + 1));
    lemma_digits_end_bounds(s, i + 1);
    if k == s.len() {
        lemma_digits_val_prefix(s, i + 1);
        assert(s.subrange(0, s.len() as int) =~= s);
    } else if s[k] == '.' {
        let rest = s.subrange(k + 1, s.len() as int);
        if all_digits(rest) {
            let t = s.subrange(0, k) + rest;
            assert(t.subrange(0, i + 1) =~= s.subrange(0, i + 1));
            lemma_digits_val_prefix(t, i + 1);
        }
    }
}

proof fn lemma_frac_too_big(s: Seq<char>, t: Seq<char>, k: int, j: int)
    requires
        0 < k < j < s.len(),
        digits_end(s, 0) == k,
        s[k] == '.',
        t == s.subrange(0, k) + s.subrange(k + 1, s.len() as int),
        digits_val(t.subrange(0, j - 1 + 1)) > i128::MAX,
    ensures
        spec_parse_number(s) is None,
{
    let rest = s.subrange(k + 1, s.len() as int);
    if all_digits(rest) {
        lemma_digits_val_prefix(t, j);
    }
}

proof fn lemma_den_too_big(s: Seq<char>, k: int, jj: nat)
    requires
        0 < k < s.len(),
        digits_end(s, 0) == k,
        s[k] == '.',
        jj <= s.len() - 1 - k,
        pow10(jj) > i128::MAX,
    ensures
        spec_parse_number(s) is None,
{
    let rest = s.subrange(k + 1, s.len() as int);
    if all_digits(rest) {
        lemma_pow10_monotone(jj, rest.len());
    }
}

/// A number the text parser accepts is well formed.
pub proof fn lemma_parse_number_wf(s: Seq<char>)
    ensures
        spec_parse_number(s) matches Some(v) ==> rat_wf(v),
{
    lemma_digits_end_bounds(s, 0);
    let k = digits_end(s, 0);
    if 0 < k < s.len() && s[k] == '.' {
        let rest = s.subrange(k + 1, s.len() as int);
        lemma_pow10_pos(rest.len());
    }
}

fn is_digit(c: char) -> (r: bool)
    ensures
        r == is_digit_char(c),
{
    let u = c as u32;
    48 <= u && u <= 57
}

fn digit_of(c: char) -> (r: u8)
    requires
        is_digit_char(c),
    ensures
        r == digit_val(c),
        r < 10,
{
    (c as u32 - 48) as u8
}

fn digit_str(d: u8) -> (r: &'static str)
    requires
        d < 10,
    ensures
        r@ =~= seq![digit_char(d as int)],
{
    proof {
        reveal_strlit("0");
        reveal_strlit("1");
        reveal_strlit("2");
        reveal_strlit("3");
        reveal_strlit("4");
        reveal_strlit("5");
        reveal_strlit("6");
        reveal_strlit("7");
        reveal_strlit("8");
        reveal_strlit("9");
    }
    match d {
        0 => "0",
        1 => "1",
        2 => "2",
        3 => "3",
        4 => "4",
        5 => "5",
        6 => "6",
        7 => "7",
        8 => "8",
        _ => "9",
    }
}

fn append_dec_digits(out: &mut String, n: u128)
    ensures
        final(out)@ == old(out)@ + dec_digits(n as nat),
    decreases n,
{
    if n < 10 {
        out.append(digit_str(n as u8));
    } else {
        append_dec_digits(out, n / 10);
        let last = (n % 10) as u8;
        out.append(digit_str(last));
        assert(out@ =~= old(out)@ + dec_digits(n as nat));
    }
}

proof fn lemma_dec_digits_nonempty(m: nat)
    ensures
        dec_digits(m).len() >= 1,
    decreases m,
{
    if m >= 10 {
        lemma_dec_digits_nonempty(m / 10);
    }
}

/// A number below the `k`-th power of ten prints in at most `k` digits.
pub proof fn lemma_dec_digits_len(m: nat, k: nat)
    requires
        m < pow10(k),
        k >= 1,
    ensures
        dec_digits(m).len() <= k,
    decreases k,
{
    if m >= 10 {
        assert(pow10(k) == 10 * pow10((k - 1) as nat));
        vstd::arithmetic::div_mod::lemma_multiply_divide_lt(
            m as int,
            10,
            pow10((k - 1) as nat) as int,
        );
        lemma_dec_digits_len(m / 10, (k - 1) as nat);
    }
}

/// How wide the whole part of a value prints: its digit count for values
/// of one or more, nothing for smaller or negative values, and the largest
/// offset for zero.  A rough estimate kept for fault spans only.
pub open spec fn spec_width(v: Rat) -> int
    recommends
        rat_wf(v),
{
    if v.n == 0 {
        255
    } else if v.n < 0 {
        0
    } else if v.n < v.d {
        0
    } else {
        dec_digits((v.n / v.d) as nat).len() as int
    }
}

impl Value {
    /// The width estimate used when a fault span is reconstructed.
    pub fn width_estimate(&self) -> (r: u8)
        requires
            self.wf(),
        ensures
            r == spec_width(self@),
    {
        if self.num == 0 {
            return 255;
        }
        if self.num < 0 {
            return 0;
        }
        let m = self.num as u128;
        let d = self.den as u128;
        let q = m / d;
        if q == 0 {
            assert(self@.n < self@.d) by (nonlinear_arith)
                requires
                    m as int == self@.n,
                    d as int == self@.d,
                    0 < m,
                    0 < d,
                    m as int / d as int == 0,
            ;
            return 0;
        }
        assert(self@.n >= self@.d) by (nonlinear_arith)
            requires
                m as int == self@.n,
                d as int == self@.d,
                0 < m,
                0 < d,
                m as int / d as int > 0,
        ;
        proof {
            assert(pow10(39) == 1000000000000000000000000000000000000000) by {
                reveal_with_fuel(pow10, 40);
            }
            lemma_dec_digits_len(q as nat, 39);
        }
        let mut x = q;
        let mut cnt: u8 = 1;
        while x >= 10
            invariant
                1 <= x,
                1 <= cnt <= 39,
                dec_digits(q as nat).len() == dec_digits(x as nat).len() + (cnt - 1),
                dec_digits(q as nat).len() <= 39,
            decreases x,
        {
            proof {
                lemma_dec_digits_nonempty((x / 10) as nat);
            }
            x = x / 10;
            cnt = cnt + 1;
        }
        cnt
    }

    /// Parses number text of the shape `digits [ '.' digits ]` into an
    /// exact value; reports `None` when the text has another shape or the
    /// number does not fit the machine representation.
    pub fn parse_text(s: &str) -> (r: Option<Value>)
        ensures
            match spec_parse_number(s@) {
                Some(v) => r matches Some(x) && x.wf() && x@ == v,
                None => r is None,
            },
    {
        let len = s.unicode_len();
        let mut i: usize = 0;
        let mut acc: u128 = 0;
        let max_num: u128 = 170141183460469231731687303715884105727u128;
        assert(max_num == i128::MAX);
        while i < len && is_digit(s.get_char(i))
            invariant
                len == s@.len(),
                0 <= i <= len,
                digits_end(s@, 0) == digits_end(s@, i as int),
                all_digits(s@.subrange(0, i as int)),
                acc == digits_val(s@.subrange(0, i as int)),
                acc <= max_num,
                max_num == i128::MAX,
            decreases len - i,
        {
            let c = s.get_char(i);
            let d = digit_of(c);
            proof {
                lemma_digits_val_step(s@, i as int);
                lemma_digits_end_bounds(s@, i + 1);
            }
            let scaled = match acc.checked_mul(10) {
                Some(v) => v,
                None => {
                    proof {
                        lemma_too_big(s@, i as int);
                    }
                    return None;
                },
            };
            let next = match scaled.checked_add(d as u128) {
                Some(v) => v,
                None => {
                    proof {
                        lemma_too_big(s@, i as int);
                    }
                    return None;
                },
            };
            if next > max_num {
                proof {
                    lemma_too_big(s@, i as int);
                }
                return None;
            }
            acc = next;
            i = i + 1;
            assert(all_digits(s@.subrange(0, i as int))) by {
                assert(forall|j: int|
                    0 <= j < i ==> is_digit_char(#[trigger] s@.subrange(0, i as int)[j]));
            }
        }
        let k = i;
        assert(digits_end(s@, 0) == k);
        if k == 0 {
            return None;
        }
        if k == len {
            assert(s@.subrange(0, len as int) =~= s@);
            return Some(Value { num: acc as i128, den: 1 });
        }
        if s.get_char(k) != '.' {
            return None;
        }
        let ghost t = s@.subrange(0, k as int) + s@.subrange(k as int + 1, len as int);
        assert(t.subrange(0, k as int) =~= s@.subrange(0, k as int));
        let mut j = k + 1;
        let mut den: u128 = 1;
        while j < len
            invariant
                len == s@.len(),
                0 < k < len,
                k + 1 <= j <= len,
                digits_end(s@, 0) == k,
                s@[k as int] == '.',
                all_digits(s@.subrange(0, k as int)),
                all_digits(s@.subrange(k as int + 1, j as int)),
                t == s@.subrange(0, k as int) + s@.subrange(k as int + 1, len as int),
                t.len() == len - 1,
                acc == digits_val(t.subrange(0, j - 1)),
                den == pow10((j - 1 - k) as nat),
                acc <= max_num,
                1 <= den <= max_num,
                max_num == i128::MAX,
            decreases len - j,
        {
            let c = s.get_char(j);
            if !is_digit(c) {
                assert(!all_digits(s@.subrange(k as int + 1, len as int))) by {
                    assert(s@.subrange(k as int + 1, len as int)[j - k - 1] == s@[j as int]);
                }
                return None;
            }
            let d = digit_of(c);
            proof {
                assert(t[j - 1] == s@[j as int]);
                lemma_digits_val_step(t, j as int - 1);
            }
            let scaled = match acc.checked_mul(10) {
                Some(v) => v,
                None => {
                    proof {
                        lemma_frac_too_big(s@, t, k as int, j as int);
                    }
                    return None;
                },
            };
            let next = match scaled.checked_add(d as u128) {
                Some(v) => v,
                None => {
                    proof {
                        lemma_frac_too_big(s@, t, k as int, j as int);
                    }
                    return None;
                },
            };
            if next > max_num {
                proof {
                    lemma_frac_too_big(s@, t, k as int, j as int);
                }
                return None;
            }
            let wide = match den.checked_mul(10) {
                Some(v) => v,
                None => {
                    proof {
                        lemma_den_too_big(s@, k as int, (j - k) as nat);
                    }
                    return None;
                },
            };
            if wide > max_num {
                proof {
                    lemma_den_too_big(s@, k as int, (j - k) as nat);
                }
                return None;
            }
            acc = next;
            den = wide;
            j = j + 1;
            assert(all_digits(s@.subrange(k as int + 1, j as int))) by {
                assert(forall|p: int|
                    0 <= p < j - k - 1 ==> is_digit_char(
                        #[trigger] s@.subrange(k as int + 1, j as int)[p],
                    ));
            }
        }
        assert(t.subrange(0, j - 1) =~= t);
        assert(s@.subrange(k as int + 1, j as int) =~= s@.subrange(k as int + 1, len as int));
        Some(Value { num: acc as i128, den: den as i128 })
    }

    /// Renders the value as decimal text: exact whenever the expansion
    /// terminates within `MAX_FRAC_DIGITS` digits, truncated otherwise.
    pub fn format(&self) -> (s: String)
        requires
            self.wf(),
        ensures
            s@ == spec_format(self@),
    {
        proof {
            reveal_strlit("-");
            reveal_strlit(".");
            reveal_strlit("");
        }
        let neg = self.num < 0;
        let m: u128 = if self.num == i128::MIN {
            170141183460469231731687303715884105728u128
        } else if self.num < 0 {
            (-self.num) as u128
        } else {
            self.num as u128
        };
        let d = self.den as u128;
        let q = m / d;
        let mut rem = m % d;
        let mut s = String::new();
        if neg {
            s.append("-");
        }
        append_dec_digits(&mut s, q);
        if rem != 0 && rem <= FRAC_REM_CUTOFF {
            s.append(".");
            let ghost all_frac = frac_digits((m % d) as nat, d as nat, MAX_FRAC_DIGITS as nat);
            let ghost base = s@;
            let mut k: u64 = 0;
            while k < MAX_FRAC_DIGITS && rem != 0 && rem <= FRAC_REM_CUTOFF
                invariant
                    0 < d <= i128::MAX as u128,
                    rem < d,
                    k <= MAX_FRAC_DIGITS,
                    s@ + frac_digits(rem as nat, d as nat, (MAX_FRAC_DIGITS - k) as nat)
                        =~= base + all_frac,
                decreases MAX_FRAC_DIGITS - k,
            {
                let scaled = rem * 10;
                let digit_wide = scaled / d;
                assert(digit_wide < 10) by (nonlinear_arith)
                    requires
                        rem < d,
                        0 < d,
                        scaled == rem * 10,
                        digit_wide == scaled / d,
                ;
                let digit = digit_wide as u8;
                s.append(digit_str(digit));
                rem = scaled % d;
                k = k + 1;
            }
            assert(frac_digits(rem as nat, d as nat, (MAX_FRAC_DIGITS - k) as nat)
                =~= Seq::<char>::empty());
            assert(s@ =~= spec_format(self@));
        } else {
            assert(s@ =~= spec_format(self@));
        }
        s
    }
}

} // verus!
