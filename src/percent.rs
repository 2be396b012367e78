use vstd::prelude::*;

verus! {

/// A signed decimal percentage: `units / 10^scale` percent, so that
/// `"+7.06%"` reads as 706 units at scale 2 and `"1e5%"` as 100000 units
/// at scale 0.
#[derive(Clone, Copy, Debug, PartialEq, Eq, Structural)]
pub struct Percentage {
    pub units: i64,
    pub scale: usize,
}

/// Why a displayed percentage could not be read.
#[derive(Clone, Copy, Debug, PartialEq, Eq, Structural)]
pub enum ParseError {
    /// The text is empty or does not end in `%`.
    Empty,
    /// What precedes the `%` is not a floating-point literal.
    InvalidNumber,
    /// What precedes the `%` is a floating-point literal that a
    /// [`Percentage`] cannot hold: infinity, NaN, a value whose units leave
    /// `i64`, or one whose scale leaves `usize`. Reading into a float has no
    /// such case; the fixed-point result brings it.
    OutOfRange,
}

/// Exponents from this size on are all alike to the parser: they make any
/// nonzero value too large, or any scale too fine, to be held.
const EXPONENT_CAP: u128 = 1000000000000000000000000000000;

pub open spec fn is_digit(c: char) -> bool {
    '0' <= c && c <= '9'
}

pub open spec fn digit_value(c: char) -> int {
    c as int - '0' as int
}

pub open spec fn all_digits(s: Seq<char>) -> bool {
    forall|i: int| 0 <= i < s.len() ==> is_digit(#[trigger] s[i])
}

/// The integer written by the decimal digits `s`, most significant first.
pub open spec fn digits_value(s: Seq<char>) -> int
    decreases s.len(),
{
    if s.len() == 0 {
        0
    } else {
        digits_value(s.drop_last()) * 10 + digit_value(s.last())
    }
}

pub open spec fn pow10(n: nat) -> int
    decreases n,
{
    if n == 0 {
        1
    } else {
        10 * pow10((n - 1) as nat)
    }
}

/// How many digits `s` starts with.
pub open spec fn leading_digits(s: Seq<char>) -> nat
    decreases s.len(),
{
    if s.len() > 0 && is_digit(s[0]) {
        1 + leading_digits(s.drop_first())
    } else {
        0
    }
}

/// Length of the optional leading sign of `b`.
pub open spec fn sign_len(b: Seq<char>) -> int {
    if b.len() > 0 && (b[0] == '+' || b[0] == '-') {
        1
    } else {
        0
    }
}

pub open spec fn is_negative(b: Seq<char>) -> bool {
    b.len() > 0 && b[0] == '-'
}

/// `v`, negated when `b` starts with `-`.
pub open spec fn signed(b: Seq<char>, v: int) -> int {
    if is_negative(b) {
        -v
    } else {
        v
    }
}

/// `u` spells the word whose lower-case form is `lo` and upper-case form
/// is `up`, each letter in either case.
pub open spec fn word_matches(u: Seq<char>, lo: Seq<char>, up: Seq<char>) -> bool {
    &&& u.len() == lo.len()
    &&& u.len() == up.len()
    &&& forall|i: int| 0 <= i < u.len() ==> #[trigger] u[i] == lo[i] || u[i] == up[i]
}

/// The number without its sign.
pub open spec fn unsigned_part(b: Seq<char>) -> Seq<char> {
    b.skip(sign_len(b))
}

/// `b` names infinity or NaN.
pub open spec fn is_special(b: Seq<char>) -> bool {
    let u = unsigned_part(b);
    ||| word_matches(u, "inf"@, "INF"@)
    ||| word_matches(u, "infinity"@, "INFINITY"@)
    ||| word_matches(u, "nan"@, "NAN"@)
}

/// The digits before the decimal point.
pub open spec fn int_digits(b: Seq<char>) -> Seq<char> {
    unsigned_part(b).take(leading_digits(unsigned_part(b)) as int)
}

/// What follows the digits before the decimal point.
pub open spec fn after_int(b: Seq<char>) -> Seq<char> {
    unsigned_part(b).skip(leading_digits(unsigned_part(b)) as int)
}

pub open spec fn has_point(b: Seq<char>) -> bool {
    after_int(b).len() > 0 && after_int(b)[0] == '.'
}

/// What follows the decimal point, or the digits before it when there is
/// no point.
pub open spec fn after_point(b: Seq<char>) -> Seq<char> {
    if has_point(b) {
        after_int(b).skip(1)
    } else {
        after_int(b)
    }
}

/// The digits after the decimal point.
pub open spec fn frac_digits(b: Seq<char>) -> Seq<char> {
    if has_point(b) {
        after_point(b).take(leading_digits(after_point(b)) as int)
    } else {
        Seq::empty()
    }
}

/// What follows the digits of the number: nothing, or an exponent.
pub open spec fn exponent_part(b: Seq<char>) -> Seq<char> {
    after_point(b).skip(frac_digits(b).len() as int)
}

/// An exponent `x` without its marker.
pub open spec fn exp_signed_of(x: Seq<char>) -> Seq<char> {
    x.skip(1)
}

/// The digits of an exponent `x`.
pub open spec fn exp_digits_of(x: Seq<char>) -> Seq<char> {
    exp_signed_of(x).skip(sign_len(exp_signed_of(x)))
}

/// `x` is empty or an exponent: `e` or `E`, an optional sign, digits.
pub open spec fn exp_ok(x: Seq<char>) -> bool {
    ||| x.len() == 0
    ||| {
        &&& x[0] == 'e' || x[0] == 'E'
        &&& exp_digits_of(x).len() > 0
        &&& all_digits(exp_digits_of(x))
    }
}

/// The value of the exponent `x`; zero when `x` is empty.
pub open spec fn exp_value_of(x: Seq<char>) -> int {
    if x.len() == 0 {
        0
    } else {
        signed(exp_signed_of(x), digits_value(exp_digits_of(x)))
    }
}

pub open spec fn exponent_valid(b: Seq<char>) -> bool {
    exp_ok(exponent_part(b))
}

/// The exponent of `b`; zero when it has none.
pub open spec fn exponent_value(b: Seq<char>) -> int {
    exp_value_of(exponent_part(b))
}

/// `b` is a floating-point literal: an optional sign, then `inf`,
/// `infinity` or `nan` in any case, or digits with an optional decimal
/// point (at least one digit in all: `7`, `-3.99`, `5.`, `.5`) followed by
/// an optional exponent `e` or `E`, an optional sign and digits.
pub open spec fn number_valid(b: Seq<char>) -> bool {
    ||| is_special(b)
    ||| int_digits(b).len() + frac_digits(b).len() > 0 && exponent_valid(b)
}

/// All digits of the number, before and after the point, as one integer.
pub open spec fn mantissa(b: Seq<char>) -> int {
    digits_value(int_digits(b) + frac_digits(b))
}

/// The power of ten by which the mantissa is scaled.
pub open spec fn shift(b: Seq<char>) -> int {
    exponent_value(b) - frac_digits(b).len()
}

/// What reading the displayed percentage `s` gives. The text must end in
/// `%`, and only that `%` is removed; the sign stays with the number. The
/// number `m * 10^k` (its mantissa and shift) becomes `m * 10^k` units at
/// scale 0 when `k >= 0`, else `m` units at scale `-k`.
pub open spec fn parse_spec(s: Seq<char>) -> Result<Percentage, ParseError> {
    if s.len() == 0 || s.last() != '%' {
        Err(ParseError::Empty)
    } else {
        let b = s.drop_last();
        if !number_valid(b) {
            Err(ParseError::InvalidNumber)
        } else if is_special(b) || mantissa(b) > i64::MAX {
            Err(ParseError::OutOfRange)
        } else {
            fixed_point(b)
        }
    }
}

/// The fixed-point value of the finite number `b`.
pub open spec fn fixed_point(b: Seq<char>) -> Result<Percentage, ParseError> {
    if shift(b) >= 0 {
        if mantissa(b) * pow10(shift(b) as nat) > i64::MAX {
            Err(ParseError::OutOfRange)
        } else {
            Ok(Percentage { units: signed(b, mantissa(b) * pow10(shift(b) as nat)) as i64, scale: 0 })
        }
    } else if -shift(b) > usize::MAX {
        Err(ParseError::OutOfRange)
    } else {
        Ok(Percentage { units: signed(b, mantissa(b)) as i64, scale: (-shift(b)) as usize })
    }
}

proof fn lemma_digits_push(x: Seq<char>, c: char)
    ensures
        digits_value(x.push(c)) == digits_value(x) * 10 + digit_value(c),
{
    assert(x.push(c).drop_last() =~= x);
}

proof fn lemma_pow10_grows(a: nat, b: nat)
    requires
        a <= b,
    ensures
        1 <= pow10(a) <= pow10(b),
    decreases b,
{
    if b > 0 {
        if a < b {
            lemma_pow10_grows(a, (b - 1) as nat);
        } else {
            lemma_pow10_grows(0, (b - 1) as nat);
        }
    }
}

proof fn lemma_pow10_19()
    ensures
        pow10(19) == 10000000000000000000,
{
    reveal_with_fuel(pow10, 20);
}

/// A run of `k` digits followed by a non-digit, or by the end, is the
/// leading digit run.
proof fn lemma_leading_digits(s: Seq<char>, k: int)
    requires
        0 <= k <= s.len(),
        forall|j: int| 0 <= j < k ==> is_digit(#[trigger] s[j]),
        k == s.len() || !is_digit(s[k]),
    ensures
        leading_digits(s) == k,
    decreases k,
{
    if k > 0 {
        lemma_leading_digits(s.drop_first(), k - 1);
    }
}

fn is_ascii_digit(c: char) -> (r: bool)
    ensures
        r == is_digit(c),
{
    '0' <= c && c <= '9'
}

/// The end of the run of digits of `raw` that starts at `from`, not going
/// past `to`.
fn scan_digits(raw: &str, from: usize, to: usize) -> (r: usize)
    requires
        from <= to <= raw@.len(),
    ensures
        from <= r <= to,
        forall|j: int| from <= j < r ==> is_digit(#[trigger] raw@[j]),
        r == to || !is_digit(raw@[r as int]),
{
    let mut i = from;
    while i < to && is_ascii_digit(raw.get_char(i))
        invariant
            from <= i <= to,
            to <= raw@.len(),
            forall|j: int| from <= j < i ==> is_digit(#[trigger] raw@[j]),
        decreases to - i,
    {
        i += 1;
    }
    i
}

/// Whether `raw[from..to]` spells the word `lo` / `up`, letter by letter in
/// either case.
fn word_at(raw: &str, from: usize, to: usize, lo: &str, up: &str) -> (r: bool)
    requires
        from <= to <= raw@.len(),
    ensures
        r == word_matches(raw@.subrange(from as int, to as int), lo@, up@),
{
    let ghost u = raw@.subrange(from as int, to as int);
    let n = lo.unicode_len();
    if to - from != n || up.unicode_len() != n {
        return false;
    }
    let mut i: usize = 0;
    while i < n
        invariant
            from <= to <= raw@.len(),
            n == to - from,
            n == lo@.len(),
            n == up@.len(),
            u == raw@.subrange(from as int, to as int),
            i <= n,
            forall|j: int| 0 <= j < i ==> #[trigger] u[j] == lo@[j] || u[j] == up@[j],
        decreases n - i,
    {
        let c = raw.get_char(from + i);
        assert(u[i as int] == c);
        if c != lo.get_char(i) && c != up.get_char(i) {
            return false;
        }
        i += 1;
    }
    true
}

/// Appends digit `c` to the running value `acc`, which stands for the
/// mathematical value `v` unless it has already left the range of `i64`.
fn push_digit(acc: i64, overflow: bool, c: char, Ghost(v): Ghost<int>) -> (r: (i64, bool))
    requires
        is_digit(c),
        v >= 0,
        !overflow ==> acc == v,
        overflow ==> v > i64::MAX,
        acc >= 0,
    ensures
        r.0 >= 0,
        !r.1 ==> r.0 == v * 10 + digit_value(c),
        r.1 ==> v * 10 + digit_value(c) > i64::MAX,
{
    if overflow {
        return (acc, true);
    }
    let d = (c as u32 - '0' as u32) as i64;
    match acc.checked_mul(10) {
        Some(m) => match m.checked_add(d) {
            Some(t) => (t, false),
            None => (acc, true),
        },
        None => (acc, true),
    }
}

/// Continues the running value `acc` of the digits `prev` with the digits
/// `raw[from..to]`.
fn accumulate(raw: &str, from: usize, to: usize, acc: i64, overflow: bool, Ghost(prev): Ghost<Seq<char>>) -> (r: (
    i64,
    bool,
))
    requires
        from <= to <= raw@.len(),
        forall|j: int| from <= j < to ==> is_digit(#[trigger] raw@[j]),
        acc >= 0,
        digits_value(prev) >= 0,
        !overflow ==> acc == digits_value(prev),
        overflow ==> digits_value(prev) > i64::MAX,
    ensures
        r.0 >= 0,
        digits_value(prev + raw@.subrange(from as int, to as int)) >= 0,
        !r.1 ==> r.0 == digits_value(prev + raw@.subrange(from as int, to as int)),
        r.1 ==> digits_value(prev + raw@.subrange(from as int, to as int)) > i64::MAX,
{
    let mut acc = acc;
    let mut overflow = overflow;
    let mut i = from;
    assert(prev + raw@.subrange(from as int, from as int) =~= prev);
    while i < to
        invariant
            from <= i <= to <= raw@.len(),
            forall|j: int| from <= j < to ==> is_digit(#[trigger] raw@[j]),
            acc >= 0,
            digits_value(prev + raw@.subrange(from as int, i as int)) >= 0,
            !overflow ==> acc == digits_value(prev + raw@.subrange(from as int, i as int)),
            overflow ==> digits_value(prev + raw@.subrange(from as int, i as int)) > i64::MAX,
        decreases to - i,
    {
        let c = raw.get_char(i);
        let ghost x = prev + raw@.subrange(from as int, i as int);
        proof {
            lemma_digits_push(x, c);
            assert(prev + raw@.subrange(from as int, i + 1) =~= x.push(c));
        }
        let (a, o) = push_digit(acc, overflow, c, Ghost(digits_value(x)));
        acc = a;
        overflow = o;
        i += 1;
    }
    (acc, overflow)
}

/// The value of the digits `raw[from..to]`, or `EXPONENT_CAP` when it is
/// at least that.
fn capped_value(raw: &str, from: usize, to: usize) -> (r: u128)
    requires
        from <= to <= raw@.len(),
        forall|j: int| from <= j < to ==> is_digit(#[trigger] raw@[j]),
    ensures
        r <= EXPONENT_CAP,
        digits_value(raw@.subrange(from as int, to as int)) >= 0,
        r < EXPONENT_CAP ==> r == digits_value(raw@.subrange(from as int, to as int)),
        r == EXPONENT_CAP ==> digits_value(raw@.subrange(from as int, to as int)) >= EXPONENT_CAP,
{
    let mut acc: u128 = 0;
    let mut i = from;
    assert(raw@.subrange(from as int, from as int) =~= Seq::<char>::empty());
    while i < to
        invariant
            from <= i <= to <= raw@.len(),
            forall|j: int| from <= j < to ==> is_digit(#[trigger] raw@[j]),
            acc <= EXPONENT_CAP,
            digits_value(raw@.subrange(from as int, i as int)) >= 0,
            acc < EXPONENT_CAP ==> acc == digits_value(raw@.subrange(from as int, i as int)),
            acc == EXPONENT_CAP ==> digits_value(raw@.subrange(from as int, i as int)) >= EXPONENT_CAP,
        decreases to - i,
    {
        let c = raw.get_char(i);
        let ghost x = raw@.subrange(from as int, i as int);
        proof {
            lemma_digits_push(x, c);
            assert(raw@.subrange(from as int, i + 1) =~= x.push(c));
        }
        if acc < EXPONENT_CAP {
            let next = acc * 10 + (c as u32 - '0' as u32) as u128;
            acc = if next < EXPONENT_CAP {
                next
            } else {
                EXPONENT_CAP
            };
        }
        i += 1;
    }
    acc
}

/// `m * 10^n`, or `None` when that exceeds `i64::MAX`.
fn scale_up(m: i64, n: u32) -> (r: Option<i64>)
    requires
        m >= 0,
    ensures
        match r {
            Some(v) => v >= 0 && v == m * pow10(n as nat),
            None => m * pow10(n as nat) > i64::MAX,
        },
{
    let mut v = m;
    let mut i: u32 = 0;
    while i < n
        invariant
            m >= 0,
            v >= 0,
            i <= n,
            v == m * pow10(i as nat),
        decreases n - i,
    {
        let ghost p = pow10(i as nat);
        proof {
            lemma_pow10_grows(i as nat, (i + 1) as nat);
            assert(pow10((i + 1) as nat) == 10 * p);
            assert(m * pow10((i + 1) as nat) == (m * p) * 10) by (nonlinear_arith)
                requires
                    pow10((i + 1) as nat) == 10 * p,
            ;
        }
        match v.checked_mul(10) {
            Some(t) => {
                v = t;
            },
            None => {
                proof {
                    lemma_pow10_grows((i + 1) as nat, n as nat);
                    let q = pow10((i + 1) as nat);
                    let w = pow10(n as nat);
                    assert(m * q <= m * w) by (nonlinear_arith)
                        requires
                            m >= 0,
                            q <= w,
                    ;
                }
                return None;
            },
        }
        i += 1;
    }
    Some(v)
}

/// The fixed-point value of the finite number `b`, from its mantissa `m`,
/// the number of digits after its point, and its exponent: `e` is the
/// exponent's magnitude `d`, or `EXPONENT_CAP` when `d` is at least that.
fn fixed_point_of(
    m: i64,
    frac_len: usize,
    e: u128,
    exp_negative: bool,
    negative: bool,
    Ghost(b): Ghost<Seq<char>>,
    Ghost(d): Ghost<int>,
) -> (r: Result<Percentage, ParseError>)
    requires
        0 <= m,
        m == mantissa(b),
        frac_len == frac_digits(b).len(),
        negative == is_negative(b),
        d >= 0,
        exponent_value(b) == (if exp_negative {
            -d
        } else {
            d
        }),
        e <= EXPONENT_CAP,
        e < EXPONENT_CAP ==> e == d,
        e == EXPONENT_CAP ==> d >= EXPONENT_CAP,
    ensures
        r == fixed_point(b),
{
    let exp_signed: i128 = if exp_negative {
        -(e as i128)
    } else {
        e as i128
    };
    let sh: i128 = exp_signed - frac_len as i128;
    proof {
        if e < EXPONENT_CAP {
            assert(sh == shift(b));
        } else if exp_negative {
            assert(shift(b) <= -(EXPONENT_CAP as int));
        } else {
            assert(shift(b) >= EXPONENT_CAP - frac_len);
        }
    }
    if sh >= 0 {
        if m == 0 {
            assert(shift(b) >= 0);
            assert(mantissa(b) * pow10(shift(b) as nat) == 0);
            return Ok(Percentage { units: 0, scale: 0 });
        }
        if sh >= 19 {
            proof {
                let p = pow10(shift(b) as nat);
                lemma_pow10_grows(19, shift(b) as nat);
                lemma_pow10_19();
                assert(m * p >= p) by (nonlinear_arith)
                    requires
                        m >= 1,
                        p >= 1,
                ;
            }
            return Err(ParseError::OutOfRange);
        }
        match scale_up(m, sh as u32) {
            Some(v) => {
                let units = if negative {
                    -v
                } else {
                    v
                };
                Ok(Percentage { units, scale: 0 })
            },
            None => Err(ParseError::OutOfRange),
        }
    } else {
        if sh < -(usize::MAX as i128) {
            return Err(ParseError::OutOfRange);
        }
        let units = if negative {
            -m
        } else {
            m
        };
        Ok(Percentage { units, scale: (-sh) as usize })
    }
}

/// Finds the digits of the number `b == raw[..end]`, whose sign ends at
/// `start`: those before the point end at `int_end`, those after it span
/// `frac_start..frac_end`, and what follows them is the exponent part.
fn scan_digit_parts(raw: &str, start: usize, end: usize, Ghost(b): Ghost<Seq<char>>) -> (r: (usize, usize, usize))
    requires
        end < raw@.len(),
        b == raw@.subrange(0, end as int),
        start == sign_len(b),
    ensures
        start <= r.0 <= r.1 <= r.2 <= end,
        forall|j: int| start <= j < r.0 ==> is_digit(#[trigger] raw@[j]),
        forall|j: int| r.1 <= j < r.2 ==> is_digit(#[trigger] raw@[j]),
        int_digits(b) == raw@.subrange(start as int, r.0 as int),
        frac_digits(b) == raw@.subrange(r.1 as int, r.2 as int),
        exponent_part(b) == raw@.subrange(r.2 as int, end as int),
{
    let ghost u = unsigned_part(b);
    assert(u =~= raw@.subrange(start as int, end as int));
    let int_end = scan_digits(raw, start, end);
    proof {
        assert forall|j: int| 0 <= j < int_end - start implies is_digit(#[trigger] u[j]) by {
            assert(u[j] == raw@[start + j]);
        }
        if int_end < end {
            assert(u[int_end - start] == raw@[int_end as int]);
        }
        lemma_leading_digits(u, int_end - start);
        assert(int_digits(b) =~= raw@.subrange(start as int, int_end as int));
        assert(after_int(b) =~= raw@.subrange(int_end as int, end as int));
    }
    let point = int_end < end && raw.get_char(int_end) == '.';
    let frac_start = if point {
        int_end + 1
    } else {
        int_end
    };
    proof {
        if int_end < end {
            assert(after_int(b)[0] == raw@[int_end as int]);
        }
        assert(has_point(b) == point);
        assert(after_point(b) =~= raw@.subrange(frac_start as int, end as int));
    }
    let frac_end = if point {
        scan_digits(raw, frac_start, end)
    } else {
        frac_start
    };
    proof {
        let ap = after_point(b);
        if point {
            assert forall|j: int| 0 <= j < frac_end - frac_start implies is_digit(#[trigger] ap[j]) by {
                assert(ap[j] == raw@[frac_start + j]);
            }
            if frac_end < end {
                assert(ap[frac_end - frac_start] == raw@[frac_end as int]);
            }
            lemma_leading_digits(ap, frac_end - frac_start);
        }
        assert(frac_digits(b) =~= raw@.subrange(frac_start as int, frac_end as int));
        assert(exponent_part(b) =~= raw@.subrange(frac_end as int, end as int));
    }
    (int_end, frac_start, frac_end)
}

/// Reads the exponent part `raw[from..end]`: where its digits start and
/// whether it is negative; `None` when it is not empty and not an exponent.
fn scan_exponent(raw: &str, from: usize, end: usize) -> (r: Option<(usize, bool)>)
    requires
        from <= end < raw@.len(),
    ensures
        r is None <==> !exp_ok(raw@.subrange(from as int, end as int)),
        r matches Some((exp_start, exp_negative)) ==> {
            let x = raw@.subrange(from as int, end as int);
            &&& from <= exp_start <= end
            &&& from == end ==> !exp_negative
            &&& from < end ==> {
                &&& exp_digits_of(x) == raw@.subrange(exp_start as int, end as int)
                &&& is_negative(exp_signed_of(x)) == exp_negative
                &&& forall|j: int| exp_start <= j < end ==> is_digit(#[trigger] raw@[j])
            }
        },
{
    let ghost x = raw@.subrange(from as int, end as int);
    if from == end {
        return Some((from, false));
    }
    let c = raw.get_char(from);
    if c != 'e' && c != 'E' {
        assert(x[0] == c);
        return None;
    }
    let mut exp_start = from + 1;
    let mut exp_negative = false;
    if exp_start < end {
        let sc = raw.get_char(exp_start);
        if sc == '+' {
            exp_start += 1;
        } else if sc == '-' {
            exp_start += 1;
            exp_negative = true;
        }
    }
    let exp_end = scan_digits(raw, exp_start, end);
    proof {
        let es = exp_signed_of(x);
        assert(es =~= raw@.subrange(from + 1, end as int));
        if from + 1 < end {
            assert(es[0] == raw@[from + 1]);
        }
        assert(sign_len(es) == exp_start - from - 1);
        assert(exp_digits_of(x) =~= raw@.subrange(exp_start as int, end as int));
    }
    if exp_end == exp_start || exp_end < end {
        proof {
            let ed = exp_digits_of(x);
            if exp_end < end {
                assert(ed[exp_end - exp_start] == raw@[exp_end as int]);
            }
        }
        return None;
    }
    Some((exp_start, exp_negative))
}

/// Finds the parts of the number `b == raw[..end]`, whose sign ends at
/// `start`: the digits before the point end at `int_end`, those after it
/// span `frac_start..frac_end`, and the exponent's digits, if any, start at
/// `exp_start`. `None` when `b` is not a floating-point literal.
fn scan_number(raw: &str, start: usize, end: usize, Ghost(b): Ghost<Seq<char>>) -> (r: Option<
    (usize, usize, usize, usize, bool),
>)
    requires
        end < raw@.len(),
        b == raw@.subrange(0, end as int),
        start == sign_len(b),
        !is_special(b),
    ensures
        r is None <==> !number_valid(b),
        r matches Some((int_end, frac_start, frac_end, exp_start, exp_negative)) ==> {
            &&& start <= int_end <= frac_start <= frac_end <= exp_start <= end
            &&& forall|j: int| start <= j < int_end ==> is_digit(#[trigger] raw@[j])
            &&& forall|j: int| frac_start <= j < frac_end ==> is_digit(#[trigger] raw@[j])
            &&& int_digits(b) == raw@.subrange(start as int, int_end as int)
            &&& frac_digits(b) == raw@.subrange(frac_start as int, frac_end as int)
            &&& frac_end == end ==> exponent_part(b).len() == 0 && !exp_negative
            &&& frac_end < end ==> {
                &&& exponent_part(b).len() > 0
                &&& exp_digits_of(exponent_part(b)) == raw@.subrange(exp_start as int, end as int)
                &&& is_negative(exp_signed_of(exponent_part(b))) == exp_negative
                &&& forall|j: int| exp_start <= j < end ==> is_digit(#[trigger] raw@[j])
            }
        },
{
    let (int_end, frac_start, frac_end) = scan_digit_parts(raw, start, end, Ghost(b));
    if int_end - start + (frac_end - frac_start) == 0 {
        return None;
    }
    match scan_exponent(raw, frac_end, end) {
        Some((exp_start, exp_negative)) => Some((int_end, frac_start, frac_end, exp_start, exp_negative)),
        None => None,
    }
}

/// Reads a displayed percentage such as `"+7.06%"`, `"-3.99%"` or `"1e5%"`.
///
/// Only the trailing `%` is removed; the sign stays with the number, which
/// may be any floating-point literal. The result is exact and keeps every
/// digit: `"-0.71%"` reads as -71 units at scale 2, `"1.5e-3%"` as 15 units
/// at scale 4. Infinity and NaN (`inf`, `infinity`, `nan`, in any case)
/// are literals that a fixed-point value cannot hold, and give
/// `OutOfRange`, as do values whose units or scale do not fit.
pub fn parse_percentage(raw: &str) -> (r: Result<Percentage, ParseError>)
    ensures
        r == parse_spec(raw@),
{
    let n = raw.unicode_len();
    if n == 0 || raw.get_char(n - 1) != '%' {
        return Err(ParseError::Empty);
    }
    let end = n - 1;
    let ghost b = raw@.drop_last();
    assert(b =~= raw@.subrange(0, end as int));
    let mut start: usize = 0;
    let mut negative = false;
    if end > 0 {
        let c = raw.get_char(0);
        if c == '+' {
            start = 1;
        } else if c == '-' {
            start = 1;
            negative = true;
        }
    }
    assert(start == sign_len(b));
    assert(negative == is_negative(b));
    let ghost u = unsigned_part(b);
    assert(u =~= raw@.subrange(start as int, end as int));
    if word_at(raw, start, end, "inf", "INF") || word_at(raw, start, end, "infinity", "INFINITY")
        || word_at(raw, start, end, "nan", "NAN") {
        return Err(ParseError::OutOfRange);
    }
    assert(!is_special(b));

    let (int_end, frac_start, frac_end, exp_start, exp_negative) = match scan_number(raw, start, end, Ghost(b)) {
        Some(t) => t,
        None => return Err(ParseError::InvalidNumber),
    };
    let e: u128 = if frac_end < end {
        capped_value(raw, exp_start, end)
    } else {
        0
    };
    let (m0, o0) = accumulate(raw, start, int_end, 0, false, Ghost(Seq::empty()));
    assert(Seq::<char>::empty() + raw@.subrange(start as int, int_end as int) =~= raw@.subrange(
        start as int,
        int_end as int,
    ));
    let (m, over) = accumulate(raw, frac_start, frac_end, m0, o0, Ghost(raw@.subrange(start as int, int_end as int)));
    if over {
        return Err(ParseError::OutOfRange);
    }
    assert(m == mantissa(b));
    let ghost d = if frac_end < end {
        digits_value(exp_digits_of(exponent_part(b)))
    } else {
        0
    };
    proof {
        if frac_end < end {
            assert(exponent_value(b) == signed(exp_signed_of(exponent_part(b)), digits_value(exp_digits_of(exponent_part(b)))));
        }
    }
    fixed_point_of(m, frac_end - frac_start, e, exp_negative, negative, Ghost(b), Ghost(d))
}

/// The text `sign digits[.frac][exponent]%`.
pub open spec fn percentage_text(sign: Seq<char>, int_part: Seq<char>, frac: Seq<char>, exp: Seq<char>) -> Seq<
    char,
> {
    let dot_frac = if frac.len() > 0 {
        seq!['.'] + frac
    } else {
        Seq::empty()
    };
    sign + int_part + dot_frac + exp + seq!['%']
}

/// A percentage written as an optional `+` or `-`, one or more digits,
/// optionally a point with one or more digits, and optionally an exponent
/// (`e` or `E`, an optional sign, digits), then `%`, reads back as exactly
/// the number written, sign included. With `m` its digits read as one
/// integer and `k` its exponent less the number of digits after the
/// point, the result is `±m * 10^k` units at scale 0 when `k >= 0`, else
/// `±m` units at scale `-k`, negated after a leading `-`. Numbers whose
/// units or scale do not fit the fixed-point type are left out.
pub proof fn lemma_parse_round_trip(sign: Seq<char>, int_part: Seq<char>, frac: Seq<char>, exp: Seq<char>)
    requires
        sign.len() <= 1,
        sign.len() == 1 ==> sign[0] == '+' || sign[0] == '-',
        int_part.len() > 0,
        all_digits(int_part),
        all_digits(frac),
        exp_ok(exp),
        digits_value(int_part + frac) <= i64::MAX,
        exp_value_of(exp) >= frac.len() ==> digits_value(int_part + frac) * pow10(
            (exp_value_of(exp) - frac.len()) as nat,
        ) <= i64::MAX,
        exp_value_of(exp) < frac.len() ==> frac.len() - exp_value_of(exp) <= usize::MAX,
    ensures
        ({
            let m = digits_value(int_part + frac);
            let k = exp_value_of(exp) - frac.len();
            let neg = sign == seq!['-'];
            parse_spec(percentage_text(sign, int_part, frac, exp)) == Ok::<Percentage, ParseError>(
                if k >= 0 {
                    Percentage {
                        units: (if neg {
                            -(m * pow10(k as nat))
                        } else {
                            m * pow10(k as nat)
                        }) as i64,
                        scale: 0,
                    }
                } else {
                    Percentage {
                        units: (if neg {
                            -m
                        } else {
                            m
                        }) as i64,
                        scale: (-k) as usize,
                    }
                },
            )
        }),
{
    lemma_text_parts(sign, int_part, frac, exp);
}

/// A number that starts with a digit names neither infinity nor NaN.
proof fn lemma_digit_first_not_special(b: Seq<char>)
    requires
        unsigned_part(b).len() > 0,
        is_digit(unsigned_part(b)[0]),
    ensures
        !is_special(b),
{
    reveal_strlit("inf");
    reveal_strlit("INF");
    reveal_strlit("infinity");
    reveal_strlit("INFINITY");
    reveal_strlit("nan");
    reveal_strlit("NAN");
    let u = unsigned_part(b);
    assert(!word_matches(u, "inf"@, "INF"@) && !word_matches(u, "infinity"@, "INFINITY"@) && !word_matches(
        u,
        "nan"@,
        "NAN"@,
    )) by {
        if u.len() == 3 || u.len() == 8 {
            assert(u[0] != 'i' && u[0] != 'I' && u[0] != 'n' && u[0] != 'N');
        }
    }
}

/// The parts of the text `sign digits[.frac][exponent]%` as the reader
/// sees them.
proof fn lemma_text_parts(sign: Seq<char>, int_part: Seq<char>, frac: Seq<char>, exp: Seq<char>)
    requires
        sign.len() <= 1,
        sign.len() == 1 ==> sign[0] == '+' || sign[0] == '-',
        int_part.len() > 0,
        all_digits(int_part),
        all_digits(frac),
        exp_ok(exp),
    ensures
        ({
            let b = percentage_text(sign, int_part, frac, exp).drop_last();
            &&& !is_special(b)
            &&& int_digits(b) == int_part
            &&& frac_digits(b) == frac
            &&& exponent_part(b) == exp
            &&& is_negative(b) == (sign == seq!['-'])
        }),
{
    let s = percentage_text(sign, int_part, frac, exp);
    let dot_frac = if frac.len() > 0 {
        seq!['.'] + frac
    } else {
        Seq::empty()
    };
    let b = s.drop_last();
    assert(b =~= sign + int_part + dot_frac + exp);
    assert(is_digit(int_part[0]));
    if sign.len() == 0 {
        assert(b[0] == int_part[0]);
    } else {
        assert(b[0] == sign[0]);
    }
    assert(sign_len(b) == sign.len());
    let u = unsigned_part(b);
    assert(u =~= int_part + (dot_frac + exp));
    assert(u[0] == int_part[0]);
    lemma_digit_first_not_special(b);
    assert forall|j: int| 0 <= j < int_part.len() implies is_digit(#[trigger] u[j]) by {
        assert(u[j] == int_part[j]);
    }
    if frac.len() > 0 {
        assert(u[int_part.len() as int] == '.');
    } else if exp.len() > 0 {
        assert(u[int_part.len() as int] == exp[0]);
    }
    lemma_leading_digits(u, int_part.len() as int);
    assert(int_digits(b) =~= int_part);
    assert(after_int(b) =~= dot_frac + exp);
    if frac.len() > 0 {
        assert(has_point(b));
        let ap = after_point(b);
        assert(ap =~= frac + exp);
        assert forall|j: int| 0 <= j < frac.len() implies is_digit(#[trigger] ap[j]) by {
            assert(ap[j] == frac[j]);
        }
        if exp.len() > 0 {
            assert(ap[frac.len() as int] == exp[0]);
        }
        lemma_leading_digits(ap, frac.len() as int);
    } else {
        if exp.len() > 0 {
            assert(after_int(b)[0] == exp[0]);
        }
        assert(!has_point(b));
    }
    assert(frac_digits(b) =~= frac);
    assert(exponent_part(b) =~= exp);
    assert(is_negative(b) == (sign == seq!['-'])) by {
        if sign.len() == 1 && sign[0] == '-' {
            assert(sign =~= seq!['-']);
        }
    }
}

} // verus!
