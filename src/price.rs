use vstd::prelude::*;
use vstd::string::*;

verus! {

/// Largest number of fractional digits a `Price` may carry.
pub const MAX_SCALE: u8 = 18;

/// An exact decimal price: `units / 10^scale`.
#[derive(Clone, Copy, Debug, PartialEq, Eq, Structural)]
pub struct Price {
    pub units: i64,
    pub scale: u8,
}

pub open spec fn pow10(n: nat) -> nat
    decreases n,
{
    if n == 0 {
        1
    } else {
        10 * pow10((n - 1) as nat)
    }
}

pub open spec fn digit_char(d: nat) -> char {
    seq!['0', '1', '2', '3', '4', '5', '6', '7', '8', '9'][d as int]
}

/// Decimal digits of `n`, without leading zeros ("0" for zero).
pub open spec fn digits_of(n: nat) -> Seq<char>
    decreases n,
{
    if n < 10 {
        seq![digit_char(n)]
    } else {
        digits_of(n / 10).push(digit_char(n % 10))
    }
}

/// The lowest `w` decimal digits of `n`, with leading zeros.
pub open spec fn padded_digits(n: nat, w: nat) -> Seq<char>
    decreases w,
{
    if w == 0 {
        Seq::empty()
    } else {
        padded_digits(n / 10, (w - 1) as nat).push(digit_char(n % 10))
    }
}

pub open spec fn zeros(w: nat) -> Seq<char> {
    Seq::new(w, |i: int| '0')
}

/// `n / d` rounded to the nearest integer, ties to the even one.
pub open spec fn round_half_even(n: nat, d: nat) -> nat
    recommends
        d > 0,
{
    let q = n / d;
    let r = n % d;
    if 2 * r > d || (2 * r == d && q % 2 == 1) {
        q + 1
    } else {
        q
    }
}

pub open spec fn with_fraction(int_digits: Seq<char>, frac: Seq<char>) -> Seq<char> {
    if frac.len() == 0 {
        int_digits
    } else {
        int_digits + seq!['.'] + frac
    }
}

impl Price {
    pub open spec fn wf(self) -> bool {
        self.scale <= MAX_SCALE
    }

    pub open spec fn magnitude(self) -> nat {
        if self.units < 0 {
            (-self.units) as nat
        } else {
            self.units as nat
        }
    }

    pub open spec fn sign_text(self) -> Seq<char> {
        if self.units < 0 {
            seq!['-']
        } else {
            Seq::empty()
        }
    }

    /// The price written with exactly `prec` fractional digits: padded with
    /// zeros when it has fewer, rounded half to even when it has more. The
    /// sign follows the stored price, so a small negative price reads "-0.00".
    pub open spec fn text(self, prec: nat) -> Seq<char> {
        let a = self.magnitude();
        let s = self.scale as nat;
        if prec >= s {
            self.sign_text() + with_fraction(
                digits_of(a / pow10(s)),
                padded_digits(a % pow10(s), s) + zeros((prec - s) as nat),
            )
        } else {
            let q = round_half_even(a, pow10((s - prec) as nat));
            self.sign_text() + with_fraction(
                digits_of(q / pow10(prec)),
                padded_digits(q % pow10(prec), prec),
            )
        }
    }

    pub fn zero() -> (r: Price)
        ensures
            r.units == 0,
            r.scale == 0,
    {
        Price { units: 0, scale: 0 }
    }

    pub fn new(units: i64, scale: u8) -> (r: Option<Price>)
        ensures
            r == (if scale <= MAX_SCALE {
                Some(Price { units, scale })
            } else {
                None::<Price>
            }),
    {
        if scale <= MAX_SCALE {
            Some(Price { units, scale })
        } else {
            None
        }
    }
}


proof fn lemma_pow10_mono(n: nat, m: nat)
    requires
        n <= m,
    ensures
        1 <= pow10(n) <= pow10(m),
    decreases m,
{
    if m > n {
        lemma_pow10_mono(n, (m - 1) as nat);
    } else if n > 0 {
        lemma_pow10_mono(0, (n - 1) as nat);
    }
}

proof fn lemma_padded_len(n: nat, w: nat)
    ensures
        padded_digits(n, w).len() == w,
    decreases w,
{
    if w > 0 {
        lemma_padded_len(n / 10, (w - 1) as nat);
    }
}

/// `10^k` as a machine integer.
fn ten_pow(k: u8) -> (r: u64)
    requires
        k <= MAX_SCALE,
    ensures
        r as nat == pow10(k as nat),
        1 <= r <= 1_000_000_000_000_000_000,
{
    proof {
        reveal_with_fuel(pow10, 19);
    }
    assert(pow10(18) == 1_000_000_000_000_000_000nat);
    let mut r: u64 = 1;
    let mut i: u8 = 0;
    while i < k
        invariant
            i <= k <= MAX_SCALE,
            r as nat == pow10(i as nat),
            pow10(18) == 1_000_000_000_000_000_000nat,
        decreases k - i,
    {
        proof {
            lemma_pow10_mono((i + 1) as nat, 18);
            assert(pow10((i + 1) as nat) == 10 * pow10(i as nat));
        }
        r = r * 10;
        i = i + 1;
    }
    proof {
        lemma_pow10_mono(0, k as nat);
        lemma_pow10_mono(k as nat, 18);
    }
    r
}

fn digit_text(d: u64) -> (r: &'static str)
    requires
        d < 10,
    ensures
        r@ == seq![digit_char(d as nat)],
{
    proof {
        reveal_strlit("0");
        reveal_strlit("1");
        reveal_strlit("2");
        reveal_strlit("3");
        reveal_strlit("4");
        reveal_strlit("5");
        reveal_strlit("6");
        reveal_strlit("7");
        reveal_strlit("8");
        reveal_strlit("9");
    }
    match d {
        0 => "0",
        1 => "1",
        2 => "2",
        3 => "3",
        4 => "4",
        5 => "5",
        6 => "6",
        7 => "7",
        8 => "8",
        _ => "9",
    }
}

fn push_digits(out: &mut String, n: u64)
    ensures
        final(out)@ == old(out)@ + digits_of(n as nat),
    decreases n,
{
    if n >= 10 {
        push_digits(out, n / 10);
    }
    let d = digit_text(n % 10);
    out.append(d);
    assert(final(out)@ =~= old(out)@ + digits_of(n as nat));
}

fn push_padded(out: &mut String, n: u64, w: u8)
    ensures
        final(out)@ == old(out)@ + padded_digits(n as nat, w as nat),
    decreases w,
{
    if w == 0 {
        assert(padded_digits(n as nat, 0) =~= Seq::<char>::empty());
        assert(out@ =~= out@ + padded_digits(n as nat, 0));
        return;
    }
    push_padded(out, n / 10, w - 1);
    let d = digit_text(n % 10);
    out.append(d);
    assert(final(out)@ =~= old(out)@ + padded_digits(n as nat, w as nat));
}

fn push_zeros(out: &mut String, w: usize)
    ensures
        final(out)@ == old(out)@ + zeros(w as nat),
{
    let ghost start = out@;
    let mut i: usize = 0;
    proof {
        reveal_strlit("0");
    }
    assert(start =~= start + zeros(0));
    while i < w
        invariant
            i <= w,
            out@ == start + zeros(i as nat),
        decreases w - i,
    {
        proof {
            reveal_strlit("0");
        }
        out.append("0");
        i = i + 1;
        assert(out@ =~= start + zeros(i as nat));
    }
}

impl Price {
    /// Renders the price with exactly `precision` fractional digits.
    pub fn format_price(&self, precision: usize) -> (r: String)
        requires
            self.wf(),
        ensures
            r@ == self.text(precision as nat),
    {
        let mut out = String::new();
        proof {
            reveal_strlit("-");
            reveal_strlit(".");
        }
        if self.units < 0 {
            out.append("-");
        }
        assert(out@ == self.sign_text());
        let a: u64 = if self.units < 0 {
            (0i128 - self.units as i128) as u64
        } else {
            self.units as u64
        };
        assert(a as nat == self.magnitude());
        let ghost prec = precision as nat;
        let ghost sc = self.scale as nat;
        if precision >= self.scale as usize {
            let p = ten_pow(self.scale);
            push_digits(&mut out, a / p);
            let ghost before_frac = out@;
            if precision > 0 {
                out.append(".");
                push_padded(&mut out, a % p, self.scale);
                push_zeros(&mut out, precision - self.scale as usize);
                proof {
                    lemma_padded_len((a % p) as nat, sc);
                }
                assert(out@ =~= self.text(prec));
            } else {
                assert(padded_digits((a % p) as nat, 0) =~= Seq::<char>::empty());
                assert(zeros(0) =~= Seq::<char>::empty());
                assert(out@ =~= self.text(prec));
            }
        } else {
            let d = ten_pow(self.scale - precision as u8);
            let q0 = a / d;
            let rem = a % d;
            proof {
                lemma_pow10_mono(1, (sc - prec) as nat);
                reveal_with_fuel(pow10, 2);
            }
            assert(q0 < 1_000_000_000_000_000_000) by {
                vstd::arithmetic::div_mod::lemma_div_is_ordered_by_denominator(a as int, 10, d as int);
            }
            let q = if 2 * rem > d || (2 * rem == d && q0 % 2 == 1) {
                q0 + 1
            } else {
                q0
            };
            assert(q as nat == round_half_even(a as nat, d as nat));
            let p = ten_pow(precision as u8);
            push_digits(&mut out, q / p);
            if precision > 0 {
                out.append(".");
                push_padded(&mut out, q % p, precision as u8);
                assert(out@ =~= self.text(prec));
            } else {
                assert(padded_digits((q % p) as nat, 0) =~= Seq::<char>::empty());
                assert(out@ =~= self.text(prec));
            }
        }
        out
    }
}


pub open spec fn is_digit(c: char) -> bool {
    '0' <= c && c <= '9'
}

pub open spec fn digit_value(c: char) -> nat {
    (c as u32 - '0' as u32) as nat
}

pub open spec fn all_digits(s: Seq<char>) -> bool {
    forall|i: int| 0 <= i < s.len() ==> is_digit(#[trigger] s[i])
}

/// The number that a run of decimal digits spells.
pub open spec fn digits_value(s: Seq<char>) -> nat
    decreases s.len(),
{
    if s.len() == 0 {
        0
    } else {
        digits_value(s.drop_last()) * 10 + digit_value(s.last())
    }
}

/// Length of the run of digits that `b` starts with.
pub open spec fn digit_run(b: Seq<char>) -> nat
    decreases b.len(),
{
    if b.len() == 0 || !is_digit(b[0]) {
        0
    } else {
        1 + digit_run(b.drop_first())
    }
}

pub open spec fn is_negative_text(t: Seq<char>) -> bool {
    t.len() > 0 && t[0] == '-'
}

pub open spec fn unsigned_text(t: Seq<char>) -> Seq<char> {
    if is_negative_text(t) {
        t.drop_first()
    } else {
        t
    }
}

/// The digits after the point, or nothing when there is no point.
pub open spec fn fraction_digits(b: Seq<char>) -> Seq<char> {
    let k = digit_run(b) as int;
    if k == b.len() {
        Seq::empty()
    } else {
        b.subrange(k + 1, b.len() as int)
    }
}

/// Unsigned decimal text: one or more digits, then optionally a point
/// followed by one or more digits.
pub open spec fn is_decimal_text(b: Seq<char>) -> bool {
    let k = digit_run(b) as int;
    k > 0 && (k == b.len() || (b[k] == '.' && fraction_digits(b).len() > 0 && all_digits(
        fraction_digits(b),
    )))
}

/// The digits of the number with the point taken out.
pub open spec fn all_number_digits(b: Seq<char>) -> Seq<char> {
    b.take(digit_run(b) as int) + fraction_digits(b)
}

/// The price that `t` denotes, when `t` is decimal text (with an optional
/// leading '-') whose digits fit a `Price`.
pub open spec fn parsed_price(t: Seq<char>) -> Option<Price> {
    let b = unsigned_text(t);
    let v = digits_value(all_number_digits(b));
    let scale = fraction_digits(b).len();
    if is_decimal_text(b) && scale <= MAX_SCALE && v <= MAX_UNITS {
        Some(
            Price {
                units: if is_negative_text(t) {
                    -v
                } else {
                    v as int
                } as i64,
                scale: scale as u8,
            },
        )
    } else {
        None
    }
}

proof fn lemma_digit_run(b: Seq<char>, k: int)
    requires
        0 <= k <= b.len(),
        forall|j: int| 0 <= j < k ==> is_digit(#[trigger] b[j]),
        k == b.len() || !is_digit(b[k]),
    ensures
        digit_run(b) == k,
    decreases k,
{
    if k > 0 {
        let r = b.drop_first();
        assert forall|j: int| 0 <= j < k - 1 implies is_digit(#[trigger] r[j]) by {
            assert(r[j] == b[j + 1]);
        }
        lemma_digit_run(r, k - 1);
    }
}

proof fn lemma_digit_run_at_least(b: Seq<char>, m: int)
    requires
        0 <= m <= b.len(),
        forall|j: int| 0 <= j < m ==> is_digit(#[trigger] b[j]),
    ensures
        digit_run(b) >= m,
    decreases m,
{
    if m > 0 {
        let r = b.drop_first();
        assert forall|j: int| 0 <= j < m - 1 implies is_digit(#[trigger] r[j]) by {
            assert(r[j] == b[j + 1]);
        }
        lemma_digit_run_at_least(r, m - 1);
    }
}

proof fn lemma_digit_run_le(b: Seq<char>)
    ensures
        digit_run(b) <= b.len(),
    decreases b.len(),
{
    if b.len() > 0 {
        lemma_digit_run_le(b.drop_first());
    }
}

proof fn lemma_digits_value_prefix(s: Seq<char>, i: int)
    requires
        0 <= i <= s.len(),
    ensures
        digits_value(s.take(i)) <= digits_value(s),
    decreases s.len(),
{
    if i < s.len() {
        lemma_digits_value_prefix(s.drop_last(), i);
        assert(s.drop_last().take(i) =~= s.take(i));
    } else {
        assert(s.take(i) =~= s);
    }
}

proof fn lemma_digits_value_push(s: Seq<char>, c: char)
    ensures
        digits_value(s.push(c)) == digits_value(s) * 10 + digit_value(c),
{
    assert(s.push(c).drop_last() =~= s);
}

proof fn lemma_exceeds(v: int, d: int)
    requires
        0 <= d <= 9,
        v > (MAX_UNITS - d) / 10,
    ensures
        v * 10 + d > MAX_UNITS,
{
    let m = MAX_UNITS - d;
    vstd::arithmetic::div_mod::lemma_fundamental_div_mod(m, 10);
}

fn is_digit_char(c: char) -> (r: bool)
    ensures
        r == is_digit(c),
{
    '0' <= c && c <= '9'
}

/// Largest value the digits of a `Price` may spell.
pub const MAX_UNITS: u64 = 9_223_372_036_854_775_807;

/// Reads decimal price text such as "42.5" or "-0.001".
pub fn parse_price(text: &str) -> (r: Option<Price>)
    ensures
        r == parsed_price(text@),
        r matches Some(p) ==> p.wf(),
{
    let ghost t = text@;
    let n = text.unicode_len();
    let neg = n > 0 && text.get_char(0) == '-';
    let off: usize = if neg { 1 } else { 0 };
    let ghost b = unsigned_text(t);
    assert(b.len() == n - off);
    assert(forall|j: int| 0 <= j < b.len() ==> b[j] == t[j + off]);
    // the digits before the point
    let mut j: usize = 0;
    let mut v: u64 = 0;
    let mut scanning = true;
    while scanning && off + j < n
        invariant
            b == unsigned_text(t),
            b.len() == n - off,
            n == t.len(),
            forall|x: int| 0 <= x < b.len() ==> b[x] == t[x + off],
            t == text@,
            off + j <= n,
            forall|x: int| 0 <= x < j ==> is_digit(#[trigger] b[x]),
            !scanning ==> off + j < n && !is_digit(b[j as int]),
            v as nat == digits_value(b.take(j as int)),
            v <= MAX_UNITS,
        decreases n - off - j + (if scanning { 1int } else { 0int }),
    {
        let c = text.get_char(off + j);
        if is_digit_char(c) {
            let d = (c as u32 - '0' as u32) as u64;
            proof {
                assert(b.take(j + 1) =~= b.take(j as int).push(c));
                lemma_digits_value_push(b.take(j as int), c);
            }
            if v > (MAX_UNITS - d) / 10 {
                proof {
                    lemma_exceeds(v as int, d as int);
                    lemma_digit_run_at_least(b, j + 1);
                    lemma_digit_run_le(b);
                    let all = all_number_digits(b);
                    assert(all.take(j + 1) =~= b.take(j + 1));
                    lemma_digits_value_prefix(all, j + 1);
                }
                return None;
            }
            v = v * 10 + d;
            j = j + 1;
        } else {
            scanning = false;
        }
    }
    let k = j;
    proof {
        lemma_digit_run(b, k as int);
    }
    if k == 0 {
        return None;
    }
    if off + k == n {
        assert(fraction_digits(b) =~= Seq::<char>::empty());
        assert(all_number_digits(b) =~= b.take(k as int));
        let units: i64 = if neg { -(v as i64) } else { v as i64 };
        return Some(Price { units, scale: 0 });
    }
    if text.get_char(off + k) != '.' {
        return None;
    }
    let frac_len = n - off - k - 1;
    if frac_len == 0 || frac_len > MAX_SCALE as usize {
        return None;
    }
    let ghost f = fraction_digits(b);
    assert(f.len() == frac_len);
    assert(forall|x: int| 0 <= x < f.len() ==> f[x] == t[x + off + k + 1]);
    let mut i: usize = 0;
    while i < frac_len
        invariant
            b == unsigned_text(t),
            b.len() == n - off,
            n == t.len(),
            t == text@,
            f == fraction_digits(b),
            f.len() == frac_len,
            frac_len == n - off - k - 1,
            digit_run(b) == k,
            forall|x: int| 0 <= x < f.len() ==> f[x] == t[x + off + k + 1],
            i <= frac_len,
            forall|x: int| 0 <= x < i ==> is_digit(#[trigger] f[x]),
            v as nat == digits_value(b.take(k as int) + f.take(i as int)),
            v <= MAX_UNITS,
        decreases frac_len - i,
    {
        let c = text.get_char(off + k + 1 + i);
        if !is_digit_char(c) {
            assert(f[i as int] == c);
            assert(!is_digit(f[i as int]));
            assert(!all_digits(f));
            return None;
        }
        let d = (c as u32 - '0' as u32) as u64;
        proof {
            assert(b.take(k as int) + f.take(i + 1) =~= (b.take(k as int) + f.take(i as int)).push(c));
            lemma_digits_value_push(b.take(k as int) + f.take(i as int), c);
        }
        if v > (MAX_UNITS - d) / 10 {
            proof {
                lemma_exceeds(v as int, d as int);
                let all = all_number_digits(b);
                assert(all.take(k + i + 1) =~= b.take(k as int) + f.take(i + 1));
                lemma_digits_value_prefix(all, k + i + 1);
            }
            return None;
        }
        v = v * 10 + d;
        i = i + 1;
    }
    assert(f.take(frac_len as int) =~= f);
    assert(b.take(k as int) + f == all_number_digits(b));
    let units: i64 = if neg { -(v as i64) } else { v as i64 };
    Some(Price { units, scale: frac_len as u8 })
}

} // verus!
