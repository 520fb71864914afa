use vstd::prelude::*;
use vstd::arithmetic::div_mod::lemma_fundamental_div_mod_converse;
use vstd::string::StrSliceExecFns;
use vstd::string::StringExecFns;

use crate::error::LedgerError;

verus! {

/// A signed monetary value with exactly four fractional digits, stored as
/// the value multiplied by 10,000.
#[derive(Clone, Copy, Debug, PartialEq, Eq, Structural, Default, Hash)]
pub struct Fixed(i128);

impl View for Fixed {
    type V = int;

    closed spec fn view(&self) -> int {
        self.0 as int
    }
}

pub open spec fn in_range(v: int) -> bool {
    i128::MIN <= v <= i128::MAX
}

pub open spec fn abs_int(v: int) -> nat {
    if v < 0 {
        (-v) as nat
    } else {
        v as nat
    }
}

// ---------------------------------------------------------------------------
// Decimal digits

/// Value of a decimal digit character, or -1 for any other character.
pub open spec fn digit_val(c: char) -> int {
    if c == '0' {
        0
    } else if c == '1' {
        1
    } else if c == '2' {
        2
    } else if c == '3' {
        3
    } else if c == '4' {
        4
    } else if c == '5' {
        5
    } else if c == '6' {
        6
    } else if c == '7' {
        7
    } else if c == '8' {
        8
    } else if c == '9' {
        9
    } else {
        -1
    }
}

pub open spec fn is_digit(c: char) -> bool {
    digit_val(c) >= 0
}

/// The character of a digit `d < 10`.
pub open spec fn digit_char(d: nat) -> char {
    if d == 0 {
        '0'
    } else if d == 1 {
        '1'
    } else if d == 2 {
        '2'
    } else if d == 3 {
        '3'
    } else if d == 4 {
        '4'
    } else if d == 5 {
        '5'
    } else if d == 6 {
        '6'
    } else if d == 7 {
        '7'
    } else if d == 8 {
        '8'
    } else {
        '9'
    }
}

pub open spec fn all_digits(s: Seq<char>) -> bool {
    forall|i: int| 0 <= i < s.len() ==> #[trigger] is_digit(s[i])
}

/// The number that a string of decimal digits denotes (most significant first).
pub open spec fn digits_val(s: Seq<char>) -> nat
    decreases s.len(),
{
    if s.len() == 0 {
        0
    } else {
        digits_val(s.drop_last()) * 10 + digit_val(s.last()) as nat
    }
}

/// The decimal digits of `n`, without leading zeros ("0" for zero).
pub open spec fn nat_digits(n: nat) -> Seq<char>
    decreases n,
{
    if n < 10 {
        seq![digit_char(n)]
    } else {
        nat_digits(n / 10).push(digit_char(n % 10))
    }
}

pub open spec fn pow10(n: nat) -> nat
    decreases n,
{
    if n == 0 {
        1
    } else {
        10 * pow10((n - 1) as nat)
    }
}

// ---------------------------------------------------------------------------
// Text form

/// Whether the text starts with a minus sign.
pub open spec fn text_negative(s: Seq<char>) -> bool {
    s.len() > 0 && s[0] == '-'
}

/// The text without its leading minus sign.
pub open spec fn text_body(s: Seq<char>) -> Seq<char> {
    if text_negative(s) {
        s.subrange(1, s.len() as int)
    } else {
        s
    }
}

/// `b` is an integer part of one or more digits, a point at index `p`, and a
/// fractional part of one to four digits.
pub open spec fn split_at_point(b: Seq<char>, p: int) -> bool {
    &&& 1 <= p
    &&& p + 2 <= b.len() <= p + 5
    &&& b[p] == '.'
    &&& all_digits(b.subrange(0, p))
    &&& all_digits(b.subrange(p + 1, b.len() as int))
}

/// Scaled magnitude of a body split at `p`: the fractional digits are
/// extended with zeros to four places.
pub open spec fn body_magnitude(b: Seq<char>, p: int) -> nat {
    let frac = b.subrange(p + 1, b.len() as int);
    digits_val(b.subrange(0, p)) * 10000 + digits_val(frac) * pow10((4 - frac.len()) as nat)
}

/// Scaled value of text whose body splits at `p`.
pub open spec fn text_value(s: Seq<char>, p: int) -> int {
    let m = body_magnitude(text_body(s), p) as int;
    if text_negative(s) {
        -m
    } else {
        m
    }
}

/// The four fractional digits of a scaled magnitude below 10,000.
pub open spec fn frac_digits(f: nat) -> Seq<char> {
    seq![
        digit_char(f / 1000),
        digit_char((f / 100) % 10),
        digit_char((f / 10) % 10),
        digit_char(f % 10),
    ]
}

/// The text of a scaled value: a minus sign for negative values, the whole
/// part without leading zeros, a point and four fractional digits.
pub open spec fn display_text(v: int) -> Seq<char> {
    let m = abs_int(v);
    let sign = if v < 0 {
        seq!['-']
    } else {
        Seq::<char>::empty()
    };
    sign + nat_digits(m / 10000) + seq!['.'] + frac_digits(m % 10000)
}

/// Text that display reproduces: no leading zero in a whole part of two or
/// more digits, and no minus sign on zero.
pub open spec fn canonical_text(s: Seq<char>, p: int) -> bool {
    let b = text_body(s);
    &&& (p == 1 || b[0] != '0')
    &&& (text_negative(s) ==> body_magnitude(b, p) > 0)
}

pub open spec fn zeros(n: nat) -> Seq<char> {
    Seq::new(n, |i: int| '0')
}

// ---------------------------------------------------------------------------
// Lemmas

proof fn lemma_div_mod(x: int, d: int, q: int, r: int)
    requires
        d > 0,
        0 <= r < d,
        x == q * d + r,
    ensures
        x / d == q,
        x % d == r,
{
    lemma_fundamental_div_mod_converse(x, d, q, r);
}

proof fn lemma_digit_roundtrip(c: char)
    requires
        is_digit(c),
    ensures
        digit_char(digit_val(c) as nat) == c,
        digit_val(c) < 10,
{
}

proof fn lemma_leading_nonzero(s: Seq<char>)
    requires
        s.len() >= 1,
        all_digits(s),
        s[0] != '0',
    ensures
        digits_val(s) >= 1,
    decreases s.len(),
{
    assert(is_digit(s[s.len() - 1]));
    assert(is_digit(s[0]));
    let t = s.drop_last();
    if s.len() == 1 {
        assert(t.len() == 0);
        assert(digits_val(t) == 0);
    } else {
        assert(t[0] == s[0]);
        assert(all_digits(t)) by {
            assert forall|i: int| 0 <= i < t.len() implies is_digit(t[i]) by {
                assert(t[i] == s[i]);
            }
        }
        lemma_leading_nonzero(t);
    }
}

/// The digits of the number that a digit string denotes are that string,
/// when it has no leading zero.
proof fn lemma_nat_digits_of_val(s: Seq<char>)
    requires
        s.len() >= 1,
        all_digits(s),
        s.len() == 1 || s[0] != '0',
    ensures
        nat_digits(digits_val(s)) == s,
    decreases s.len(),
{
    let c = s.last();
    assert(is_digit(s[s.len() - 1]));
    lemma_digit_roundtrip(c);
    let t = s.drop_last();
    if s.len() == 1 {
        assert(t.len() == 0);
        assert(digits_val(t) == 0);
        assert(digits_val(s) == digit_val(c));
        assert(nat_digits(digits_val(s)) =~= s);
    } else {
        assert(all_digits(t)) by {
            assert forall|i: int| 0 <= i < t.len() implies is_digit(t[i]) by {
                assert(t[i] == s[i]);
            }
        }
        assert(t[0] == s[0]);
        lemma_leading_nonzero(t);
        lemma_nat_digits_of_val(t);
        let n = digits_val(s);
        let d = digit_val(c);
        lemma_div_mod(n as int, 10, digits_val(t) as int, d);
        assert(nat_digits(n) =~= s);
    }
}

proof fn lemma_frac_digits_of_val(f: Seq<char>)
    requires
        1 <= f.len() <= 4,
        all_digits(f),
    ensures
        digits_val(f) * pow10((4 - f.len()) as nat) < 10000,
        frac_digits(digits_val(f) * pow10((4 - f.len()) as nat)) == f + zeros(
            (4 - f.len()) as nat,
        ),
{
    reveal_with_fuel(digits_val, 5);
    reveal_with_fuel(pow10, 5);
    assert(is_digit(f[0]));
    lemma_digit_roundtrip(f[0]);
    let a = digit_val(f[0]);
    if f.len() == 1 {
        assert(f.drop_last().len() == 0);
        let v = a * 1000;
        lemma_div_mod(v, 1000, a, 0);
        lemma_div_mod(v, 100, a * 10, 0);
        lemma_div_mod(v, 10, a * 100, 0);
        lemma_div_mod(a * 10, 10, a, 0);
        lemma_div_mod(a * 100, 10, a * 10, 0);
        lemma_div_mod(v, 10, a * 100, 0);
        assert(frac_digits(v as nat) =~= f + zeros(3));
    } else {
        assert(is_digit(f[1]));
        lemma_digit_roundtrip(f[1]);
        let b = digit_val(f[1]);
        if f.len() == 2 {
            assert(f.drop_last()[0] == f[0]);
            assert(f.drop_last().drop_last().len() == 0);
            let v = (a * 10 + b) * 100;
            lemma_div_mod(v, 1000, a, b * 100);
            lemma_div_mod(v, 100, a * 10 + b, 0);
            lemma_div_mod(a * 10 + b, 10, a, b);
            lemma_div_mod(v, 10, (a * 10 + b) * 10, 0);
            lemma_div_mod((a * 10 + b) * 10, 10, a * 10 + b, 0);
            lemma_div_mod(v, 10, (a * 10 + b) * 10, 0);
            assert(frac_digits(v as nat) =~= f + zeros(2));
        } else {
            assert(is_digit(f[2]));
            lemma_digit_roundtrip(f[2]);
            let c = digit_val(f[2]);
            if f.len() == 3 {
                assert(f.drop_last()[0] == f[0]);
                assert(f.drop_last()[1] == f[1]);
                assert(f.drop_last().drop_last()[0] == f[0]);
                let v = ((a * 10 + b) * 10 + c) * 10;
                lemma_div_mod(v, 1000, a, b * 100 + c * 10);
                lemma_div_mod(v, 100, a * 10 + b, c * 10);
                lemma_div_mod(a * 10 + b, 10, a, b);
                lemma_div_mod(v, 10, (a * 10 + b) * 10 + c, 0);
                lemma_div_mod((a * 10 + b) * 10 + c, 10, a * 10 + b, c);
                assert(frac_digits(v as nat) =~= f + zeros(1));
            } else {
                assert(is_digit(f[3]));
                lemma_digit_roundtrip(f[3]);
                let d = digit_val(f[3]);
                assert(f.drop_last()[0] == f[0]);
                assert(f.drop_last()[1] == f[1]);
                assert(f.drop_last()[2] == f[2]);
                assert(f.drop_last().drop_last()[0] == f[0]);
                assert(f.drop_last().drop_last()[1] == f[1]);
                assert(f.drop_last().drop_last().drop_last()[0] == f[0]);
                let v = ((a * 10 + b) * 10 + c) * 10 + d;
                lemma_div_mod(v, 1000, a, b * 100 + c * 10 + d);
                lemma_div_mod(v, 100, a * 10 + b, c * 10 + d);
                lemma_div_mod(a * 10 + b, 10, a, b);
                lemma_div_mod(v, 10, (a * 10 + b) * 10 + c, d);
                lemma_div_mod((a * 10 + b) * 10 + c, 10, a * 10 + b, c);
                assert(frac_digits(v as nat) =~= f + zeros(0));
            }
        }
    }
}

/// A decimal text has at most one split: the point is the first character
/// that is not a digit.
pub proof fn lemma_split_unique(b: Seq<char>, p: int, q: int)
    requires
        split_at_point(b, p),
        split_at_point(b, q),
    ensures
        p == q,
{
    if p < q {
        assert(b.subrange(0, q)[p] == b[p]);
        assert(is_digit(b.subrange(0, q)[p]));
    } else if q < p {
        assert(b.subrange(0, p)[q] == b[q]);
        assert(is_digit(b.subrange(0, p)[q]));
    }
}

/// Displaying parsed text gives the text back, with its fractional part
/// extended by zeros to four digits.
pub proof fn lemma_display_parse_roundtrip(s: Seq<char>, p: int)
    requires
        split_at_point(text_body(s), p),
        canonical_text(s, p),
        in_range(text_value(s, p)),
    ensures
        display_text(text_value(s, p)) == s + zeros(
            (4 - (text_body(s).len() - p - 1)) as nat,
        ),
{
    let b = text_body(s);
    let ip = b.subrange(0, p);
    let fp = b.subrange(p + 1, b.len() as int);
    let z = zeros((4 - fp.len()) as nat);
    let iv = digits_val(ip);
    let fv = digits_val(fp) * pow10((4 - fp.len()) as nat);
    lemma_frac_digits_of_val(fp);
    assert(ip[0] == b[0]);
    lemma_nat_digits_of_val(ip);
    let m = body_magnitude(b, p);
    assert(m == iv * 10000 + fv);
    lemma_div_mod(m as int, 10000, iv as int, fv as int);
    assert(abs_int(text_value(s, p)) == m);
    assert(b =~= ip + seq!['.'] + fp);
    if text_negative(s) {
        assert(s =~= seq!['-'] + b);
        assert(display_text(text_value(s, p)) =~= s + z);
    } else {
        assert(display_text(text_value(s, p)) =~= s + z);
    }
}

/// Subtracting what was added gives back the first operand: when `c` is
/// `a + b`, `c - b` is in range and the only value it can be is `a`.
pub proof fn lemma_add_then_sub(a: Fixed, b: Fixed, c: Fixed)
    requires
        c@ == a@ + b@,
    ensures
        in_range(c@ - b@),
        c@ - b@ == a@,
        forall|x: Fixed| x@ == c@ - b@ ==> x == a,
{
    a.lemma_in_range();
}

// ---------------------------------------------------------------------------
// Executable operations

fn digit_of(c: char) -> (r: Option<u8>)
    ensures
        r is Some <==> is_digit(c),
        r matches Some(d) ==> d as int == digit_val(c) && d < 10,
{
    match c {
        '0' => Some(0),
        '1' => Some(1),
        '2' => Some(2),
        '3' => Some(3),
        '4' => Some(4),
        '5' => Some(5),
        '6' => Some(6),
        '7' => Some(7),
        '8' => Some(8),
        '9' => Some(9),
        _ => None,
    }
}

fn digit_str(d: u8) -> (r: &'static str)
    requires
        d < 10,
    ensures
        r@ == seq![digit_char(d as nat)],
{
    proof {
        reveal_strlit("0");
        reveal_strlit("1");
        reveal_strlit("2");
        reveal_strlit("3");
        reveal_strlit("4");
        reveal_strlit("5");
        reveal_strlit("6");
        reveal_strlit("7");
        reveal_strlit("8");
        reveal_strlit("9");
    }
    if d == 0 {
        "0"
    } else if d == 1 {
        "1"
    } else if d == 2 {
        "2"
    } else if d == 3 {
        "3"
    } else if d == 4 {
        "4"
    } else if d == 5 {
        "5"
    } else if d == 6 {
        "6"
    } else if d == 7 {
        "7"
    } else if d == 8 {
        "8"
    } else {
        "9"
    }
}

fn append_digits(n: u128, out: &mut String)
    ensures
        final(out)@ == old(out)@ + nat_digits(n as nat),
    decreases n,
{
    if n >= 10 {
        append_digits(n / 10, out);
    }
    out.append(digit_str((n % 10) as u8));
    proof {
        if n >= 10 {
            assert(final(out)@ =~= old(out)@ + nat_digits(n as nat));
        } else {
            assert(final(out)@ =~= old(out)@ + nat_digits(n as nat));
        }
    }
}

impl Fixed {
    pub proof fn lemma_in_range(&self)
        ensures
            in_range(self@),
    {
    }

    /// Two values with the same scaled integer are the same value.
    pub proof fn lemma_view_eq(&self, other: Fixed)
        requires
            self@ == other@,
        ensures
            *self == other,
    {
    }

    pub fn zero() -> (r: Fixed)
        ensures
            r@ == 0,
    {
        Fixed(0)
    }

    pub fn is_zero(&self) -> (r: bool)
        ensures
            r == (self@ == 0),
    {
        self.0 == 0
    }

    pub fn set_zero(&mut self)
        ensures
            final(self)@ == 0,
    {
        self.0 = 0;
    }

    pub fn is_positive(&self) -> (r: bool)
        ensures
            r == (self@ > 0),
    {
        self.0 > 0
    }

    pub fn is_negative(&self) -> (r: bool)
        ensures
            r == (self@ < 0),
    {
        self.0 < 0
    }

    pub fn checked_add(&self, v: &Fixed) -> (r: Option<Fixed>)
        ensures
            r is Some <==> in_range(self@ + v@),
            r matches Some(s) ==> s@ == self@ + v@,
    {
        match self.0.checked_add(v.0) {
            Some(x) => Some(Fixed(x)),
            None => None,
        }
    }

    pub fn checked_sub(&self, v: &Fixed) -> (r: Option<Fixed>)
        ensures
            r is Some <==> in_range(self@ - v@),
            r matches Some(s) ==> s@ == self@ - v@,
    {
        match self.0.checked_sub(v.0) {
            Some(x) => Some(Fixed(x)),
            None => None,
        }
    }

    pub fn add(self, rhs: Fixed) -> (r: Fixed)
        requires
            in_range(self@ + rhs@),
        ensures
            r@ == self@ + rhs@,
    {
        Fixed(self.0 + rhs.0)
    }

    pub fn sub(self, rhs: Fixed) -> (r: Fixed)
        requires
            in_range(self@ - rhs@),
        ensures
            r@ == self@ - rhs@,
    {
        Fixed(self.0 - rhs.0)
    }

    pub fn neg(self) -> (r: Fixed)
        requires
            self@ > i128::MIN,
        ensures
            r@ == -self@,
    {
        Fixed(-self.0)
    }

    pub fn abs(&self) -> (r: Fixed)
        requires
            self@ > i128::MIN,
        ensures
            r@ == abs_int(self@),
    {
        if self.0 < 0 {
            Fixed(-self.0)
        } else {
            Fixed(self.0)
        }
    }

    /// Parses text of the form `[-]digits.digits` with one to four
    /// fractional digits.
    #[verifier::rlimit(40)]
    pub fn from_str(s: &str) -> (r: Result<Fixed, LedgerError>)
        ensures
            r matches Ok(f) ==> exists|p: int|
                split_at_point(text_body(s@), p) && f@ == text_value(s@, p),
            r is Err ==> r == Err::<Fixed, LedgerError>(LedgerError::ParseError),
            r is Err <==> forall|p: int|
                split_at_point(text_body(s@), p) ==> !in_range(text_value(s@, p)),
    {
        let n = s.unicode_len();
        let neg = n > 0 && s.get_char(0) == '-';
        let start: usize = if neg {
            1
        } else {
            0
        };
        let ghost b = text_body(s@);
        assert(b.len() == n - start);
        assert(forall|k: int| 0 <= k < b.len() ==> b[k] == s@[k + start]);
        // whole part
        let mut i: usize = start;
        let mut whole: u128 = 0;
        let mut too_large = false;
        while i < n && digit_of(s.get_char(i)).is_some()
            invariant
                start <= i <= n,
                n == s@.len(),
                b.len() == n - start,
                forall|k: int| 0 <= k < b.len() ==> b[k] == s@[k + start],
                all_digits(b.subrange(0, i - start)),
                !too_large ==> whole == digits_val(b.subrange(0, i - start)),
                too_large ==> digits_val(b.subrange(0, i - start)) > u128::MAX,
                neg == text_negative(s@),
                b == text_body(s@),
                start == (if neg { 1usize } else { 0usize }),
            decreases n - i,
        {
            let d = digit_of(s.get_char(i)).unwrap();
            let ghost pre = b.subrange(0, i - start);
            let ghost cur = b.subrange(0, i + 1 - start);
            assert(cur.drop_last() =~= pre);
            assert(cur.last() == s@[i as int]);
            assert(all_digits(cur)) by {
                assert forall|k: int| 0 <= k < cur.len() implies is_digit(cur[k]) by {
                    if k < pre.len() {
                        assert(cur[k] == pre[k]);
                    }
                }
            }
            if !too_large {
                match whole.checked_mul(10) {
                    Some(w) => match w.checked_add(d as u128) {
                        Some(w2) => {
                            whole = w2;
                        },
                        None => {
                            too_large = true;
                        },
                    },
                    None => {
                        too_large = true;
                    },
                }
            }
            i = i + 1;
        }
        let p: usize = i - start;
        let ghost pi = p as int;
        if p == 0 || i >= n || s.get_char(i) != '.' {
            proof {
                assert forall|q: int| split_at_point(b, q) implies !in_range(text_value(s@, q)) by {
                    if q != pi {
                        if q < pi {
                            assert(is_digit(b.subrange(0, pi)[q]));
                        } else {
                            assert(b.subrange(0, q)[pi] == b[pi]);
                        }
                    }
                }
            }
            return Err(LedgerError::ParseError);
        }
        // fractional part
        let fstart: usize = i + 1;
        let flen: usize = n - fstart;
        if flen < 1 || flen > 4 {
            proof {
                assert forall|q: int| split_at_point(b, q) implies !in_range(text_value(s@, q)) by {
                    lemma_split_unique_hint(b, pi, q);
                }
            }
            return Err(LedgerError::ParseError);
        }
        let mut j: usize = fstart;
        let mut frac: u128 = 0;
        let ghost fb = b.subrange(pi + 1, b.len() as int);
        while j < n
            invariant
                fstart <= j <= n,
                fstart == i + 1,
                i == start + p,
                n == s@.len(),
                b.len() == n - start,
                fb == b.subrange(pi + 1, b.len() as int),
                pi == p,
                forall|k: int| 0 <= k < b.len() ==> b[k] == s@[k + start],
                n - fstart <= 4,
                all_digits(fb.subrange(0, j - fstart)),
                frac == digits_val(fb.subrange(0, j - fstart)),
                frac < pow10((j - fstart) as nat),
                neg == text_negative(s@),
                b == text_body(s@),
                start == (if neg { 1usize } else { 0usize }),
                all_digits(b.subrange(0, pi)),
                b[pi] == '.',
                !too_large ==> whole == digits_val(b.subrange(0, pi)),
                too_large ==> digits_val(b.subrange(0, pi)) > u128::MAX,
            decreases n - j,
        {
            let dd = digit_of(s.get_char(j));
            match dd {
                Some(d) => {
                    let ghost pre = fb.subrange(0, j - fstart);
                    let ghost cur = fb.subrange(0, j + 1 - fstart);
                    assert(cur.drop_last() =~= pre);
                    assert(cur.last() == s@[j as int]);
                    assert(all_digits(cur)) by {
                        assert forall|k: int| 0 <= k < cur.len() implies is_digit(cur[k]) by {
                            if k < pre.len() {
                                assert(cur[k] == pre[k]);
                            }
                        }
                    }
                    reveal_with_fuel(pow10, 5);
                    assert(pow10((j - fstart) as nat) <= 1000);
                    frac = frac * 10 + d as u128;
                    j = j + 1;
                },
                None => {
                    proof {
                        assert(fb[j - fstart] == s@[j as int]);
                        assert forall|q: int| split_at_point(b, q) implies !in_range(
                            text_value(s@, q),
                        ) by {
                            lemma_split_unique_hint(b, pi, q);
                            assert(is_digit(fb[j - fstart]));
                        }
                    }
                    return Err(LedgerError::ParseError);
                },
            }
        }
        assert(fb.subrange(0, j - fstart) =~= fb);
        assert(split_at_point(b, pi)) by {
            assert(b.subrange(0, pi) =~= b.subrange(0, i - start));
        }
        let scale: u128 = if flen == 1 {
            1000
        } else if flen == 2 {
            100
        } else if flen == 3 {
            10
        } else {
            1
        };
        assert(scale == pow10((4 - flen) as nat)) by {
            reveal_with_fuel(pow10, 5);
        }
        assert(frac * scale < 10000) by {
            lemma_frac_digits_of_val(fb);
        }
        if too_large {
            proof {
                assert forall|q: int| split_at_point(b, q) implies !in_range(text_value(s@, q)) by {
                    lemma_split_unique(b, pi, q);
                }
            }
            return Err(LedgerError::ParseError);
        }
        assert(whole == digits_val(b.subrange(0, pi)));
        let magnitude: u128 = match whole.checked_mul(10_000) {
            Some(w) => match w.checked_add(frac * scale) {
                Some(m) => m,
                None => {
                    proof {
                        assert forall|q: int| split_at_point(b, q) implies !in_range(
                            text_value(s@, q),
                        ) by {
                            lemma_split_unique(b, pi, q);
                        }
                    }
                    return Err(LedgerError::ParseError);
                },
            },
            None => {
                proof {
                    assert forall|q: int| split_at_point(b, q) implies !in_range(
                        text_value(s@, q),
                    ) by {
                        lemma_split_unique(b, pi, q);
                    }
                }
                return Err(LedgerError::ParseError);
            },
        };
        assert(magnitude == body_magnitude(b, pi));
        let limit: u128 = 0x8000_0000_0000_0000_0000_0000_0000_0000;
        if neg {
            if magnitude > limit {
                proof {
                    assert forall|q: int| split_at_point(b, q) implies !in_range(
                        text_value(s@, q),
                    ) by {
                        lemma_split_unique(b, pi, q);
                    }
                }
                return Err(LedgerError::ParseError);
            }
            let r = if magnitude == limit {
                i128::MIN
            } else {
                -(magnitude as i128)
            };
            assert(split_at_point(b, pi) && r == text_value(s@, pi));
            Ok(Fixed(r))
        } else {
            if magnitude >= limit {
                proof {
                    assert forall|q: int| split_at_point(b, q) implies !in_range(
                        text_value(s@, q),
                    ) by {
                        lemma_split_unique(b, pi, q);
                    }
                }
                return Err(LedgerError::ParseError);
            }
            assert(split_at_point(b, pi) && magnitude as i128 == text_value(s@, pi));
            Ok(Fixed(magnitude as i128))
        }
    }

    /// The text of the value: see `display_text`.
    pub fn to_string(&self) -> (r: String)
        ensures
            r@ == display_text(self@),
    {
        let m: u128 = if self.0 < 0 {
            ((-(self.0 + 1)) as u128) + 1
        } else {
            self.0 as u128
        };
        assert(m == abs_int(self@));
        let mut out = String::new();
        proof {
            reveal_strlit("-");
            reveal_strlit(".");
        }
        if self.0 < 0 {
            out.append("-");
        }
        append_digits(m / 10_000, &mut out);
        out.append(".");
        let f = m % 10_000;
        out.append(digit_str((f / 1000) as u8));
        out.append(digit_str(((f / 100) % 10) as u8));
        out.append(digit_str(((f / 10) % 10) as u8));
        out.append(digit_str((f % 10) as u8));
        assert(out@ =~= display_text(self@));
        out
    }
}

/// A point at `p` preceded only by digits is where any split must be.
proof fn lemma_split_unique_hint(b: Seq<char>, p: int, q: int)
    requires
        split_at_point(b, q),
        0 <= p < b.len(),
        all_digits(b.subrange(0, p)),
        b[p] == '.',
    ensures
        p == q,
{
    if q < p {
        assert(b.subrange(0, p)[q] == b[q]);
        assert(is_digit(b.subrange(0, p)[q]));
    } else if p < q {
        assert(b.subrange(0, q)[p] == b[p]);
        assert(is_digit(b.subrange(0, q)[p]));
    }
}

} // verus!
