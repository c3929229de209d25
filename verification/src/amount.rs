//! Exact decimal amounts of money, and the way they are written as text.

use crate::text::{
    all_digits, chars_of, decimal_text, decimal_value, digit_char, digit_str, digit_value,
    is_digit, lemma_decimal_text_value, push_decimal, read_decimal,
};
use vstd::prelude::*;
use vstd::slice::slice_subrange;
use vstd::string::*;

verus! {

/// How many units make one whole: an amount has four decimal places.
pub const SCALE: u64 = 10_000;

/// The number of decimal places of an amount.
pub const PLACES: usize = 4;

/// A decimal amount of money, held exactly as a whole number of
/// ten-thousandths. Its view is that number.
#[derive(Clone, Copy, Debug, PartialEq, Eq, Structural)]
pub struct Amount {
    pub units: i64,
}

impl View for Amount {
    type V = int;

    open spec fn view(&self) -> int {
        self.units as int
    }
}

/// Whether a number of ten-thousandths can be held in an `Amount`.
pub open spec fn fits(v: int) -> bool {
    i64::MIN <= v <= i64::MAX
}

/// Ten to the power `e`.
pub open spec fn pow10(e: nat) -> nat
    decreases e,
{
    if e == 0 {
        1
    } else {
        10 * pow10((e - 1) as nat)
    }
}

/// Where the first decimal point of `s` stands; the length of `s` if it has
/// none.
pub open spec fn point_at(s: Seq<char>) -> int
    decreases s.len(),
{
    if s.len() == 0 || s[0] == '.' {
        0
    } else {
        1 + point_at(s.drop_first())
    }
}

/// What an unsigned numeral denotes, in ten-thousandths: digits with at most
/// one decimal point among them, at least one digit in all and at most four
/// after the point.
pub open spec fn magnitude_of_text(body: Seq<char>) -> Option<nat> {
    let point = point_at(body);
    let whole = body.take(point);
    let fraction = if point < body.len() {
        body.skip(point + 1)
    } else {
        Seq::<char>::empty()
    };
    if all_digits(whole) && all_digits(fraction) && whole.len() + fraction.len() > 0
        && fraction.len() <= PLACES {
        Some(
            decimal_value(whole) * (SCALE as nat) + decimal_value(fraction) * pow10(
                (PLACES - fraction.len()) as nat,
            ),
        )
    } else {
        None
    }
}

/// What a field denotes as an amount, in ten-thousandths: an optional sign
/// and an unsigned numeral, with a value that fits.
pub open spec fn amount_of_text(s: Seq<char>) -> Option<int> {
    let negative = s.len() > 0 && s[0] == '-';
    let body = if s.len() > 0 && (s[0] == '-' || s[0] == '+') {
        s.drop_first()
    } else {
        s
    };
    match magnitude_of_text(body) {
        Some(magnitude) => {
            let value = if negative {
                -magnitude
            } else {
                magnitude as int
            };
            if fits(value) {
                Some(value)
            } else {
                None
            }
        },
        None => None,
    }
}

/// The digits after the decimal point for `f` ten-thousandths, `f` below
/// ten thousand: four places without their trailing zeros, but never fewer
/// than one digit.
pub open spec fn fraction_text(f: nat) -> Seq<char> {
    let one = seq![digit_char(f / 1000)];
    let two = one.push(digit_char(f / 100 % 10));
    let three = two.push(digit_char(f / 10 % 10));
    if f % 1000 == 0 {
        one
    } else if f % 100 == 0 {
        two
    } else if f % 10 == 0 {
        three
    } else {
        three.push(digit_char(f % 10))
    }
}

/// The unsigned numeral of `m` ten-thousandths: the whole part, a decimal
/// point and the fraction.
pub open spec fn magnitude_text(m: nat) -> Seq<char> {
    decimal_text(m / (SCALE as nat)) + seq!['.'] + fraction_text(m % (SCALE as nat))
}

/// The text of `v` ten-thousandths: a `-` if negative, then the numeral of
/// its magnitude.
pub open spec fn amount_text(v: int) -> Seq<char> {
    if v < 0 {
        seq!['-'] + magnitude_text((-v) as nat)
    } else {
        magnitude_text(v as nat)
    }
}

/// The first decimal point stands at `i` if no earlier character is one
/// and either `s` ends at `i` or a point stands there.
pub proof fn lemma_point_at(s: Seq<char>, i: int)
    requires
        0 <= i <= s.len(),
        forall|j: int| 0 <= j < i ==> s[j] != '.',
        i == s.len() || s[i] == '.',
    ensures
        point_at(s) == i,
    decreases s.len(),
{
    if i > 0 {
        let rest = s.drop_first();
        assert forall|j: int| 0 <= j < i - 1 implies rest[j] != '.' by {
            assert(rest[j] == s[j + 1]);
        }
        lemma_point_at(rest, i - 1);
    }
}

/// One more digit at the end multiplies by ten and adds the digit.
pub proof fn lemma_decimal_value_push(s: Seq<char>, c: char)
    ensures
        decimal_value(s.push(c)) == decimal_value(s) * 10 + digit_value(c),
{
    assert(s.push(c).drop_last() =~= s);
}

/// The digit for a number below ten is a digit and stands for that number.
pub proof fn lemma_digit_char(d: nat)
    requires
        d < 10,
    ensures
        is_digit(digit_char(d)),
        digit_value(digit_char(d)) == d,
{
}

/// The fraction's text is one to four digits that denote `f` once padded
/// with zeros to four places.
pub proof fn lemma_fraction_text_value(f: nat)
    requires
        f < SCALE,
    ensures
        1 <= fraction_text(f).len() <= PLACES,
        all_digits(fraction_text(f)),
        decimal_value(fraction_text(f)) * pow10((PLACES - fraction_text(f).len()) as nat) == f,
{
    reveal_with_fuel(pow10, 5);
    let a = digit_char(f / 1000);
    let b = digit_char(f / 100 % 10);
    let c = digit_char(f / 10 % 10);
    let d = digit_char(f % 10);
    lemma_digit_char(f / 1000);
    lemma_digit_char(f / 100 % 10);
    lemma_digit_char(f / 10 % 10);
    lemma_digit_char(f % 10);
    let one = seq![a];
    let two = one.push(b);
    let three = two.push(c);
    let four = three.push(d);
    assert(one =~= Seq::<char>::empty().push(a));
    lemma_decimal_value_push(Seq::<char>::empty(), a);
    lemma_decimal_value_push(one, b);
    lemma_decimal_value_push(two, c);
    lemma_decimal_value_push(three, d);
    assert(decimal_value(one) == f / 1000);
    assert(decimal_value(two) == f / 100);
    assert(decimal_value(three) == f / 10);
    assert(decimal_value(four) == f);
    let t = fraction_text(f);
    if f % 1000 == 0 {
        assert(t == one);
        assert(pow10(3) == 1000);
        assert(decimal_value(t) * pow10(3) == f);
    } else if f % 100 == 0 {
        assert(t == two);
        assert(pow10(2) == 100);
        assert(decimal_value(t) * pow10(2) == f);
    } else if f % 10 == 0 {
        assert(t == three);
        assert(pow10(1) == 10);
        assert(decimal_value(t) * pow10(1) == f);
    } else {
        assert(t == four);
        assert(pow10(0) == 1);
        assert(decimal_value(t) * pow10(0) == f);
    }
}

/// Reading back the numeral of a magnitude gives that magnitude.
pub proof fn lemma_magnitude_text_round_trip(m: nat)
    ensures
        magnitude_text(m).len() > 0,
        is_digit(magnitude_text(m)[0]),
        magnitude_of_text(magnitude_text(m)) == Some(m),
{
    let w = decimal_text(m / (SCALE as nat));
    let f = fraction_text(m % (SCALE as nat));
    lemma_decimal_text_value(m / (SCALE as nat));
    lemma_fraction_text_value(m % (SCALE as nat));
    let body = magnitude_text(m);
    assert(body.len() == w.len() + 1 + f.len());
    assert(body[0] == w[0]);
    assert forall|j: int| 0 <= j < w.len() implies body[j] != '.' by {
        assert(body[j] == w[j]);
        assert(is_digit(w[j]));
    }
    assert(body[w.len() as int] == '.');
    lemma_point_at(body, w.len() as int);
    assert(body.take(w.len() as int) =~= w);
    assert(body.skip(w.len() as int + 1) =~= f);
}

/// Reading back the text of an amount gives that amount.
pub proof fn lemma_amount_text_round_trip(v: int)
    requires
        fits(v),
    ensures
        amount_of_text(amount_text(v)) == Some(v),
{
    let s = amount_text(v);
    if v < 0 {
        let body = magnitude_text((-v) as nat);
        lemma_magnitude_text_round_trip((-v) as nat);
        assert(s[0] == '-');
        assert(s.drop_first() =~= body);
    } else {
        lemma_magnitude_text_round_trip(v as nat);
        assert(is_digit(s[0]));
    }
}

/// Reads an unsigned numeral, in ten-thousandths. It answers `None` where
/// the numeral is ill-formed or its whole part is beyond 64 bits, which is
/// too large for any amount.
pub fn read_magnitude(body: &[char]) -> (r: Option<u128>)
    ensures
        match r {
            Some(m) => magnitude_of_text(body@) == Some(m as nat) && m / (SCALE as u128)
                <= u64::MAX,
            None => magnitude_of_text(body@) matches Some(m) ==> m / (SCALE as nat) > u64::MAX,
        },
{
    let m: usize = body.len();
    let mut point: usize = 0;
    while point < m && body[point] != '.'
        invariant
            m == body@.len(),
            point <= m,
            forall|j: int| 0 <= j < point ==> body@[j] != '.',
        decreases m - point,
    {
        point += 1;
    }
    proof {
        lemma_point_at(body@, point as int);
    }
    let whole = slice_subrange(body, 0, point);
    let fraction = if point < m {
        slice_subrange(body, point + 1, m)
    } else {
        slice_subrange(body, m, m)
    };
    assert(whole@ =~= body@.take(point as int));
    assert(fraction@ =~= if point < body@.len() {
        body@.skip(point + 1)
    } else {
        Seq::<char>::empty()
    });
    let places: usize = fraction.len();
    if (whole.len() == 0 && places == 0) || places > PLACES {
        return None;
    }
    proof {
        reveal_with_fuel(pow10, 5);
    }
    let factor: u64 = if places == 0 {
        10_000
    } else if places == 1 {
        1_000
    } else if places == 2 {
        100
    } else if places == 3 {
        10
    } else {
        1
    };
    assert(factor == pow10((PLACES - places) as nat));
    let f: u64 = match read_decimal(fraction) {
        Some(f) => f,
        None => {
            proof {
                lemma_short_numeral(fraction@);
            }
            return None;
        },
    };
    proof {
        lemma_short_numeral(fraction@);
    }
    assert(f * factor < 10_000) by (nonlinear_arith)
        requires
            f < pow10(places as nat),
            factor == pow10((PLACES - places) as nat),
            pow10(places as nat) * pow10((PLACES - places) as nat) == 10_000,
            factor > 0,
    ;
    let w: u64 = match read_decimal(whole) {
        Some(w) => w,
        None => {
            return None;
        },
    };
    Some((w as u128) * (SCALE as u128) + (f as u128) * (factor as u128))
}

/// A string of at most four digits denotes less than ten to the power of
/// its length.
pub proof fn lemma_short_numeral(s: Seq<char>)
    requires
        s.len() <= PLACES,
    ensures
        decimal_value(s) < pow10(s.len()),
        pow10(s.len()) * pow10((PLACES - s.len()) as nat) == 10_000,
    decreases s.len(),
{
    reveal_with_fuel(pow10, 5);
    assert(pow10(0) == 1 && pow10(1) == 10 && pow10(2) == 100 && pow10(3) == 1_000 && pow10(4)
        == 10_000);
    if s.len() > 0 {
        lemma_short_numeral(s.drop_last());
    }
    let n = s.len();
    assert(n == 0 || n == 1 || n == 2 || n == 3 || n == 4);
}

impl Amount {
    /// The amount of nothing.
    pub fn zero() -> (r: Amount)
        ensures
            r@ == 0,
    {
        Amount { units: 0 }
    }

    /// The amount of `units` ten-thousandths.
    pub fn from_units(units: i64) -> (r: Amount)
        ensures
            r@ == units,
    {
        Amount { units }
    }

    /// The sum of two amounts, where it fits.
    pub fn checked_add(self, other: Amount) -> (r: Option<Amount>)
        ensures
            fits(self@ + other@) ==> r is Some && r->0@ == self@ + other@,
            !fits(self@ + other@) ==> r is None,
    {
        match self.units.checked_add(other.units) {
            Some(units) => Some(Amount { units }),
            None => None,
        }
    }

    /// The difference of two amounts, where it fits.
    pub fn checked_sub(self, other: Amount) -> (r: Option<Amount>)
        ensures
            fits(self@ - other@) ==> r is Some && r->0@ == self@ - other@,
            !fits(self@ - other@) ==> r is None,
    {
        match self.units.checked_sub(other.units) {
            Some(units) => Some(Amount { units }),
            None => None,
        }
    }

    /// Reads an amount from its characters.
    pub fn from_chars(s: &[char]) -> (r: Option<Amount>)
        ensures
            match r {
                Some(a) => amount_of_text(s@) == Some(a@),
                None => amount_of_text(s@) is None,
            },
    {
        let n: usize = s.len();
        let negative: bool = n > 0 && s[0] == '-';
        let start: usize = if n > 0 && (s[0] == '-' || s[0] == '+') {
            1
        } else {
            0
        };
        let body = slice_subrange(s, start, n);
        assert(body@ =~= if s@.len() > 0 && (s@[0] == '-' || s@[0] == '+') {
            s@.drop_first()
        } else {
            s@
        });
        let magnitude: u128 = match read_magnitude(body) {
            Some(magnitude) => magnitude,
            None => {
                return None;
            },
        };
        if negative {
            if magnitude > 0x8000_0000_0000_0000 {
                return None;
            }
            let units: i128 = -(magnitude as i128);
            Some(Amount { units: units as i64 })
        } else {
            if magnitude > 0x7FFF_FFFF_FFFF_FFFF {
                return None;
            }
            Some(Amount { units: magnitude as i64 })
        }
    }

    /// Reads an amount from its text.
    pub fn parse(text: &str) -> (r: Option<Amount>)
        ensures
            match r {
                Some(a) => amount_of_text(text@) == Some(a@),
                None => amount_of_text(text@) is None,
            },
    {
        let chars = chars_of(text);
        Amount::from_chars(chars.as_slice())
    }

    /// The text of the amount.
    pub fn to_text(&self) -> (r: String)
        ensures
            r@ == amount_text(self@),
    {
        let wide: i128 = self.units as i128;
        let magnitude: u64 = if wide < 0 {
            (-wide) as u64
        } else {
            wide as u64
        };
        let mut out = String::new();
        if wide < 0 {
            out.append("-");
        }
        proof {
            reveal_strlit("-");
            assert(out@ =~= if self@ < 0 {
                seq!['-']
            } else {
                Seq::<char>::empty()
            });
        }
        push_decimal(&mut out, magnitude / SCALE);
        out.append(".");
        let f: u64 = magnitude % SCALE;
        out.append(digit_str(f / 1000));
        if f % 1000 != 0 {
            out.append(digit_str(f / 100 % 10));
            if f % 100 != 0 {
                out.append(digit_str(f / 10 % 10));
                if f % 10 != 0 {
                    out.append(digit_str(f % 10));
                }
            }
        }
        proof {
            reveal_strlit(".");
            assert("."@ =~= seq!['.']);
            assert(out@ =~= amount_text(self@));
        }
        out
    }
}

} // verus!
