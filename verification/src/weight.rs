//! Association strengths in fixed point.

use vstd::prelude::*;

verus! {

/// Raw value of the weight one: weights count millionths.
pub const UNIT: u32 = 1_000_000;

/// The strength of an association, as a count of millionths.
///
/// The intended range is zero to [`UNIT`]; larger values are accepted and
/// composition saturates at the largest raw value.
#[derive(Clone, Copy, Debug, PartialEq, Eq, Structural)]
pub struct Weight {
    pub millionths: u32,
}

impl Weight {
    /// The weight of a two-edge path: the product of the two weights,
    /// rounded down to a whole millionth, at most the largest raw value.
    pub open spec fn product(self, other: Weight) -> Weight {
        let exact = (self.millionths as int * other.millionths as int) / (UNIT as int);
        Weight { millionths: if exact > u32::MAX as int { u32::MAX } else { exact as u32 } }
    }

    /// Whether `self` is strictly stronger than `other`.
    pub open spec fn exceeds(self, other: Weight) -> bool {
        self.millionths > other.millionths
    }

    pub fn from_millionths(millionths: u32) -> (w: Weight)
        ensures
            w.millionths == millionths,
    {
        Weight { millionths }
    }

    pub fn compose(self, other: Weight) -> (w: Weight)
        ensures
            w == self.product(other),
    {
        let a: u64 = self.millionths as u64;
        let b: u64 = other.millionths as u64;
        assert(a * b <= 0xFFFF_FFFF * 0xFFFF_FFFF) by (nonlinear_arith)
            requires
                a <= 0xFFFF_FFFF,
                b <= 0xFFFF_FFFF,
        ;
        let exact: u64 = (a * b) / (UNIT as u64);
        if exact > u32::MAX as u64 {
            Weight { millionths: u32::MAX }
        } else {
            Weight { millionths: exact as u32 }
        }
    }

    /// The weight as a decimal number: the whole part, and behind a point
    /// the millionths without trailing zeros where there are any.
    pub open spec fn text(self) -> Seq<char> {
        let whole = (self.millionths / UNIT) as nat;
        let part = (self.millionths % UNIT) as nat;
        if part == 0 {
            decimal(whole)
        } else {
            decimal(whole) + seq!['.'] + fraction(part, UNIT as nat)
        }
    }

    /// The weight as a decimal number, as short as it can be written.
    pub fn to_string(&self) -> (line: String)
        ensures
            line@ == self.text(),
    {
        let whole: u32 = self.millionths / UNIT;
        let part: u32 = self.millionths % UNIT;
        let mut line = String::new();
        push_decimal(&mut line, whole);
        if part != 0 {
            proof {
                reveal_strlit(".");
            }
            line.append(".");
            assert(line@ =~= decimal(whole as nat) + seq!['.']);
            push_fraction(&mut line, part);
        }
        assert(line@ =~= self.text());
        line
    }

    #[verifier::when_used_as_spec(exceeds)]
    pub fn is_above(self, other: Weight) -> (b: bool)
        ensures
            b == self.exceeds(other),
    {
        self.millionths > other.millionths
    }
}

/// The character for a decimal digit.
pub open spec fn digit(d: int) -> char {
    if d == 0 {
        '0'
    } else if d == 1 {
        '1'
    } else if d == 2 {
        '2'
    } else if d == 3 {
        '3'
    } else if d == 4 {
        '4'
    } else if d == 5 {
        '5'
    } else if d == 6 {
        '6'
    } else if d == 7 {
        '7'
    } else if d == 8 {
        '8'
    } else {
        '9'
    }
}

/// A whole number in decimal digits, without leading zeros.
pub open spec fn decimal(n: nat) -> Seq<char>
    decreases n,
{
    if n < 10 {
        seq![digit(n as int)]
    } else {
        decimal(n / 10).push(digit((n % 10) as int))
    }
}

/// The decimal digits of `part / unit` behind the point, without trailing
/// zeros; `unit` is a power of ten above `part`.
pub open spec fn fraction(part: nat, unit: nat) -> Seq<char>
    decreases unit,
{
    if part == 0 || unit < 10 {
        Seq::empty()
    } else {
        seq![digit((part / (unit / 10)) as int)] + fraction(part % (unit / 10), unit / 10)
    }
}

/// Whether `unit` is one of the powers of ten up to [`UNIT`].
spec fn power_of_ten(unit: u32) -> bool {
    unit == 1 || unit == 10 || unit == 100 || unit == 1_000 || unit == 10_000 || unit == 100_000
        || unit == 1_000_000
}

fn digit_text(d: u32) -> (s: &'static str)
    requires
        d < 10,
    ensures
        s@ == seq![digit(d as int)],
{
    proof {
        reveal_strlit("0");
        reveal_strlit("1");
        reveal_strlit("2");
        reveal_strlit("3");
        reveal_strlit("4");
        reveal_strlit("5");
        reveal_strlit("6");
        reveal_strlit("7");
        reveal_strlit("8");
        reveal_strlit("9");
    }
    let s = if d == 0 {
        "0"
    } else if d == 1 {
        "1"
    } else if d == 2 {
        "2"
    } else if d == 3 {
        "3"
    } else if d == 4 {
        "4"
    } else if d == 5 {
        "5"
    } else if d == 6 {
        "6"
    } else if d == 7 {
        "7"
    } else if d == 8 {
        "8"
    } else {
        "9"
    };
    assert(s@ =~= seq![digit(d as int)]);
    s
}

fn push_decimal(out: &mut String, n: u32)
    ensures
        final(out)@ == old(out)@ + decimal(n as nat),
    decreases n,
{
    if n >= 10 {
        push_decimal(out, n / 10);
    }
    out.append(digit_text(n % 10));
}

fn push_fraction(out: &mut String, part: u32)
    requires
        part < UNIT,
    ensures
        final(out)@ == old(out)@ + fraction(part as nat, UNIT as nat),
{
    let mut rest: u32 = part;
    let mut unit: u32 = UNIT;
    let ghost done: Seq<char> = Seq::empty();
    assert(out@ =~= old(out)@ + done);
    while rest != 0 && unit >= 10
        invariant
            rest < unit,
            power_of_ten(unit),
            out@ == old(out)@ + done,
            done + fraction(rest as nat, unit as nat) == fraction(part as nat, UNIT as nat),
        decreases unit,
    {
        let step: u32 = unit / 10;
        let d: u32 = rest / step;
        assert(step * 10 == unit && power_of_ten(step));
        assert(d < 10) by (nonlinear_arith)
            requires
                rest < step * 10,
                d == rest / step,
                step > 0,
        ;
        out.append(digit_text(d));
        proof {
            assert(fraction(rest as nat, unit as nat) == seq![digit(d as int)] + fraction(
                (rest % step) as nat,
                step as nat,
            ));
            assert(done.push(digit(d as int)) + fraction((rest % step) as nat, step as nat) =~= done
                + fraction(rest as nat, unit as nat));
            done = done.push(digit(d as int));
        }
        rest = rest % step;
        unit = step;
    }
    proof {
        assert(fraction(rest as nat, unit as nat) =~= Seq::empty());
    }
}

} // verus!
