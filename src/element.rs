//! Values that travel through a diagram: compared structurally and shown by
//! name in diagnostics.

use vstd::prelude::*;

verus! {

/// A value carried by the sets of a diagram.
///
/// Equality is structural: two values are equal exactly when they are the
/// same value. A type that gathers several kinds of values (an enum with one
/// variant per kind) thereby makes values of different kinds unequal.
pub trait Element: Sized {
    /// The name under which the value appears in diagnostics.
    spec fn spec_name(&self) -> Seq<char>;

    fn eq(&self, other: &Self) -> (r: bool)
        ensures
            r == (*self == *other),
    ;

    fn name(&self) -> (r: String)
        ensures
            r@ == self.spec_name(),
    ;
}

/// The character of the decimal digit `d`.
pub open spec fn digit_char(d: nat) -> char {
    seq!['0', '1', '2', '3', '4', '5', '6', '7', '8', '9'][d as int]
}

/// The decimal digits of `n`, most significant first.
pub open spec fn decimal(n: nat) -> Seq<char>
    decreases n,
{
    if n < 10 {
        seq![digit_char(n)]
    } else {
        decimal(n / 10).push(digit_char(n % 10))
    }
}

/// `n` written in decimal, with a leading `-` when it is negative.
pub open spec fn signed_decimal(n: int) -> Seq<char> {
    if n < 0 {
        seq!['-'] + decimal((-n) as nat)
    } else {
        decimal(n as nat)
    }
}

/// The one-character string of the decimal digit `d`.
fn digit_str(d: u64) -> (r: &'static str)
    requires
        d < 10,
    ensures
        r@ == seq![digit_char(d as nat)],
{
    proof {
        reveal_strlit("0");
        reveal_strlit("1");
        reveal_strlit("2");
        reveal_strlit("3");
        reveal_strlit("4");
        reveal_strlit("5");
        reveal_strlit("6");
        reveal_strlit("7");
        reveal_strlit("8");
        reveal_strlit("9");
    }
    let r = if d == 0 {
        "0"
    } else if d == 1 {
        "1"
    } else if d == 2 {
        "2"
    } else if d == 3 {
        "3"
    } else if d == 4 {
        "4"
    } else if d == 5 {
        "5"
    } else if d == 6 {
        "6"
    } else if d == 7 {
        "7"
    } else if d == 8 {
        "8"
    } else {
        "9"
    };
    assert(r@ =~= seq![digit_char(d as nat)]);
    r
}

/// Appends the decimal digits of `n` to `out`.
fn push_decimal(out: &mut String, n: u64)
    ensures
        final(out)@ == old(out)@ + decimal(n as nat),
    decreases n,
{
    if n >= 10 {
        push_decimal(out, n / 10);
    }
    out.append(digit_str(n % 10));
    assert(final(out)@ =~= old(out)@ + decimal(n as nat));
}

/// `n` written in decimal.
fn signed_name(n: i64) -> (r: String)
    ensures
        r@ == signed_decimal(n as int),
{
    let mut out = String::new();
    if n < 0 {
        proof {
            reveal_strlit("-");
        }
        out.append("-");
        let magnitude: u64 = (-(n as i128)) as u64;
        push_decimal(&mut out, magnitude);
        assert(out@ =~= signed_decimal(n as int));
    } else {
        push_decimal(&mut out, n as u64);
        assert(out@ =~= signed_decimal(n as int));
    }
    out
}

/// `n` written in decimal.
fn unsigned_name(n: u64) -> (r: String)
    ensures
        r@ == decimal(n as nat),
{
    let mut out = String::new();
    push_decimal(&mut out, n);
    assert(out@ =~= decimal(n as nat));
    out
}

impl Element for i32 {
    open spec fn spec_name(&self) -> Seq<char> {
        signed_decimal(*self as int)
    }

    fn eq(&self, other: &Self) -> (r: bool) {
        *self == *other
    }

    fn name(&self) -> (r: String) {
        signed_name(*self as i64)
    }
}

impl Element for i64 {
    open spec fn spec_name(&self) -> Seq<char> {
        signed_decimal(*self as int)
    }

    fn eq(&self, other: &Self) -> (r: bool) {
        *self == *other
    }

    fn name(&self) -> (r: String) {
        signed_name(*self)
    }
}

impl Element for u32 {
    open spec fn spec_name(&self) -> Seq<char> {
        decimal(*self as nat)
    }

    fn eq(&self, other: &Self) -> (r: bool) {
        *self == *other
    }

    fn name(&self) -> (r: String) {
        unsigned_name(*self as u64)
    }
}

impl Element for u64 {
    open spec fn spec_name(&self) -> Seq<char> {
        decimal(*self as nat)
    }

    fn eq(&self, other: &Self) -> (r: bool) {
        *self == *other
    }

    fn name(&self) -> (r: String) {
        unsigned_name(*self)
    }
}

impl Element for usize {
    open spec fn spec_name(&self) -> Seq<char> {
        decimal(*self as nat)
    }

    fn eq(&self, other: &Self) -> (r: bool) {
        *self == *other
    }

    fn name(&self) -> (r: String) {
        unsigned_name(*self as u64)
    }
}

impl Element for bool {
    open spec fn spec_name(&self) -> Seq<char> {
        if *self {
            "true"@
        } else {
            "false"@
        }
    }

    fn eq(&self, other: &Self) -> (r: bool) {
        *self == *other
    }

    fn name(&self) -> (r: String) {
        if *self {
            String::from_str("true")
        } else {
            String::from_str("false")
        }
    }
}

impl<A: Element, B: Element> Element for (A, B) {
    open spec fn spec_name(&self) -> Seq<char> {
        "("@ + self.0.spec_name() + ", "@ + self.1.spec_name() + ")"@
    }

    fn eq(&self, other: &Self) -> (r: bool) {
        self.0.eq(&other.0) && self.1.eq(&other.1)
    }

    fn name(&self) -> (r: String) {
        let mut out = String::from_str("(");
        out.append(self.0.name().as_str());
        out.append(", ");
        out.append(self.1.name().as_str());
        out.append(")");
        out
    }
}

impl<A: Element, B: Element, C: Element> Element for (A, B, C) {
    open spec fn spec_name(&self) -> Seq<char> {
        "("@ + self.0.spec_name() + ", "@ + self.1.spec_name() + ", "@ + self.2.spec_name()
            + ")"@
    }

    fn eq(&self, other: &Self) -> (r: bool) {
        self.0.eq(&other.0) && self.1.eq(&other.1) && self.2.eq(&other.2)
    }

    fn name(&self) -> (r: String) {
        let mut out = String::from_str("(");
        out.append(self.0.name().as_str());
        out.append(", ");
        out.append(self.1.name().as_str());
        out.append(", ");
        out.append(self.2.name().as_str());
        out.append(")");
        out
    }
}

} // verus!
