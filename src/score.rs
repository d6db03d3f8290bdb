//! Exact coupling ratios and their two-decimal rendering.
use vstd::prelude::*;

verus! {

/// The decimal digits of `n`, most significant first.
pub open spec fn decimal(n: nat) -> Seq<char>
    decreases n,
{
    if n < 10 {
        seq![digit_char(n)]
    } else {
        decimal(n / 10).push(digit_char(n % 10))
    }
}

/// The ASCII digit for a value below ten.
pub open spec fn digit_char(d: nat) -> char {
    if d == 0 { '0' }
    else if d == 1 { '1' }
    else if d == 2 { '2' }
    else if d == 3 { '3' }
    else if d == 4 { '4' }
    else if d == 5 { '5' }
    else if d == 6 { '6' }
    else if d == 7 { '7' }
    else if d == 8 { '8' }
    else { '9' }
}

/// Relies on `ToString` for `usize`: the plain decimal digits, no sign or padding.
#[verifier::external_body]
pub(crate) fn decimal_text(n: usize) -> (r: String)
    ensures
        r@ == decimal(n as nat),
{
    n.to_string()
}

/// A ratio `part / (part + rest)`, read as zero when both counts are zero.
///
/// Instability is the score with `part` the efferent coupling and `rest` the
/// afferent coupling.
#[derive(Clone, Copy, Debug, PartialEq, Eq, Structural)]
pub struct Score {
    pub part: usize,
    pub rest: usize,
}

impl Score {
    /// The denominator, with an all-zero score read as `0 / 1`.
    pub open spec fn total(self) -> int {
        if self.part + self.rest == 0 {
            1
        } else {
            self.part + self.rest
        }
    }

    /// The value of the score is `num / den`.
    pub open spec fn equals(self, num: int, den: int) -> bool {
        self.part * den == num * self.total()
    }

    /// The value of `self` is at most that of `o`.
    pub open spec fn spec_le(self, o: Score) -> bool {
        self.part * o.total() <= o.part * self.total()
    }

    /// The two values are the same number.
    pub open spec fn same_value(self, o: Score) -> bool {
        self.spec_le(o) && o.spec_le(self)
    }

    /// Hundredths of the value, rounded to nearest with ties to even.
    pub open spec fn spec_hundredths(self) -> int {
        let x = 100 * self.part;
        let t = self.total();
        let q = x / t;
        let r = x % t;
        if 2 * r > t || (2 * r == t && q % 2 == 1) {
            q + 1
        } else {
            q
        }
    }

    /// The value written with two decimals, as in `0.50`.
    pub open spec fn spec_text(self) -> Seq<char> {
        let h = self.spec_hundredths();
        let frac = h % 100;
        decimal((h / 100) as nat) + seq!['.'] + (if frac < 10 {
            seq!['0']
        } else {
            Seq::empty()
        }) + decimal(frac as nat)
    }

    /// The all-zero score, of value zero.
    pub open spec fn zero_spec() -> Score {
        Score { part: 0, rest: 0 }
    }

    /// The all-zero score, of value zero.
    pub fn zero() -> (r: Score)
        ensures
            r == Score::zero_spec(),
    {
        Score { part: 0, rest: 0 }
    }

    /// Compares values: `self <= o`.
    pub fn at_most(&self, o: &Score) -> (r: bool)
        ensures
            r == self.spec_le(*o),
    {
        assert(usize::MAX <= u64::MAX);
        let sp = self.part as u128;
        let op = o.part as u128;
        let sr: u128 = if self.part == 0 && self.rest == 0 { 1 } else { self.rest as u128 };
        let or: u128 = if o.part == 0 && o.rest == 0 { 1 } else { o.rest as u128 };
        proof {
            lemma_le_by_rests(*self, *o, sr as int, or as int);
            assert(sp * or <= u64::MAX * u64::MAX) by (nonlinear_arith)
                requires sp <= u64::MAX, or <= u64::MAX;
            assert(op * sr <= u64::MAX * u64::MAX) by (nonlinear_arith)
                requires op <= u64::MAX, sr <= u64::MAX;
        }
        sp * or <= op * sr
    }

    /// Hundredths of the value, rounded to nearest with ties to even.
    pub fn hundredths(&self) -> (r: usize)
        ensures
            r == self.spec_hundredths(),
            r <= 100,
    {
        let t: u128 = if self.part == 0 && self.rest == 0 { 1 } else { self.part as u128 + self.rest as u128 };
        let x: u128 = 100 * self.part as u128;
        let q = x / t;
        let r = x % t;
        proof {
            assert(x <= 100 * t) by (nonlinear_arith)
                requires x == 100 * self.part, self.part <= t;
            assert(q <= 100) by (nonlinear_arith)
                requires q == x / t, x <= 100 * t, t > 0;
            assert(r == 0 || q < 100) by (nonlinear_arith)
                requires q == x / t, r == x % t, x <= 100 * t, t > 0;
        }
        if 2 * r > t || (2 * r == t && q % 2 == 1) {
            (q + 1) as usize
        } else {
            q as usize
        }
    }

    /// The value written with two decimals, as in `0.50`.
    pub fn to_text(&self) -> (r: String)
        ensures
            r@ == self.spec_text(),
    {
        let h = self.hundredths();
        let mut out = decimal_text(h / 100);
        out.append(".");
        let frac = h % 100;
        if frac < 10 {
            out.append("0");
        }
        let tail = decimal_text(frac);
        out.append(tail.as_str());
        proof {
            reveal_strlit(".");
            reveal_strlit("0");
            assert(out@ =~= self.spec_text());
        }
        out
    }
}

proof fn lemma_le_by_rests(a: Score, b: Score, ra: int, rb: int)
    requires
        ra == (if a.part == 0 && a.rest == 0 { 1 } else { a.rest as int }),
        rb == (if b.part == 0 && b.rest == 0 { 1 } else { b.rest as int }),
    ensures
        a.spec_le(b) == (a.part * rb <= b.part * ra),
{
    let ta = a.total();
    let tb = b.total();
    assert(ta == a.part + ra);
    assert(tb == b.part + rb);
    assert(a.part * tb == a.part * b.part + a.part * rb) by (nonlinear_arith)
        requires tb == b.part + rb;
    assert(b.part * ta == b.part * a.part + b.part * ra) by (nonlinear_arith)
        requires ta == a.part + ra;
    assert(a.part * b.part == b.part * a.part) by (nonlinear_arith);
}

} // verus!
