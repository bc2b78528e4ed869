//! How far to the right a match ends in a text, as an exact fraction.

use std::cmp::Ordering;
use vstd::prelude::*;
use vstd::std_specs::cmp::PartialEqSpecImpl;
use vstd::std_specs::cmp::PartialOrdSpecImpl;

verus! {

/// The offset at which a match ends, over the length of the text it was
/// found in. Both are counted in characters.
///
/// Two ratios are compared as fractions, by cross-multiplication, so no
/// rounding takes part. An empty text counts as one character long, which
/// keeps the fraction defined for every value.
#[derive(Clone, Copy, Debug)]
pub struct MatchRatio {
    /// Where the match ends.
    pub end: usize,
    /// How long the text is.
    pub len: usize,
}

impl MatchRatio {
    /// The fraction's denominator: the length, or one for an empty text.
    pub open spec fn denominator(self) -> int {
        if self.len == 0 {
            1
        } else {
            self.len as int
        }
    }

    /// `self` is a strictly smaller fraction than `other`.
    pub open spec fn below(self, other: MatchRatio) -> bool {
        self.end * other.denominator() < other.end * self.denominator()
    }

    /// `self` and `other` are the same fraction.
    pub open spec fn level(self, other: MatchRatio) -> bool {
        self.end * other.denominator() == other.end * self.denominator()
    }

    /// Whether this ratio is strictly smaller than `other`.
    pub fn is_below(&self, other: &MatchRatio) -> (r: bool)
        ensures
            r == self.below(*other),
    {
        scaled(self.end, other.len) < scaled(other.end, self.len)
    }

    /// Whether this ratio equals `other` as a fraction.
    pub fn is_level(&self, other: &MatchRatio) -> (r: bool)
        ensures
            r == self.level(*other),
    {
        scaled(self.end, other.len) == scaled(other.end, self.len)
    }
}

/// `end` times the denominator that stands for a text of length `len`.
fn scaled(end: usize, len: usize) -> (r: u128)
    ensures
        r == end * (if len == 0 { 1 } else { len as int }),
{
    let d: u128 = if len == 0 { 1 } else { len as u128 };
    let e: u128 = end as u128;
    assert(e * d <= 0xffff_ffff_ffff_ffff * 0xffff_ffff_ffff_ffff) by (nonlinear_arith)
        requires
            0 <= e <= 0xffff_ffff_ffff_ffff,
            0 <= d <= 0xffff_ffff_ffff_ffff,
    ;
    e * d
}

impl PartialEq for MatchRatio {
    fn eq(&self, other: &Self) -> (r: bool) {
        self.is_level(other)
    }
}

impl PartialEqSpecImpl for MatchRatio {
    open spec fn obeys_eq_spec() -> bool {
        true
    }

    open spec fn eq_spec(&self, other: &Self) -> bool {
        self.level(*other)
    }
}

impl PartialOrd for MatchRatio {
    fn partial_cmp(&self, other: &Self) -> (r: Option<Ordering>) {
        if self.is_below(other) {
            Some(Ordering::Less)
        } else if self.is_level(other) {
            Some(Ordering::Equal)
        } else {
            Some(Ordering::Greater)
        }
    }
}

impl PartialOrdSpecImpl for MatchRatio {
    open spec fn obeys_partial_cmp_spec() -> bool {
        true
    }

    open spec fn partial_cmp_spec(&self, other: &Self) -> Option<Ordering> {
        if self.below(*other) {
            Some(Ordering::Less)
        } else if self.level(*other) {
            Some(Ordering::Equal)
        } else {
            Some(Ordering::Greater)
        }
    }
}

/// Fractions with positive denominators are ordered transitively: from
/// `a/b <= c/d` and `c/d < e/f` follows `a/b < e/f`, and likewise with the
/// strict step first.
pub proof fn lemma_ratio_chain(x: MatchRatio, y: MatchRatio, z: MatchRatio)
    ensures
        !y.below(x) && y.below(z) ==> x.below(z),
        x.below(y) && !z.below(y) ==> x.below(z),
        x.level(y) && y.level(z) ==> x.level(z),
        x.level(y) ==> y.level(x),
        x.below(y) ==> !y.below(x) && !x.level(y),
{
    let a = x.end as int;
    let b = x.denominator();
    let c = y.end as int;
    let d = y.denominator();
    let e = z.end as int;
    let f = z.denominator();
    assert(a * d <= c * b && c * f < e * d ==> a * f < e * b) by (nonlinear_arith)
        requires
            a >= 0, c >= 0, e >= 0, b > 0, d > 0, f > 0,
    {
        if a * d <= c * b && c * f < e * d {
            assert(a * d * f <= c * b * f);
            assert(c * f * b < e * d * b);
            assert(c * b * f == c * f * b);
            assert(a * f * d == a * d * f);
            assert(e * b * d == e * d * b);
            assert(a * f * d < e * b * d);
        }
    }
    assert(a * d < c * b && c * f <= e * d ==> a * f < e * b) by (nonlinear_arith)
        requires
            a >= 0, c >= 0, e >= 0, b > 0, d > 0, f > 0,
    {
        if a * d < c * b && c * f <= e * d {
            assert(a * d * f < c * b * f);
            assert(c * f * b <= e * d * b);
            assert(c * b * f == c * f * b);
            assert(a * f * d == a * d * f);
            assert(e * b * d == e * d * b);
            assert(a * f * d < e * b * d);
        }
    }
    assert(a * d == c * b && c * f == e * d ==> a * f == e * b) by (nonlinear_arith)
        requires
            a >= 0, c >= 0, e >= 0, b > 0, d > 0, f > 0,
    {
        if a * d == c * b && c * f == e * d {
            assert(a * d * f == c * b * f);
            assert(c * f * b == e * d * b);
            assert(c * b * f == c * f * b);
            assert(a * f * d == a * d * f);
            assert(e * b * d == e * d * b);
            assert(a * f * d == e * b * d);
        }
    }
}

} // verus!
