//! Normalized similarity scores derived from the edit distance.
//!
//! A score is the exact fraction `1 - d/m`, where `d` is the edit distance
//! of the two strings and `m` the longer character count; two empty strings
//! score `1/1` by convention. Keeping the score as a fraction makes every
//! comparison exact and total, which a floating-point comparator would not be.

use vstd::prelude::*;
use vstd::string::StrSliceExecFns;

use crate::distance::edit_dist;
use crate::distance::lemma_edit_dist_le_longer;
use crate::distance::lemma_edit_dist_self;
use crate::distance::lemma_edit_dist_zero_iff;
use crate::distance::levenshtein_distance;
use crate::distance::longer_len;

verus! {

/// An exact similarity score: the fraction `num / den`, with `0 <= num <= den`,
/// so `1` means equal and `0` means entirely different.
#[derive(Clone, Copy, Debug, PartialEq, Eq, Structural)]
pub struct Score {
    pub num: usize,
    pub den: usize,
}

/// `n1 / d1 >= n2 / d2` by cross-multiplication, for positive denominators.
pub open spec fn frac_ge(n1: int, d1: int, n2: int, d2: int) -> bool {
    n1 * d2 >= n2 * d1
}

/// `n1 / d1 > n2 / d2` by cross-multiplication, for positive denominators.
pub open spec fn frac_gt(n1: int, d1: int, n2: int, d2: int) -> bool {
    n1 * d2 > n2 * d1
}

/// `n1 / d1 == n2 / d2` by cross-multiplication, for positive denominators.
pub open spec fn frac_eq(n1: int, d1: int, n2: int, d2: int) -> bool {
    n1 * d2 == n2 * d1
}

/// Numerator of the similarity score of `a` and `b`.
pub open spec fn sim_num(a: Seq<char>, b: Seq<char>) -> int {
    if longer_len(a, b) == 0 {
        1
    } else {
        longer_len(a, b) - edit_dist(a, b)
    }
}

/// Denominator of the similarity score of `a` and `b`.
pub open spec fn sim_den(a: Seq<char>, b: Seq<char>) -> int {
    if longer_len(a, b) == 0 {
        1
    } else {
        longer_len(a, b) as int
    }
}

/// A product of two values below `u64::MAX` fits in `u128`.
proof fn lemma_prod_fits(x: int, y: int)
    requires
        0 <= x <= u64::MAX,
        0 <= y <= u64::MAX,
    ensures
        0 <= x * y <= u128::MAX,
{
    assert(0 <= x * y <= u64::MAX * u64::MAX) by (nonlinear_arith)
        requires
            0 <= x <= u64::MAX,
            0 <= y <= u64::MAX,
    ;
}

impl Score {
    /// A well-formed score lies in `[0, 1]`.
    pub open spec fn wf(self) -> bool {
        1 <= self.den && self.num <= self.den
    }

    /// Whether this score is strictly above `other`.
    pub fn gt(&self, other: &Score) -> (r: bool)
        ensures
            r == frac_gt(self.num as int, self.den as int, other.num as int, other.den as int),
    {
        proof {
            lemma_prod_fits(self.num as int, other.den as int);
            lemma_prod_fits(other.num as int, self.den as int);
        }
        (self.num as u128) * (other.den as u128) > (other.num as u128) * (self.den as u128)
    }

    /// Whether this score is at least the fraction `num / den`.
    pub fn meets_threshold(&self, num: u64, den: u64) -> (r: bool)
        requires
            den >= 1,
        ensures
            r == frac_ge(self.num as int, self.den as int, num as int, den as int),
    {
        proof {
            lemma_prod_fits(self.num as int, den as int);
            lemma_prod_fits(num as int, self.den as int);
        }
        (self.num as u128) * (den as u128) >= (num as u128) * (self.den as u128)
    }
}

/// Similarity score of two strings: `1 - d/m` with `d` the edit distance and
/// `m` the longer character count; `1/1` when both strings are empty.
pub fn similarity_score(s1: &str, s2: &str) -> (r: Score)
    ensures
        r.num == sim_num(s1@, s2@),
        r.den == sim_den(s1@, s2@),
        r.wf(),
{
    let d: usize = levenshtein_distance(s1, s2);
    let l1: usize = s1.unicode_len();
    let l2: usize = s2.unicode_len();
    let m: usize = if l1 >= l2 {
        l1
    } else {
        l2
    };
    if m == 0 {
        Score { num: 1, den: 1 }
    } else {
        proof {
            lemma_edit_dist_le_longer(s1@, s2@);
        }
        Score { num: m - d, den: m }
    }
}

/// Similarity score of two strings.
pub fn calculate_similarity(s1: &str, s2: &str) -> (r: Score)
    ensures
        r.num == sim_num(s1@, s2@),
        r.den == sim_den(s1@, s2@),
        r.wf(),
{
    similarity_score(s1, s2)
}

/// Whether `similarity(s1, s2) >= threshold_num / threshold_den`.
///
/// The threshold is a fraction and need not lie in `[0, 1]`: zero or less
/// accepts every pair, anything above one accepts none.
pub fn is_similar(s1: &str, s2: &str, threshold_num: u64, threshold_den: u64) -> (r: bool)
    requires
        threshold_den >= 1,
    ensures
        r == frac_ge(
            sim_num(s1@, s2@),
            sim_den(s1@, s2@),
            threshold_num as int,
            threshold_den as int,
        ),
{
    let sc: Score = similarity_score(s1, s2);
    sc.meets_threshold(threshold_num, threshold_den)
}

/// The fraction order is transitive, for positive denominators.
pub proof fn lemma_frac_ge_trans(n1: int, d1: int, n2: int, d2: int, n3: int, d3: int)
    requires
        d1 >= 1,
        d2 >= 1,
        d3 >= 1,
        frac_ge(n1, d1, n2, d2),
        frac_ge(n2, d2, n3, d3),
    ensures
        frac_ge(n1, d1, n3, d3),
{
    assert(n1 * d3 >= n3 * d1) by (nonlinear_arith)
        requires
            d1 >= 1,
            d2 >= 1,
            d3 >= 1,
            n1 * d2 >= n2 * d1,
            n2 * d3 >= n3 * d2,
    ;
}

/// A strict step keeps the fraction order strict, for positive denominators.
pub proof fn lemma_frac_gt_ge_trans(n1: int, d1: int, n2: int, d2: int, n3: int, d3: int)
    requires
        d1 >= 1,
        d2 >= 1,
        d3 >= 1,
        frac_gt(n1, d1, n2, d2),
        frac_ge(n2, d2, n3, d3),
    ensures
        frac_gt(n1, d1, n3, d3),
{
    assert(n1 * d3 > n3 * d1) by (nonlinear_arith)
        requires
            d1 >= 1,
            d2 >= 1,
            d3 >= 1,
            n1 * d2 > n2 * d1,
            n2 * d3 >= n3 * d2,
    ;
}

/// Two fractions equal to the same value are equal to each other, for
/// positive denominators.
pub proof fn lemma_frac_eq_joint(n1: int, d1: int, n2: int, d2: int, n: int, d: int)
    requires
        d1 >= 1,
        d2 >= 1,
        d >= 1,
        frac_eq(n1, d1, n, d),
        frac_eq(n2, d2, n, d),
    ensures
        frac_eq(n1, d1, n2, d2),
{
    assert(n1 * d2 == n2 * d1) by (nonlinear_arith)
        requires
            d1 >= 1,
            d2 >= 1,
            d >= 1,
            n1 * d == n * d1,
            n2 * d == n * d2,
    ;
}

/// The similarity score always lies in `[0, 1]`: the denominator is positive
/// and the numerator at least zero and no larger than the denominator.
pub proof fn lemma_similarity_range(a: Seq<char>, b: Seq<char>)
    ensures
        1 <= sim_den(a, b),
        0 <= sim_num(a, b) <= sim_den(a, b),
{
    lemma_edit_dist_le_longer(a, b);
}

/// A string is fully similar to itself: the score is exactly one.
pub proof fn lemma_similarity_self(s: Seq<char>)
    ensures
        sim_num(s, s) == sim_den(s, s),
{
    lemma_edit_dist_self(s);
}

/// The score is one exactly when the two strings are equal.
pub proof fn lemma_similarity_one_iff(a: Seq<char>, b: Seq<char>)
    ensures
        sim_num(a, b) == sim_den(a, b) <==> a == b,
{
    lemma_edit_dist_zero_iff(a, b);
    if longer_len(a, b) == 0 {
        assert(a =~= b);
    }
}

} // verus!
