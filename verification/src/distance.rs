//! Levenshtein edit distance between character sequences.
//!
//! The mathematical definition is the recursive spec function [`edit_dist`];
//! the executable [`levenshtein_distance`] computes it with the classic
//! dynamic program, two grid rows at a time, and is proved to return exactly
//! the specified value.

use vstd::prelude::*;
use vstd::string::StrSliceExecFns;

verus! {

/// The smallest of three natural numbers.
pub open spec fn min3(a: nat, b: nat, c: nat) -> nat {
    if a <= b && a <= c {
        a
    } else if b <= c {
        b
    } else {
        c
    }
}

/// Cost of aligning two characters: a match is free, a substitution costs one.
pub open spec fn diff_cost(x: char, y: char) -> nat {
    if x == y {
        0
    } else {
        1
    }
}

/// The length of the longer of the two sequences.
pub open spec fn longer_len(a: Seq<char>, b: Seq<char>) -> nat {
    if a.len() >= b.len() {
        a.len()
    } else {
        b.len()
    }
}

/// Levenshtein distance: the minimum number of single-character insertions,
/// deletions and substitutions that turn `a` into `b`.
pub open spec fn edit_dist(a: Seq<char>, b: Seq<char>) -> nat
    decreases a.len() + b.len(),
{
    if a.len() == 0 {
        b.len()
    } else if b.len() == 0 {
        a.len()
    } else {
        min3(
            edit_dist(a.drop_last(), b) + 1,
            edit_dist(a, b.drop_last()) + 1,
            edit_dist(a.drop_last(), b.drop_last()) + diff_cost(a.last(), b.last()),
        )
    }
}

/// The distance never exceeds the longer length: substituting position by
/// position and then inserting or deleting the overhang always suffices.
pub proof fn lemma_edit_dist_le_longer(a: Seq<char>, b: Seq<char>)
    ensures
        edit_dist(a, b) <= longer_len(a, b),
    decreases a.len() + b.len(),
{
    if a.len() != 0 && b.len() != 0 {
        lemma_edit_dist_le_longer(a.drop_last(), b.drop_last());
    }
}

/// The distance is at least the difference of the lengths: each edit changes
/// the length by at most one.
pub proof fn lemma_edit_dist_ge_len_diff(a: Seq<char>, b: Seq<char>)
    ensures
        edit_dist(a, b) + a.len() >= b.len(),
        edit_dist(a, b) + b.len() >= a.len(),
    decreases a.len() + b.len(),
{
    if a.len() != 0 && b.len() != 0 {
        lemma_edit_dist_ge_len_diff(a.drop_last(), b);
        lemma_edit_dist_ge_len_diff(a, b.drop_last());
        lemma_edit_dist_ge_len_diff(a.drop_last(), b.drop_last());
    }
}

/// A sequence is at distance zero from itself: no edit is needed.
pub proof fn lemma_edit_dist_self(s: Seq<char>)
    ensures
        edit_dist(s, s) == 0,
    decreases s.len(),
{
    if s.len() != 0 {
        lemma_edit_dist_self(s.drop_last());
    }
}

/// The distance is zero exactly when the two sequences are equal.
pub proof fn lemma_edit_dist_zero_iff(a: Seq<char>, b: Seq<char>)
    ensures
        edit_dist(a, b) == 0 <==> a == b,
    decreases a.len() + b.len(),
{
    if a.len() == 0 || b.len() == 0 {
        if a.len() == 0 && b.len() == 0 {
            assert(a =~= b);
        }
    } else {
        if edit_dist(a, b) == 0 {
            lemma_edit_dist_zero_iff(a.drop_last(), b.drop_last());
            assert(a.drop_last() == b.drop_last());
            assert(a.last() == b.last());
            assert(a.len() == b.len());
            assert forall|i: int| 0 <= i < a.len() implies a[i] == b[i] by {
                if i < a.len() - 1 {
                    assert(a[i] == a.drop_last()[i]);
                    assert(b[i] == b.drop_last()[i]);
                }
            }
            assert(a =~= b);
        } else {
            if a == b {
                lemma_edit_dist_self(a);
            }
        }
    }
}

/// The distance is symmetric: an insertion one way is a deletion the other.
pub proof fn lemma_edit_dist_symmetric(a: Seq<char>, b: Seq<char>)
    ensures
        edit_dist(a, b) == edit_dist(b, a),
    decreases a.len() + b.len(),
{
    if a.len() != 0 && b.len() != 0 {
        lemma_edit_dist_symmetric(a.drop_last(), b);
        lemma_edit_dist_symmetric(a, b.drop_last());
        lemma_edit_dist_symmetric(a.drop_last(), b.drop_last());
    }
}

/// The distance to or from the empty sequence is the other sequence's length.
pub proof fn lemma_edit_dist_empty(s: Seq<char>)
    ensures
        edit_dist(Seq::<char>::empty(), s) == s.len(),
        edit_dist(s, Seq::<char>::empty()) == s.len(),
{
}

/// Appending one character to either side raises the distance by at most one.
proof fn lemma_edit_dist_push_le(u: Seq<char>, c: char, w: Seq<char>)
    ensures
        edit_dist(u.push(c), w) <= edit_dist(u, w) + 1,
        edit_dist(u, w.push(c)) <= edit_dist(u, w) + 1,
{
    assert(u.push(c).drop_last() =~= u);
    assert(w.push(c).drop_last() =~= w);
}

/// Appending one character to the first side lowers the distance by at most one.
proof fn lemma_edit_dist_unpush_first(u: Seq<char>, c: char, w: Seq<char>)
    ensures
        edit_dist(u, w) <= edit_dist(u.push(c), w) + 1,
    decreases w.len(),
{
    assert(u.push(c).drop_last() =~= u);
    assert(u.push(c).last() == c);
    if w.len() != 0 {
        lemma_edit_dist_unpush_first(u, c, w.drop_last());
        lemma_edit_dist_push_le(u, w.last(), w.drop_last());
        assert(w.drop_last().push(w.last()) =~= w);
    }
}

/// Triangle inequality: editing `a` into `b` and then `b` into `c` is one way
/// of editing `a` into `c`, so the direct distance can only be smaller.
pub proof fn lemma_edit_dist_triangle(a: Seq<char>, b: Seq<char>, c: Seq<char>)
    ensures
        edit_dist(a, c) <= edit_dist(a, b) + edit_dist(b, c),
    decreases a.len() + b.len() + c.len(),
{
    if b.len() == 0 {
        lemma_edit_dist_le_longer(a, c);
    } else if a.len() == 0 {
        lemma_edit_dist_ge_len_diff(b, c);
    } else if c.len() == 0 {
        lemma_edit_dist_ge_len_diff(a, b);
    } else {
        let x: char = a.last();
        let y: char = b.last();
        let z: char = c.last();
        let a1: Seq<char> = a.drop_last();
        let b1: Seq<char> = b.drop_last();
        let c1: Seq<char> = c.drop_last();
        assert(a1.push(x) =~= a);
        assert(b1.push(y) =~= b);
        assert(c1.push(z) =~= c);
        if edit_dist(a, b) == edit_dist(a1, b) + 1 {
            lemma_edit_dist_triangle(a1, b, c);
            lemma_edit_dist_push_le(a1, x, c);
        } else if edit_dist(a, b) == edit_dist(a, b1) + 1 {
            lemma_edit_dist_triangle(a, b1, c);
            lemma_edit_dist_unpush_first(b1, y, c);
        } else {
            assert(edit_dist(a, b) == edit_dist(a1, b1) + diff_cost(x, y));
            if edit_dist(b, c) == edit_dist(b1, c) + 1 {
                lemma_edit_dist_triangle(a, b1, c);
                lemma_edit_dist_push_le(a1, x, b1);
            } else if edit_dist(b, c) == edit_dist(b, c1) + 1 {
                lemma_edit_dist_triangle(a, b, c1);
                lemma_edit_dist_push_le(a, z, c1);
            } else {
                assert(edit_dist(b, c) == edit_dist(b1, c1) + diff_cost(y, z));
                lemma_edit_dist_triangle(a1, b1, c1);
                assert(diff_cost(x, z) <= diff_cost(x, y) + diff_cost(y, z));
            }
        }
    }
}

/// An empty first row or column of the cost grid holds the identity cost.
proof fn lemma_edit_dist_take_zero(a: Seq<char>, b: Seq<char>, j: int)
    requires
        0 <= j <= b.len(),
    ensures
        edit_dist(a.take(0), b.take(j)) == j,
{
    assert(a.take(0).len() == 0);
    assert(b.take(j).len() == j);
}

/// The grid recurrence, phrased over prefixes: the cost of turning the first
/// `i` characters of `a` into the first `j` characters of `b`.
proof fn lemma_edit_dist_take_step(a: Seq<char>, b: Seq<char>, i: int, j: int)
    requires
        1 <= i <= a.len(),
        1 <= j <= b.len(),
    ensures
        edit_dist(a.take(i), b.take(j)) == min3(
            edit_dist(a.take(i - 1), b.take(j)) + 1,
            edit_dist(a.take(i), b.take(j - 1)) + 1,
            edit_dist(a.take(i - 1), b.take(j - 1)) + diff_cost(a[i - 1], b[j - 1]),
        ),
{
    assert(a.take(i).drop_last() =~= a.take(i - 1));
    assert(b.take(j).drop_last() =~= b.take(j - 1));
    assert(a.take(i).last() == a[i - 1]);
    assert(b.take(j).last() == b[j - 1]);
}

/// The characters of a string slice, in order, as a vector.
fn chars_of(s: &str) -> (v: Vec<char>)
    ensures
        v@ == s@,
{
    let n: usize = s.unicode_len();
    let mut v: Vec<char> = Vec::new();
    for i in 0..n
        invariant
            n == s@.len(),
            v@ == s@.take(i as int),
    {
        let c = s.get_char(i);
        v.push(c);
        proof {
            assert(v@ =~= s@.take(i as int + 1));
        }
    }
    proof {
        assert(s@.take(n as int) =~= s@);
    }
    v
}

/// The dynamic program over character vectors, keeping only the previous
/// grid row and the row under construction. Column `0` of the grid is the
/// identity cost and is kept implicit, so a row vector holds the costs for
/// the prefixes of `b` of lengths `1..=n2`.
fn dist_chars(a: &Vec<char>, b: &Vec<char>) -> (d: usize)
    ensures
        d == edit_dist(a@, b@),
{
    let n1: usize = a.len();
    let n2: usize = b.len();
    if n1 == 0 {
        return n2;
    }
    if n2 == 0 {
        return n1;
    }
    let mut prev: Vec<usize> = Vec::new();
    for j in 0..n2
        invariant
            n2 == b@.len(),
            prev@.len() == j,
            forall|k: int| 0 <= k < j ==> prev@[k] == k + 1,
    {
        prev.push(j + 1);
    }
    proof {
        assert forall|k: int| 0 <= k < n2 implies prev@[k] == edit_dist(
            a@.take(0),
            b@.take(k + 1),
        ) by {
            lemma_edit_dist_take_zero(a@, b@, k + 1);
        }
    }
    for i in 0..n1
        invariant
            n1 == a@.len(),
            n2 == b@.len(),
            n2 >= 1,
            prev@.len() == n2,
            forall|k: int| 0 <= k < n2 ==> prev@[k] == edit_dist(a@.take(i as int), b@.take(k + 1)),
    {
        let mut curr: Vec<usize> = Vec::new();
        for j in 0..n2
            invariant
                0 <= i < n1,
                n1 == a@.len(),
                n2 == b@.len(),
                prev@.len() == n2,
                forall|k: int| 0 <= k < n2 ==> prev@[k] == edit_dist(
                    a@.take(i as int),
                    b@.take(k + 1),
                ),
                curr@.len() == j,
                forall|k: int| 0 <= k < j ==> curr@[k] == edit_dist(
                    a@.take(i as int + 1),
                    b@.take(k + 1),
                ),
        {
            let cost: usize = if a[i] == b[j] {
                0
            } else {
                1
            };
            let up: usize = prev[j];
            let left: usize = if j == 0 {
                i + 1
            } else {
                curr[j - 1]
            };
            let diag: usize = if j == 0 {
                i
            } else {
                prev[j - 1]
            };
            proof {
                assert(a@.take(i as int).len() == i);
                assert(b@.take(0).len() == 0);
                assert(edit_dist(a@.take(i as int + 1), b@.take(0)) == i + 1);
                assert(edit_dist(a@.take(i as int), b@.take(0)) == i);
                assert(left == edit_dist(a@.take(i as int + 1), b@.take(j as int)));
                assert(diag == edit_dist(a@.take(i as int), b@.take(j as int)));
                lemma_edit_dist_le_longer(a@.take(i as int), b@.take(j as int));
                lemma_edit_dist_take_step(a@, b@, i as int + 1, j as int + 1);
            }
            let step: usize = if up < left {
                up
            } else {
                left
            };
            let mut d: usize = diag + cost;
            if step < d {
                d = step + 1;
            }
            proof {
                assert(d == min3((up + 1) as nat, (left + 1) as nat, (diag + cost) as nat));
            }
            curr.push(d);
        }
        prev = curr;
    }
    proof {
        assert(a@.take(n1 as int) =~= a@);
        assert(b@.take(n2 as int) =~= b@);
    }
    prev[n2 - 1]
}

/// Levenshtein distance between two strings, counted over Unicode scalar
/// values, so that a multi-byte character is one edit unit.
///
/// The result is exactly [`edit_dist`] of the two character sequences.
pub fn levenshtein_distance(s1: &str, s2: &str) -> (d: usize)
    ensures
        d == edit_dist(s1@, s2@),
{
    let a = chars_of(s1);
    let b = chars_of(s2);
    dist_chars(&a, &b)
}

/// Levenshtein distance between two strings.
pub fn calculate_distance(s1: &str, s2: &str) -> (d: usize)
    ensures
        d == edit_dist(s1@, s2@),
{
    levenshtein_distance(s1, s2)
}

} // verus!
