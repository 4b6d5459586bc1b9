//! Levenshtein edit distance over Unicode code points.
//!
//! `edit_dist` is the mathematical definition: the minimum number of
//! single-character insertions, deletions, or substitutions that turn one
//! character sequence into another.  `levenshtein_distance` computes it with
//! the Wagner-Fischer dynamic program, and the public lemmas establish that
//! `edit_dist` is a metric: zero on equal strings, symmetric, and obeying
//! the triangle inequality.

use vstd::prelude::*;
use vstd::string::StrSliceExecFns;

verus! {

/// Collects the characters of a string slice into a vector, one entry per
/// Unicode code point.
pub fn to_chars(s: &str) -> (v: Vec<char>)
    ensures
        v@ == s@,
{
    let n: usize = s.unicode_len();
    let mut v: Vec<char> = Vec::new();
    let mut i: usize = 0;
    while i < n
        invariant
            i <= n,
            n == s@.len(),
            v@ == s@.take(i as int),
        decreases n - i,
    {
        v.push(s.get_char(i));
        i = i + 1;
        proof {
            assert(v@ =~= s@.take(i as int));
        }
    }
    proof {
        assert(s@.take(n as int) =~= s@);
    }
    v
}

/// Minimum of two mathematical integers.
pub open spec fn min2_int(x: int, y: int) -> int {
    if x <= y {
        x
    } else {
        y
    }
}

/// Minimum of three mathematical integers.
pub open spec fn min3_int(x: int, y: int, z: int) -> int {
    min2_int(x, min2_int(y, z))
}

/// Levenshtein edit distance between two character sequences, defined by the
/// classic recurrence: deleting the last character of `a`, inserting the last
/// character of `b`, or substituting one for the other (free when they are
/// equal), whichever is cheapest.
pub open spec fn edit_dist(a: Seq<char>, b: Seq<char>) -> nat
    decreases a.len() + b.len(),
{
    if a.len() == 0 {
        b.len()
    } else if b.len() == 0 {
        a.len()
    } else {
        let del = edit_dist(a.drop_last(), b) + 1int;
        let ins = edit_dist(a, b.drop_last()) + 1int;
        let sub = edit_dist(a.drop_last(), b.drop_last()) + (if a.last() == b.last() {
            0int
        } else {
            1int
        });
        min3_int(del, ins, sub) as nat
    }
}

/// A string is at distance 0 from itself.
pub proof fn lemma_edit_dist_self(s: Seq<char>)
    ensures
        edit_dist(s, s) == 0,
    decreases s.len(),
{
    if s.len() > 0 {
        lemma_edit_dist_self(s.drop_last());
    }
}

/// Distance to or from the empty string is the other string's length.
pub proof fn lemma_edit_dist_empty(s: Seq<char>)
    ensures
        edit_dist(Seq::<char>::empty(), s) == s.len(),
        edit_dist(s, Seq::<char>::empty()) == s.len(),
{
}

/// Edit distance is symmetric.
pub proof fn lemma_edit_dist_symm(a: Seq<char>, b: Seq<char>)
    ensures
        edit_dist(a, b) == edit_dist(b, a),
    decreases a.len() + b.len(),
{
    if a.len() > 0 && b.len() > 0 {
        lemma_edit_dist_symm(a.drop_last(), b);
        lemma_edit_dist_symm(a, b.drop_last());
        lemma_edit_dist_symm(a.drop_last(), b.drop_last());
    }
}

/// Edit distance never exceeds the longer string's length: substitute along
/// the common prefix length and insert or delete the remainder.
pub proof fn lemma_edit_dist_le_max(a: Seq<char>, b: Seq<char>)
    ensures
        edit_dist(a, b) <= a.len() || edit_dist(a, b) <= b.len(),
        edit_dist(a, b) <= a.len() + b.len(),
    decreases a.len() + b.len(),
{
    if a.len() > 0 && b.len() > 0 {
        lemma_edit_dist_le_max(a.drop_last(), b);
        lemma_edit_dist_le_max(a, b.drop_last());
        lemma_edit_dist_le_max(a.drop_last(), b.drop_last());
    }
}

/// Edit distance is at least the difference of the lengths: every edit
/// operation changes the length by at most one.
pub proof fn lemma_edit_dist_ge_len_diff(a: Seq<char>, b: Seq<char>)
    ensures
        edit_dist(a, b) + b.len() >= a.len(),
        edit_dist(a, b) + a.len() >= b.len(),
    decreases a.len() + b.len(),
{
    if a.len() > 0 && b.len() > 0 {
        lemma_edit_dist_ge_len_diff(a.drop_last(), b);
        lemma_edit_dist_ge_len_diff(a, b.drop_last());
        lemma_edit_dist_ge_len_diff(a.drop_last(), b.drop_last());
    }
}

/// Dropping the last character of either string changes the distance by at
/// most one in either direction.
pub proof fn lemma_edit_dist_drop_last(a: Seq<char>, b: Seq<char>)
    requires
        a.len() > 0,
    ensures
        edit_dist(a, b) <= edit_dist(a.drop_last(), b) + 1,
        edit_dist(a.drop_last(), b) <= edit_dist(a, b) + 1,
    decreases a.len() + b.len(),
{
    if b.len() == 0 {
        // both distances are the string lengths
    } else if a.len() == 1 {
        lemma_edit_dist_ge_len_diff(a, b);
    } else {
        lemma_edit_dist_drop_last(a, b.drop_last());
        lemma_edit_dist_drop_last(a.drop_last(), b);
    }
}

/// The same bound for the second argument, via symmetry.
pub proof fn lemma_edit_dist_drop_last_right(a: Seq<char>, b: Seq<char>)
    requires
        b.len() > 0,
    ensures
        edit_dist(a, b) <= edit_dist(a, b.drop_last()) + 1,
        edit_dist(a, b.drop_last()) <= edit_dist(a, b) + 1,
{
    lemma_edit_dist_symm(a, b);
    lemma_edit_dist_symm(a, b.drop_last());
    lemma_edit_dist_drop_last(b, a);
}

/// When the last characters agree, the distance equals the distance of the
/// two strings with those characters removed.
pub proof fn lemma_edit_dist_last_eq(a: Seq<char>, b: Seq<char>)
    requires
        a.len() > 0,
        b.len() > 0,
        a.last() == b.last(),
    ensures
        edit_dist(a, b) == edit_dist(a.drop_last(), b.drop_last()),
{
    lemma_edit_dist_drop_last_right(a.drop_last(), b);
    lemma_edit_dist_drop_last(a, b.drop_last());
}

/// The triangle inequality: editing `a` into `b` and then `b` into `c` is one
/// way of editing `a` into `c`.
pub proof fn lemma_edit_dist_triangle(a: Seq<char>, b: Seq<char>, c: Seq<char>)
    ensures
        edit_dist(a, c) <= edit_dist(a, b) + edit_dist(b, c),
    decreases a.len() + b.len() + c.len(),
{
    if b.len() == 0 {
        lemma_edit_dist_le_max(a, c);
    } else if a.len() == 0 {
        lemma_edit_dist_ge_len_diff(b, c);
    } else if c.len() == 0 {
        lemma_edit_dist_ge_len_diff(a, b);
    } else {
        let a1 = a.drop_last();
        let b1 = b.drop_last();
        let c1 = c.drop_last();
        if a.last() == b.last() {
            lemma_edit_dist_last_eq(a, b);
            if b.last() == c.last() {
                lemma_edit_dist_last_eq(b, c);
                lemma_edit_dist_last_eq(a, c);
                lemma_edit_dist_triangle(a1, b1, c1);
            } else {
                // d(b, c) comes from one of the three recurrence branches
                if edit_dist(b, c) == edit_dist(b1, c) + 1 {
                    lemma_edit_dist_triangle(a1, b1, c);
                } else if edit_dist(b, c) == edit_dist(b, c1) + 1 {
                    lemma_edit_dist_triangle(a, b, c1);
                } else {
                    lemma_edit_dist_triangle(a1, b1, c1);
                }
            }
        } else {
            if edit_dist(a, b) == edit_dist(a1, b) + 1 {
                lemma_edit_dist_triangle(a1, b, c);
            } else if edit_dist(a, b) == edit_dist(a, b1) + 1 {
                lemma_edit_dist_triangle(a, b1, c);
                lemma_edit_dist_drop_last(b, c);
            } else {
                // substitution branch: d(a, b) == d(a1, b1) + 1
                if b.last() == c.last() {
                    lemma_edit_dist_last_eq(b, c);
                    lemma_edit_dist_triangle(a1, b1, c1);
                } else {
                    if edit_dist(b, c) == edit_dist(b1, c) + 1 {
                        lemma_edit_dist_triangle(a1, b1, c);
                    } else if edit_dist(b, c) == edit_dist(b, c1) + 1 {
                        lemma_edit_dist_triangle(a, b, c1);
                    } else {
                        lemma_edit_dist_triangle(a1, b1, c1);
                    }
                }
            }
        }
    }
}

/// One cell of the Wagner-Fischer matrix, unfolded: the distance of the
/// prefixes of lengths `i` and `j` satisfies the three-way recurrence.
pub proof fn lemma_edit_dist_step(a: Seq<char>, b: Seq<char>, i: int, j: int)
    requires
        1 <= i <= a.len(),
        1 <= j <= b.len(),
    ensures
        edit_dist(a.take(i), b.take(j)) == min3_int(
            edit_dist(a.take(i - 1), b.take(j)) + 1int,
            edit_dist(a.take(i), b.take(j - 1)) + 1int,
            edit_dist(a.take(i - 1), b.take(j - 1)) + (if a[i - 1] == b[j - 1] {
                0int
            } else {
                1int
            }),
        ),
{
    assert(a.take(i).drop_last() =~= a.take(i - 1));
    assert(b.take(j).drop_last() =~= b.take(j - 1));
}

/// Minimum of three machine integers.
pub fn min3(x: usize, y: usize, z: usize) -> (r: usize)
    ensures
        r == min3_int(x as int, y as int, z as int),
{
    let yz: usize = if y <= z {
        y
    } else {
        z
    };
    if x <= yz {
        x
    } else {
        yz
    }
}

/// Levenshtein edit distance between two strings, counted in Unicode code
/// points, computed by the Wagner-Fischer dynamic program with two rolling
/// rows.
pub fn levenshtein_distance(target: &str, other: &str) -> (d: usize)
    ensures
        d == edit_dist(target@, other@),
{
    let a = to_chars(target);
    let b = to_chars(other);
    let n: usize = a.len();
    let m: usize = b.len();
    // row 0: the distance from the empty prefix of `target` is the prefix
    // length of `other`
    let mut prev: Vec<usize> = Vec::new();
    let mut j: usize = 0;
    loop
        invariant_except_break
            j <= m,
            prev@.len() == j,
            forall|q: int| 0 <= q < j ==> prev@[q] == edit_dist(a@.take(0), b@.take(q)),
        invariant
            m == b@.len(),
        ensures
            prev@.len() == m + 1,
            forall|q: int| 0 <= q <= m ==> prev@[q] == edit_dist(a@.take(0), b@.take(q)),
        decreases m - j,
    {
        prev.push(j);
        if j == m {
            break ;
        }
        j = j + 1;
    }
    if n == 0 {
        proof {
            assert(a@.take(0) =~= a@);
            assert(b@.take(m as int) =~= b@);
        }
        return prev[m];
    }
    let mut i: usize = 1;
    loop
        invariant_except_break
            1 <= i <= n,
            prev@.len() == m + 1,
            forall|q: int| 0 <= q <= m ==> prev@[q] == edit_dist(a@.take(i - 1), b@.take(q)),
        invariant
            n == a@.len(),
            m == b@.len(),
            a@ == target@,
            b@ == other@,
            1 <= n,
        ensures
            prev@.len() == m + 1,
            forall|q: int| 0 <= q <= m ==> prev@[q] == edit_dist(a@.take(n as int), b@.take(q)),
        decreases n - i,
    {
        let mut curr: Vec<usize> = Vec::new();
        curr.push(i);
        let ai = a[i - 1];
        if m > 0 {
            let mut jj: usize = 1;
            loop
                invariant_except_break
                    1 <= jj <= m,
                    curr@.len() == jj,
                    forall|q: int| 0 <= q < jj ==> curr@[q] == edit_dist(a@.take(i as int), b@.take(q)),
                invariant
                    1 <= i <= n,
                    1 <= m,
                    n == a@.len(),
                    m == b@.len(),
                    ai == a@[i - 1],
                    prev@.len() == m + 1,
                    forall|q: int| 0 <= q <= m ==> prev@[q] == edit_dist(a@.take(i - 1), b@.take(q)),
                ensures
                    curr@.len() == m + 1,
                    forall|q: int| 0 <= q <= m ==> curr@[q] == edit_dist(a@.take(i as int), b@.take(q)),
                decreases m - jj,
            {
                let cost: usize = if ai == b[jj - 1] {
                    0
                } else {
                    1
                };
                proof {
                    lemma_edit_dist_le_max(a@.take(i - 1), b@.take(jj as int));
                    lemma_edit_dist_le_max(a@.take(i as int), b@.take(jj - 1));
                    lemma_edit_dist_le_max(a@.take(i - 1), b@.take(jj - 1));
                    lemma_edit_dist_step(a@, b@, i as int, jj as int);
                }
                // the deletion and insertion candidates would be `best + 1`,
                // which can only matter when it undercuts the substitution
                // candidate; comparing first keeps every sum within `usize`
                let best: usize = if prev[jj] <= curr[jj - 1] {
                    prev[jj]
                } else {
                    curr[jj - 1]
                };
                let sub: usize = prev[jj - 1] + cost;
                let v: usize = if best >= sub {
                    sub
                } else {
                    best + 1
                };
                curr.push(v);
                if jj == m {
                    break ;
                }
                jj = jj + 1;
            }
        }
        prev = curr;
        if i == n {
            break ;
        }
        i = i + 1;
    }
    proof {
        assert(a@.take(n as int) =~= a@);
        assert(b@.take(m as int) =~= b@);
    }
    prev[m]
}

} // verus!

