//! Two columns of location ids: the total distance between them once both
//! are sorted, and their similarity score.
use vstd::prelude::*;
use vstd::relations::{sorted_by, total_ordering};

use crate::common::Solution;
use crate::text::{
    chars_of, lines, parse_i32, parse_i32_spec, split_lines, split_words, views_of, words,
};

verus! {

pub open spec fn ascending() -> spec_fn(i32, i32) -> bool {
    |a: i32, b: i32| a <= b
}

/// The values of `s` in ascending order.
pub open spec fn sorted(s: Seq<i32>) -> Seq<i32> {
    s.sort_by(ascending())
}

/// The numbers in column `k` of the lines `ls`, where every line has such a
/// column and it holds an `i32`.
pub open spec fn column(ls: Seq<Seq<char>>, k: int) -> Option<Seq<i32>>
    decreases ls.len(),
{
    if ls.len() == 0 {
        Some(Seq::empty())
    } else {
        let ws = words(ls.last());
        match column(ls.drop_last(), k) {
            Some(c) => if k < ws.len() {
                match parse_i32_spec(ws[k]) {
                    Some(n) => Some(c.push(n)),
                    None => None,
                }
            } else {
                None
            },
            None => None,
        }
    }
}

pub open spec fn abs(x: int) -> int {
    if x < 0 {
        -x
    } else {
        x
    }
}

/// The sum of `|a[i] - b[i]|` over the first `n` positions of `a` that `b`
/// has too.
pub open spec fn distance(a: Seq<i32>, b: Seq<i32>, n: int) -> int
    decreases n,
{
    if n <= 0 {
        0
    } else {
        distance(a, b, n - 1) + if n - 1 < b.len() {
            abs(a[n - 1] - b[n - 1])
        } else {
            0
        }
    }
}

/// How often `v` occurs in `s`.
pub open spec fn occurrences(s: Seq<i32>, v: i32) -> int
    decreases s.len(),
{
    if s.len() == 0 {
        0
    } else {
        occurrences(s.drop_last(), v) + if s.last() == v { 1int } else { 0int }
    }
}

/// What the `i`-th value of `a` adds to the similarity score.
pub open spec fn similarity_term(a: Seq<i32>, b: Seq<i32>, i: int) -> int {
    a[i] * occurrences(b, a[i])
}

/// The sum of the similarity terms of the first `n` values of `a`.
pub open spec fn similarity(a: Seq<i32>, b: Seq<i32>, n: int) -> int
    decreases n,
{
    if n <= 0 {
        0
    } else {
        similarity(a, b, n - 1) + similarity_term(a, b, n - 1)
    }
}

pub open spec fn fits_i32(x: int) -> bool {
    i32::MIN <= x <= i32::MAX
}

/// Every term and every partial sum of the similarity score fits in an `i32`.
pub open spec fn similarity_fits(a: Seq<i32>, b: Seq<i32>) -> bool {
    forall|n: int|
        0 <= n < a.len() ==> fits_i32(#[trigger] similarity_term(a, b, n)) && fits_i32(
            similarity(a, b, n + 1),
        )
}

/// Relies on `slice::sort`: the same values, in ascending order.
#[verifier::external_body]
fn sort_ascending(v: &mut Vec<i32>)
    ensures
        sorted_by(final(v)@, ascending()),
        final(v)@.to_multiset() == old(v)@.to_multiset(),
{
    v.sort()
}

proof fn lemma_ascending_total()
    ensures
        total_ordering(ascending()),
{
}

fn sort_column(v: &mut Vec<i32>)
    ensures
        final(v)@ == sorted(old(v)@),
{
    sort_ascending(v);
    proof {
        lemma_ascending_total();
        old(v)@.lemma_sort_by_ensures(ascending());
        vstd::seq_lib::lemma_sorted_unique(v@, sorted(old(v)@), ascending());
    }
}

proof fn lemma_column_fails_on_prefix(ls: Seq<Seq<char>>, k: int, i: int)
    requires
        0 <= i <= ls.len(),
        column(ls.take(i), k) is None,
    ensures
        column(ls, k) is None,
    decreases ls.len(),
{
    if i == ls.len() {
        assert(ls.take(i) == ls);
    } else {
        assert(ls.drop_last().take(i) == ls.take(i));
        lemma_column_fails_on_prefix(ls.drop_last(), k, i);
    }
}

/// The number in column `k` of each line of `ls`.
fn read_column(ls: &Vec<Vec<char>>, k: usize) -> (r: Option<Vec<i32>>)
    ensures
        match r {
            Some(c) => column(views_of(ls@), k as int) == Some(c@),
            None => column(views_of(ls@), k as int) is None,
        },
{
    let ghost lv = views_of(ls@);
    let mut col: Vec<i32> = Vec::new();
    let mut i: usize = 0;
    while i < ls.len()
        invariant
            i <= ls@.len(),
            lv == views_of(ls@),
            column(lv.take(i as int), k as int) == Some(col@),
        decreases ls@.len() - i,
    {
        proof {
            assert(lv.take(i + 1).drop_last() == lv.take(i as int));
            assert(lv.take(i + 1).last() == ls@[i as int]@);
        }
        let ws = split_words(&ls[i]);
        proof {
            if k < ws@.len() {
                assert(views_of(ws@)[k as int] == ws@[k as int]@);
            }
        }
        let value = if k < ws.len() {
            parse_i32(&ws[k])
        } else {
            None
        };
        match value {
            Some(n) => col.push(n),
            None => {
                proof {
                    lemma_column_fails_on_prefix(lv, k as int, i + 1);
                }
                return None;
            },
        }
        i += 1;
    }
    proof {
        assert(lv.take(i as int) == lv);
    }
    Some(col)
}

/// The two columns of `input`, each sorted in ascending order. Fails when a
/// line lacks a column or a column is not an `i32`.
pub fn parse_input(input: String) -> (r: Result<[Vec<i32>; 2], String>)
    ensures
        match r {
            Ok(cols) => column(lines(input@), 0) is Some && column(lines(input@), 1) is Some
                && cols[0]@ == sorted(column(lines(input@), 0)->0)
                && cols[1]@ == sorted(column(lines(input@), 1)->0),
            Err(_) => column(lines(input@), 0) is None || column(lines(input@), 1) is None,
        },
{
    let ls = split_lines(&chars_of(input.as_str()));
    let column1 = read_column(&ls, 0);
    let column2 = read_column(&ls, 1);
    match (column1, column2) {
        (Some(mut col1), Some(mut col2)) => {
            sort_column(&mut col1);
            sort_column(&mut col2);
            Ok([col1, col2])
        },
        _ => Err("Could not parse input".to_owned()),
    }
}

proof fn lemma_distance_grows(a: Seq<i32>, b: Seq<i32>, i: int, n: int)
    requires
        0 <= i <= n,
    ensures
        0 <= distance(a, b, i) <= distance(a, b, n),
    decreases n,
{
    if i < n {
        lemma_distance_grows(a, b, i, n - 1);
    } else if n > 0 {
        lemma_distance_grows(a, b, 0, n - 1);
    }
}

/// The total distance between the columns, position by position, where it
/// fits in an `i32`.
pub fn calculate_distances(columns: &[Vec<i32>; 2]) -> (r: Option<i32>)
    ensures
        r == (if distance(columns[0]@, columns[1]@, columns[0]@.len() as int) <= i32::MAX {
            Some(distance(columns[0]@, columns[1]@, columns[0]@.len() as int) as i32)
        } else {
            None
        }),
        distance(columns[0]@, columns[1]@, columns[0]@.len() as int) >= 0,
{
    let column1 = &columns[0];
    let column2 = &columns[1];
    let ghost n = column1@.len() as int;
    proof {
        lemma_distance_grows(column1@, column2@, 0, n);
    }
    let mut distances: i64 = 0;
    let mut i: usize = 0;
    while i < column1.len()
        invariant
            column1 == &columns[0],
            column2 == &columns[1],
            n == column1@.len(),
            i <= n,
            distances == distance(column1@, column2@, i as int),
            0 <= distances <= i32::MAX,
        decreases n - i,
    {
        if i < column2.len() {
            let diff = column1[i] as i64 - column2[i] as i64;
            distances = distances + if diff < 0 {
                -diff
            } else {
                diff
            };
        }
        i += 1;
        if distances > i32::MAX as i64 {
            proof {
                lemma_distance_grows(column1@, column2@, i as int, n);
            }
            return None;
        }
    }
    Some(distances as i32)
}

/// How often `v` occurs in `s`.
fn count_occurrences(s: &Vec<i32>, v: i32) -> (r: usize)
    ensures
        r == occurrences(s@, v),
{
    let mut count: usize = 0;
    let mut i: usize = 0;
    while i < s.len()
        invariant
            i <= s@.len(),
            count <= i,
            count == occurrences(s@.take(i as int), v),
        decreases s@.len() - i,
    {
        proof {
            assert(s@.take(i + 1).drop_last() == s@.take(i as int));
        }
        if s[i] == v {
            count += 1;
        }
        i += 1;
    }
    proof {
        assert(s@.take(i as int) == s@);
    }
    count
}

/// The similarity score: each value of the first column times the number of
/// its occurrences in the second, summed in order; none where a term or a
/// partial sum leaves the range of `i32`.
pub fn calculate_similiarities(columns: &[Vec<i32>; 2]) -> (r: Option<i32>)
    ensures
        r == (if similarity_fits(columns[0]@, columns[1]@) {
            Some(similarity(columns[0]@, columns[1]@, columns[0]@.len() as int) as i32)
        } else {
            None
        }),
        r matches Some(x) ==> x == similarity(columns[0]@, columns[1]@, columns[0]@.len() as int),
{
    let column1 = &columns[0];
    let column2 = &columns[1];
    let mut sum: i32 = 0;
    let mut i: usize = 0;
    while i < column1.len()
        invariant
            column1 == &columns[0],
            column2 == &columns[1],
            i <= column1@.len(),
            sum == similarity(column1@, column2@, i as int),
            forall|k: int| 0 <= k < i ==> fits_i32(#[trigger] similarity_term(column1@, column2@, k)) && fits_i32(
                similarity(column1@, column2@, k + 1),
            ),
        decreases column1@.len() - i,
    {
        let v = column1[i];
        let count = count_occurrences(column2, v);
        proof {
            assert(-2147483648 * 18446744073709551615 <= v as int * count as int
                <= 2147483647 * 18446744073709551615) by (nonlinear_arith)
                requires
                    i32::MIN <= v <= i32::MAX,
                    0 <= count <= usize::MAX,
            ;
        }
        let term = v as i128 * count as i128;
        assert(term == similarity_term(column1@, column2@, i as int));
        if term < i32::MIN as i128 || term > i32::MAX as i128 {
            return None;
        }
        let next = sum as i64 + term as i64;
        if next < i32::MIN as i64 || next > i32::MAX as i64 {
            return None;
        }
        sum = next as i32;
        i += 1;
    }
    Some(sum)
}

/// What `solve` returns for `input`.
pub open spec fn solved(input: Seq<char>, r: Result<Solution, String>) -> bool {
    match r {
        Ok(sol) => column(lines(input), 0) is Some && column(lines(input), 1) is Some
            && sol.one_star_answer == distance(
            sorted(column(lines(input), 0)->0),
            sorted(column(lines(input), 1)->0),
            column(lines(input), 0)->0.len() as int,
        ) && sol.two_star_answer == similarity(
            sorted(column(lines(input), 0)->0),
            sorted(column(lines(input), 1)->0),
            column(lines(input), 0)->0.len() as int,
        ),
        Err(_) => column(lines(input), 0) is None || column(lines(input), 1) is None
            || distance(
            sorted(column(lines(input), 0)->0),
            sorted(column(lines(input), 1)->0),
            column(lines(input), 0)->0.len() as int,
        ) > i32::MAX || !similarity_fits(
            sorted(column(lines(input), 0)->0),
            sorted(column(lines(input), 1)->0),
        ),
    }
}

/// Both answers for the two columns: their total distance once sorted, and
/// their similarity score. Fails when the input cannot be read or an answer
/// does not fit in an `i32`.
pub fn solve(input: String) -> (r: Result<Solution, String>)
    ensures
        solved(input@, r),
{
    let columns = parse_input(input)?;
    proof {
        let c = column(lines(input@), 0)->0;
        c.lemma_sort_by_ensures(ascending());
        c.to_multiset_ensures();
        sorted(c).to_multiset_ensures();
    }
    match (calculate_distances(&columns), calculate_similiarities(&columns)) {
        (Some(one_star_answer), Some(two_star_answer)) => Ok(Solution { one_star_answer, two_star_answer }),
        _ => Err("an answer does not fit in an i32".to_owned()),
    }
}

} // verus!
