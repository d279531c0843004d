//! Safety of reports of levels: a report is safe when its levels move in one
//! direction by at most three at each step, and tolerably safe when removing
//! one level makes it safe.
use vstd::prelude::*;

use crate::common::Solution;
use crate::text::{
    chars_of, lines, parse_i32, parse_i32_spec, split_lines, split_words, views_of, words,
};

verus! {

/// The direction from `a` to `b`: `1` up, `-1` down, `0` level.
pub open spec fn tendency(a: int, b: int) -> int {
    if b == a {
        0
    } else if b < a {
        -1
    } else {
        1
    }
}

pub open spec fn abs(x: int) -> int {
    if x < 0 {
        -x
    } else {
        x
    }
}

/// At least two levels, every step in the direction of the first step and
/// by at most three.
pub open spec fn is_safe(r: Seq<i32>) -> bool {
    r.len() >= 2 && forall|i: int|
        1 <= i < r.len() ==> tendency(r[i - 1] as int, #[trigger] r[i] as int) == tendency(
            r[0] as int,
            r[1] as int,
        ) && abs(r[i] - r[i - 1]) <= 3
}

/// Safe, or safe once one level is removed.
pub open spec fn is_tolerably_safe(r: Seq<i32>) -> bool {
    is_safe(r) || exists|i: int| 0 <= i < r.len() && #[trigger] is_safe(r.remove(i))
}

/// `s` without its element at `k`, where there is one.
pub open spec fn without(s: Seq<i32>, k: int) -> Seq<i32> {
    if 0 <= k < s.len() {
        s.remove(k)
    } else {
        s
    }
}

/// The numbers of the words `ws`, where every word is an `i32`.
pub open spec fn parse_numbers(ws: Seq<Seq<char>>) -> Option<Seq<i32>>
    decreases ws.len(),
{
    if ws.len() == 0 {
        Some(Seq::empty())
    } else {
        match (parse_numbers(ws.drop_last()), parse_i32_spec(ws.last())) {
            (Some(ns), Some(n)) => Some(ns.push(n)),
            _ => None,
        }
    }
}

/// One report per line, where every line holds only `i32` words.
pub open spec fn parse_reports(ls: Seq<Seq<char>>) -> Option<Seq<Seq<i32>>>
    decreases ls.len(),
{
    if ls.len() == 0 {
        Some(Seq::empty())
    } else {
        match (parse_reports(ls.drop_last()), parse_numbers(words(ls.last()))) {
            (Some(rs), Some(r)) => Some(rs.push(r)),
            _ => None,
        }
    }
}

pub open spec fn reports_of(s: Seq<char>) -> Option<Seq<Seq<i32>>> {
    parse_reports(lines(s))
}

/// The number of safe reports.
pub open spec fn safe_count(rs: Seq<Seq<i32>>) -> int
    decreases rs.len(),
{
    if rs.len() == 0 {
        0
    } else {
        safe_count(rs.drop_last()) + if is_safe(rs.last()) { 1int } else { 0int }
    }
}

/// The number of tolerably safe reports.
pub open spec fn tolerable_count(rs: Seq<Seq<i32>>) -> int
    decreases rs.len(),
{
    if rs.len() == 0 {
        0
    } else {
        tolerable_count(rs.drop_last()) + if is_tolerably_safe(rs.last()) { 1int } else { 0int }
    }
}

proof fn lemma_numbers_fail_on_prefix(ws: Seq<Seq<char>>, k: int)
    requires
        0 <= k <= ws.len(),
        parse_numbers(ws.take(k)) is None,
    ensures
        parse_numbers(ws) is None,
    decreases ws.len(),
{
    if k == ws.len() {
        assert(ws.take(k) == ws);
    } else {
        assert(ws.drop_last().take(k) == ws.take(k));
        lemma_numbers_fail_on_prefix(ws.drop_last(), k);
    }
}

proof fn lemma_reports_fail_on_prefix(ls: Seq<Seq<char>>, k: int)
    requires
        0 <= k <= ls.len(),
        parse_reports(ls.take(k)) is None,
    ensures
        parse_reports(ls) is None,
    decreases ls.len(),
{
    if k == ls.len() {
        assert(ls.take(k) == ls);
    } else {
        assert(ls.drop_last().take(k) == ls.take(k));
        lemma_reports_fail_on_prefix(ls.drop_last(), k);
    }
}

pub open spec fn report_views(v: Seq<Vec<i32>>) -> Seq<Seq<i32>> {
    v.map_values(|r: Vec<i32>| r@)
}

/// The numbers of the words `ws`.
fn parse_line(ws: &Vec<Vec<char>>) -> (r: Option<Vec<i32>>)
    ensures
        match r {
            Some(v) => parse_numbers(views_of(ws@)) == Some(v@),
            None => parse_numbers(views_of(ws@)) is None,
        },
{
    let ghost wv = views_of(ws@);
    let mut levels: Vec<i32> = Vec::new();
    let mut i: usize = 0;
    while i < ws.len()
        invariant
            i <= ws@.len(),
            wv == views_of(ws@),
            parse_numbers(wv.take(i as int)) == Some(levels@),
        decreases ws@.len() - i,
    {
        proof {
            assert(wv.take(i + 1).drop_last() == wv.take(i as int));
            assert(wv.take(i + 1).last() == ws@[i as int]@);
        }
        match parse_i32(&ws[i]) {
            Some(n) => levels.push(n),
            None => {
                proof {
                    lemma_numbers_fail_on_prefix(wv, i + 1);
                }
                return None;
            },
        }
        i += 1;
    }
    proof {
        assert(wv.take(i as int) == wv);
    }
    Some(levels)
}

/// One report per line of `input`. Fails when a word is not an `i32`.
pub fn parse_input(input: String) -> (r: Result<Vec<Vec<i32>>, String>)
    ensures
        match r {
            Ok(rs) => reports_of(input@) == Some(report_views(rs@)),
            Err(_) => reports_of(input@) is None,
        },
{
    let ls = split_lines(&chars_of(input.as_str()));
    let ghost lv = views_of(ls@);
    let mut reports: Vec<Vec<i32>> = Vec::new();
    let mut i: usize = 0;
    while i < ls.len()
        invariant
            i <= ls@.len(),
            lv == views_of(ls@),
            lv == lines(input@),
            parse_reports(lv.take(i as int)) == Some(report_views(reports@)),
        decreases ls@.len() - i,
    {
        proof {
            assert(lv.take(i + 1).drop_last() == lv.take(i as int));
            assert(lv.take(i + 1).last() == ls@[i as int]@);
        }
        match parse_line(&split_words(&ls[i])) {
            Some(levels) => {
                let ghost old_reports = reports@;
                reports.push(levels);
                proof {
                    assert(report_views(reports@) =~= report_views(old_reports).push(
                        reports@.last()@,
                    ));
                }
            },
            None => {
                proof {
                    lemma_reports_fail_on_prefix(lv, i + 1);
                }
                return Err("Invalid report format".to_owned());
            },
        }
        i += 1;
    }
    proof {
        assert(lv.take(i as int) == lv);
    }
    Ok(reports)
}

/// `report` without the level at `index`, or unchanged where there is none.
pub fn remove_from_report(report: &[i32], index: usize) -> (r: Vec<i32>)
    ensures
        r@ == without(report@, index as int),
{
    let mut new_report: Vec<i32> = Vec::new();
    let mut j: usize = 0;
    while j < report.len()
        invariant
            j <= report@.len(),
            new_report@ == without(report@.take(j as int), index as int),
        decreases report@.len() - j,
    {
        let ghost pre = report@.take(j as int);
        proof {
            assert(report@.take(j + 1) == pre.push(report@[j as int]));
        }
        if j != index {
            new_report.push(report[j]);
            proof {
                if index < j {
                    assert(pre.push(report@[j as int]).remove(index as int) =~= pre.remove(
                        index as int,
                    ).push(report@[j as int]));
                }
            }
        } else {
            proof {
                assert(pre.push(report@[j as int]).remove(index as int) =~= pre);
            }
        }
        j += 1;
    }
    proof {
        assert(report@.take(j as int) == report@);
    }
    new_report
}

/// Whether `report` is safe.
pub fn is_report_safe(report: &[i32]) -> (r: bool)
    ensures
        r == is_safe(report@),
{
    if report.len() < 2 {
        return false;
    }
    let tendency_init = get_tendency(report[0], report[1]);
    let mut i: usize = 1;
    while i < report.len()
        invariant
            1 <= i <= report@.len(),
            report@.len() >= 2,
            tendency_init == tendency(report@[0] as int, report@[1] as int),
            forall|k: int|
                1 <= k < i ==> tendency(report@[k - 1] as int, #[trigger] report@[k] as int)
                    == tendency(report@[0] as int, report@[1] as int) && abs(report@[k] - report@[k - 1]) <= 3,
        decreases report@.len() - i,
    {
        let previous_level = report[i - 1];
        let current_level = report[i];
        if get_tendency(previous_level, current_level) != tendency_init {
            return false;
        }
        let diff = current_level as i64 - previous_level as i64;
        if diff > 3 || diff < -3 {
            return false;
        }
        i += 1;
    }
    true
}

/// The direction from `a` to `b`: `1` up, `-1` down, `0` level.
pub fn get_tendency(a: i32, b: i32) -> (r: i32)
    ensures
        r == tendency(a as int, b as int),
{
    if b == a {
        0
    } else if b < a {
        -1
    } else {
        1
    }
}

/// Whether `report` is safe once one of its levels is removed.
fn is_safe_without_one(report: &Vec<i32>) -> (r: bool)
    ensures
        r == exists|i: int| 0 <= i < report@.len() && #[trigger] is_safe(report@.remove(i)),
{
    let mut i: usize = 0;
    while i < report.len()
        invariant
            i <= report@.len(),
            forall|k: int| 0 <= k < i ==> !#[trigger] is_safe(report@.remove(k)),
        decreases report@.len() - i,
    {
        let new_report = remove_from_report(report.as_slice(), i);
        if is_report_safe(new_report.as_slice()) {
            return true;
        }
        i += 1;
    }
    false
}

/// What `solve` returns for `input`.
pub open spec fn solved(input: Seq<char>, r: Result<Solution, String>) -> bool {
    match r {
        Ok(sol) => reports_of(input) is Some
            && sol.one_star_answer == safe_count(reports_of(input)->0)
            && sol.two_star_answer == tolerable_count(reports_of(input)->0),
        Err(_) => reports_of(input) is None || reports_of(input)->0.len() > i32::MAX,
    }
}

/// Both answers for a list of reports: the number of safe reports, and the
/// number of those safe once at most one level is removed. Fails when a
/// line holds a word that is not an `i32`, or when there are more reports
/// than an `i32` can count.
pub fn solve(input: String) -> (r: Result<Solution, String>)
    ensures
        solved(input@, r),
{
    let reports = parse_input(input)?;
    let ghost rv = report_views(reports@);
    if reports.len() > i32::MAX as usize {
        return Err("too many reports".to_owned());
    }
    let mut one_star_answer: i32 = 0;
    let mut two_star_answer: i32 = 0;
    let mut i: usize = 0;
    while i < reports.len()
        invariant
            i <= reports@.len() <= i32::MAX,
            rv == report_views(reports@),
            0 <= one_star_answer <= two_star_answer <= i,
            one_star_answer == safe_count(rv.take(i as int)),
            two_star_answer == tolerable_count(rv.take(i as int)),
        decreases reports@.len() - i,
    {
        let report = &reports[i];
        proof {
            assert(rv.take(i + 1).drop_last() == rv.take(i as int));
            assert(rv.take(i + 1).last() == report@);
        }
        if is_report_safe(report.as_slice()) {
            one_star_answer += 1;
            two_star_answer += 1;
        } else if is_safe_without_one(report) {
            two_star_answer += 1;
        }
        i += 1;
    }
    proof {
        assert(rv.take(i as int) == rv);
    }
    Ok(Solution { one_star_answer, two_star_answer })
}

} // verus!
