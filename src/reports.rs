//! Reactor reports: rows of levels that are safe when they move steadily in
//! one direction by one to three at each step.
use vstd::prelude::*;
use crate::counting::{count_where, lemma_count_prefix};
use crate::text::{lines, parse_i8, small_signed_value, split_lines, split_words, words};

verus! {

/// The direction a report moves in.
#[derive(Debug, Clone, Copy, PartialEq, Eq, Structural)]
pub enum Direction {
    Increasing,
    Decreasing,
}

/// Whether the step from `a` to `b` is acceptable under `direction`, and
/// the direction afterwards: an undecided direction is fixed by the first
/// acceptable step.
pub open spec fn step_check(a: int, b: int, direction: Option<Direction>) -> (bool, Option<
    Direction,
>) {
    let d = b - a;
    if d <= -4 || d >= 4 {
        (false, direction)
    } else if d < 0 && direction is None {
        (true, Some(Direction::Decreasing))
    } else if d > 0 && direction is None {
        (true, Some(Direction::Increasing))
    } else if d > 0 && direction == Some(Direction::Decreasing) {
        (false, direction)
    } else if d < 0 && direction == Some(Direction::Increasing) {
        (false, direction)
    } else if d == 0 {
        (false, direction)
    } else {
        (true, direction)
    }
}

/// The verdict of the scan of `levels` from the step ending at `i` on, with
/// the current direction, the tolerance left, and whether level `i` is to be
/// passed over.
///
/// A failing step from `i - 1` to `i` uses up one unit of tolerance when a
/// level follows: the scan then checks the step from `i - 1` to `i + 1`
/// instead, and goes on past `i + 1` when that step fails too; when it holds,
/// or no tolerance or following level is left, the report is unsafe.
pub open spec fn safe_from(
    levels: Seq<i8>,
    i: nat,
    direction: Option<Direction>,
    tolerance: nat,
    skip: bool,
) -> bool
    decreases levels.len() - i,
{
    if i >= levels.len() || i == 0 {
        i >= levels.len()
    } else if skip {
        safe_from(levels, i + 1, direction, tolerance, false)
    } else {
        let (ok, d1) = step_check(levels[i - 1] as int, levels[i as int] as int, direction);
        if ok {
            safe_from(levels, i + 1, d1, tolerance, false)
        } else if tolerance > 0 && i + 1 < levels.len() {
            let (ok2, d2) = step_check(levels[i - 1] as int, levels[(i + 1) as int] as int, d1);
            if !ok2 {
                safe_from(levels, i + 1, d2, (tolerance - 1) as nat, true)
            } else {
                false
            }
        } else {
            false
        }
    }
}

/// Whether `levels` passes the scan that starts with `direction` and
/// `tolerance`.
pub open spec fn report_safe(levels: Seq<i8>, direction: Option<Direction>, tolerance: nat) -> bool {
    levels.len() <= 1 || safe_from(levels, 1, direction, tolerance, false)
}

/// One report: its levels in order.
#[derive(Clone, Debug)]
pub struct Report(pub Vec<i8>);

impl Report {
    /// Scans the report from its first step on, starting in `direction`
    /// (undecided when `None`) with `tolerance` failing steps allowed.
    pub fn is_safe(&self, direction: Option<Direction>, tolerance: usize) -> (r: bool)
        ensures
            r == report_safe(self.0@, direction, tolerance as nat),
    {
        let n = self.0.len();
        if n <= 1 {
            return true;
        }
        let mut dir = direction;
        let mut tol = tolerance;
        let mut skip = false;
        let mut i: usize = 1;
        while i < n
            invariant
                1 <= i <= n,
                n == self.0@.len(),
                safe_from(self.0@, i as nat, dir, tol as nat, skip) == report_safe(
                    self.0@,
                    direction,
                    tolerance as nat,
                ),
            decreases n - i,
        {
            if skip {
                skip = false;
                i = i + 1;
                continue;
            }
            if !Self::safe_comparison(self.0[i - 1], self.0[i], &mut dir) {
                if tol > 0 && i + 1 < n {
                    tol = tol - 1;
                    if !Self::safe_comparison(self.0[i - 1], self.0[i + 1], &mut dir) {
                        skip = true;
                        i = i + 1;
                        continue;
                    }
                }
                return false;
            }
            i = i + 1;
        }
        true
    }

    /// Whether the report is safe when scanned as decreasing or as
    /// increasing from the start; this lets a misplaced second level be
    /// tolerated even though it would have fixed the wrong direction.
    pub fn is_safe_any_way(&self, tolerance: usize) -> (r: bool)
        ensures
            r == (report_safe(self.0@, Some(Direction::Decreasing), tolerance as nat)
                || report_safe(self.0@, Some(Direction::Increasing), tolerance as nat)),
    {
        self.is_safe(Some(Direction::Decreasing), tolerance) || self.is_safe(
            Some(Direction::Increasing),
            tolerance,
        )
    }

    /// Checks the step from `a` to `b` under `direction`, fixing an
    /// undecided direction on an acceptable step.
    fn safe_comparison(a: i8, b: i8, direction: &mut Option<Direction>) -> (r: bool)
        ensures
            (r, *final(direction)) == step_check(a as int, b as int, *old(direction)),
    {
        let d: i16 = b as i16 - a as i16;
        if d <= -4 || d >= 4 {
            return false;
        }
        match *direction {
            None => {
                if d < 0 {
                    *direction = Some(Direction::Decreasing);
                    true
                } else if d > 0 {
                    *direction = Some(Direction::Increasing);
                    true
                } else {
                    false
                }
            },
            Some(Direction::Decreasing) => d < 0,
            Some(Direction::Increasing) => d > 0,
        }
    }
}

/// Counts the reports that are safe in the sense of `safe_for`.
fn count_reports(reports: &Vec<Report>, tolerant: bool) -> (r: u64)
    ensures
        r == count_where(reports@, |rep: Report| safe_for(rep, tolerant)),
{
    let ghost f = |rep: Report| safe_for(rep, tolerant);
    let mut count: u64 = 0;
    let mut i: usize = 0;
    while i < reports.len()
        invariant
            i <= reports@.len(),
            count == count_where(reports@.subrange(0, i as int), f),
            count <= i,
            f == (|rep: Report| safe_for(rep, tolerant)),
        decreases reports.len() - i,
    {
        proof {
            lemma_count_prefix(reports@, f, i as int);
        }
        let rep = &reports[i];
        let safe = if tolerant {
            rep.is_safe_any_way(1)
        } else {
            rep.is_safe(None, 0)
        };
        proof {
            assert(f(reports@[i as int]) == safe);
        }
        if safe {
            count = count + 1;
        }
        i = i + 1;
    }
    proof {
        assert(reports@.subrange(0, i as int) =~= reports@);
    }
    count
}

/// Whether a report counts: strictly safe, or when `tolerant`, safe either
/// way with one failing step tolerated.
pub open spec fn safe_for(rep: Report, tolerant: bool) -> bool {
    if tolerant {
        report_safe(rep.0@, Some(Direction::Decreasing), 1) || report_safe(
            rep.0@,
            Some(Direction::Increasing),
            1,
        )
    } else {
        report_safe(rep.0@, None, 0)
    }
}

/// The number of reports that are safe with no tolerance.
pub fn part_one(reports: &Vec<Report>) -> (r: u64)
    ensures
        r == count_where(reports@, |rep: Report| safe_for(rep, false)),
{
    count_reports(reports, false)
}

/// The number of reports that are safe either way with one failing step
/// tolerated.
pub fn part_two(reports: &Vec<Report>) -> (r: u64)
    ensures
        r == count_where(reports@, |rep: Report| safe_for(rep, true)),
{
    count_reports(reports, true)
}

/// The levels that white-space separated words read as, if every one is a
/// number that fits in `i8`.
pub open spec fn levels_of(ws: Seq<Seq<char>>) -> Option<Seq<i8>>
    decreases ws.len(),
{
    if ws.len() == 0 {
        Some(Seq::empty())
    } else {
        match (levels_of(ws.drop_last()), small_signed_value(ws.last())) {
            (Some(vs), Some(v)) => Some(vs.push(v)),
            _ => None,
        }
    }
}

/// The levels of each line, if every line reads as levels.
pub open spec fn all_levels(ls: Seq<Seq<char>>) -> Option<Seq<Seq<i8>>>
    decreases ls.len(),
{
    if ls.len() == 0 {
        Some(Seq::empty())
    } else {
        match (all_levels(ls.drop_last()), levels_of(words(ls.last()))) {
            (Some(rs), Some(r)) => Some(rs.push(r)),
            _ => None,
        }
    }
}

proof fn lemma_levels_fail(ws: Seq<Seq<char>>, i: int, j: int)
    requires
        0 <= i <= j <= ws.len(),
        levels_of(ws.subrange(0, i)) is None,
    ensures
        levels_of(ws.subrange(0, j)) is None,
    decreases j - i,
{
    if i < j {
        lemma_levels_fail(ws, i, j - 1);
        assert(ws.subrange(0, j).drop_last() =~= ws.subrange(0, j - 1));
    }
}

proof fn lemma_all_levels_fail(ls: Seq<Seq<char>>, i: int, j: int)
    requires
        0 <= i <= j <= ls.len(),
        all_levels(ls.subrange(0, i)) is None,
    ensures
        all_levels(ls.subrange(0, j)) is None,
    decreases j - i,
{
    if i < j {
        lemma_all_levels_fail(ls, i, j - 1);
        assert(ls.subrange(0, j).drop_last() =~= ls.subrange(0, j - 1));
    }
}

impl Report {
    /// Reads a line of white-space separated levels.
    pub fn parse(line: &[char]) -> (r: Option<Report>)
        ensures
            match levels_of(words(line@)) {
                None => r is None,
                Some(vs) => r matches Some(rep) && rep.0@ == vs,
            },
    {
        let ws = split_words(line);
        let ghost views = ws@.map_values(|w: Vec<char>| w@);
        let mut levels: Vec<i8> = Vec::new();
        let mut i: usize = 0;
        while i < ws.len()
            invariant
                i <= ws@.len(),
                views == ws@.map_values(|w: Vec<char>| w@),
                views == words(line@),
                levels_of(views.subrange(0, i as int)) == Some(levels@),
            decreases ws.len() - i,
        {
            proof {
                assert(views.subrange(0, i + 1).drop_last() =~= views.subrange(0, i as int));
                assert(views[i as int] == ws@[i as int]@);
            }
            match parse_i8(ws[i].as_slice()) {
                Some(v) => {
                    levels.push(v);
                },
                None => {
                    proof {
                        lemma_levels_fail(views, i as int + 1, views.len() as int);
                        assert(views.subrange(0, views.len() as int) =~= views);
                    }
                    return None;
                },
            }
            i = i + 1;
        }
        proof {
            assert(views.subrange(0, views.len() as int) =~= views);
        }
        Some(Report(levels))
    }
}

/// Reads one report per line.
pub fn parse_reports(text: &[char]) -> (r: Option<Vec<Report>>)
    ensures
        match all_levels(lines(text@)) {
            None => r is None,
            Some(rs) => r matches Some(v) && v@.len() == rs.len() && forall|i: int|
                0 <= i < rs.len() ==> #[trigger] v@[i].0@ == rs[i],
        },
{
    let ls = split_lines(text);
    let ghost views = ls@.map_values(|l: Vec<char>| l@);
    let mut reports: Vec<Report> = Vec::new();
    let mut i: usize = 0;
    while i < ls.len()
        invariant
            i <= ls@.len(),
            views == ls@.map_values(|l: Vec<char>| l@),
            views == lines(text@),
            all_levels(views.subrange(0, i as int)) matches Some(rs) && rs.len() == i
                && reports@.len() == i && forall|j: int|
                0 <= j < i ==> #[trigger] reports@[j].0@ == rs[j],
        decreases ls.len() - i,
    {
        proof {
            assert(views.subrange(0, i + 1).drop_last() =~= views.subrange(0, i as int));
            assert(views[i as int] == ls@[i as int]@);
        }
        match Report::parse(ls[i].as_slice()) {
            Some(rep) => {
                reports.push(rep);
            },
            None => {
                proof {
                    lemma_all_levels_fail(views, i as int + 1, views.len() as int);
                    assert(views.subrange(0, views.len() as int) =~= views);
                }
                return None;
            },
        }
        i = i + 1;
    }
    proof {
        assert(views.subrange(0, views.len() as int) =~= views);
    }
    Some(reports)
}

} // verus!
