//! Two lists of location ids, read side by side: how far apart are they,
//! and how similar?
use vstd::prelude::*;
use crate::text::{lines, numbers, parse_all_u64, split_lines, split_words, words};

verus! {

/// Whether `s` is in ascending order.
pub open spec fn ascending(s: Seq<u64>) -> bool {
    forall|i: int, j: int| 0 <= i <= j < s.len() ==> s[i] <= s[j]
}

/// Whether `t` holds the elements of `s` in ascending order.
pub open spec fn sorted_from(t: Seq<u64>, s: Seq<u64>) -> bool {
    t.to_multiset() == s.to_multiset() && ascending(t)
}

/// The distance between `a` and `b`.
pub open spec fn gap(a: u64, b: u64) -> nat {
    if a >= b {
        (a - b) as nat
    } else {
        (b - a) as nat
    }
}

/// The sum of the distances between the entries of `a` and `b` at equal
/// positions, over the first `n`.
pub open spec fn total_gap(a: Seq<u64>, b: Seq<u64>, n: int) -> nat
    decreases n,
{
    if n <= 0 {
        0
    } else {
        total_gap(a, b, n - 1) + gap(a[n - 1], b[n - 1])
    }
}

/// The number of entries of `s` equal to `v`.
pub open spec fn occurrences(s: Seq<u64>, v: u64) -> nat
    decreases s.len(),
{
    if s.len() == 0 {
        0
    } else {
        occurrences(s.drop_last(), v) + if s.last() == v {
            1nat
        } else {
            0nat
        }
    }
}

/// The sum over the first `n` entries `v` of `left` of `v` times its number
/// of occurrences in `right`.
pub open spec fn similarity(left: Seq<u64>, right: Seq<u64>, n: int) -> nat
    decreases n,
{
    if n <= 0 {
        0
    } else {
        similarity(left, right, n - 1) + (left[n - 1] as nat) * occurrences(right, left[n - 1])
    }
}

/// `v` if it fits in `u64`.
pub open spec fn fitting(v: nat) -> Option<u64> {
    if v <= u64::MAX {
        Some(v as u64)
    } else {
        None
    }
}

/// Relies on `slice::sort`: the slice ends up in ascending order and holds
/// the same elements.
#[verifier::external_body]
fn sort_ids(v: &mut Vec<u64>)
    ensures
        sorted_from(final(v)@, old(v)@),
{
    v.sort();
}

/// The left column (`side == 0`) or right column (`side == 1`) of `rows`.
fn column(rows: &Vec<[u64; 2]>, side: usize) -> (r: Vec<u64>)
    requires
        side < 2,
    ensures
        r@.len() == rows@.len(),
        forall|i: int| 0 <= i < rows@.len() ==> r@[i] == #[trigger] rows@[i]@[side as int],
{
    let mut out: Vec<u64> = Vec::new();
    let mut i: usize = 0;
    while i < rows.len()
        invariant
            side < 2,
            i <= rows@.len(),
            out@.len() == i,
            forall|k: int| 0 <= k < i ==> out@[k] == #[trigger] rows@[k]@[side as int],
        decreases rows.len() - i,
    {
        out.push(rows[i][side]);
        i = i + 1;
    }
    out
}

/// The left ids, in row order.
pub open spec fn lefts(rows: Seq<[u64; 2]>) -> Seq<u64> {
    Seq::new(rows.len(), |i: int| rows[i]@[0])
}

/// The right ids, in row order.
pub open spec fn rights(rows: Seq<[u64; 2]>) -> Seq<u64> {
    Seq::new(rows.len(), |i: int| rows[i]@[1])
}

proof fn lemma_total_gap_grows(a: Seq<u64>, b: Seq<u64>, i: int, j: int)
    requires
        0 <= i <= j,
    ensures
        total_gap(a, b, i) <= total_gap(a, b, j),
    decreases j - i,
{
    if i < j {
        lemma_total_gap_grows(a, b, i, j - 1);
    }
}

proof fn lemma_similarity_grows(a: Seq<u64>, b: Seq<u64>, i: int, j: int)
    requires
        0 <= i <= j,
    ensures
        similarity(a, b, i) <= similarity(a, b, j),
    decreases j - i,
{
    if i < j {
        lemma_similarity_grows(a, b, i, j - 1);
        assert(a[j - 1] * occurrences(b, a[j - 1]) >= 0) by (nonlinear_arith);
    }
}

/// The total distance between the two columns once each is sorted, or
/// `None` when it does not fit in `u64`.
pub fn part_one(rows: &Vec<[u64; 2]>) -> (r: Option<u64>)
    ensures
        exists|l: Seq<u64>, s: Seq<u64>|
            sorted_from(l, lefts(rows@)) && sorted_from(s, rights(rows@)) && #[trigger] fitting(
                total_gap(l, s, rows@.len() as int),
            ) == r,
{
    let mut left = column(rows, 0);
    let mut right = column(rows, 1);
    proof {
        assert(left@ =~= lefts(rows@));
        assert(right@ =~= rights(rows@));
    }
    sort_ids(&mut left);
    sort_ids(&mut right);
    proof {
        left@.to_multiset_ensures();
        right@.to_multiset_ensures();
        assert(left@.len() == rows@.len()) by {
            lefts(rows@).to_multiset_ensures();
        }
        assert(right@.len() == rows@.len()) by {
            rights(rows@).to_multiset_ensures();
        }
    }
    let n = rows.len();
    let mut sum: u64 = 0;
    let mut i: usize = 0;
    while i < n
        invariant
            i <= n,
            n == left@.len(),
            n == right@.len(),
            n == rows@.len(),
            sorted_from(left@, lefts(rows@)),
            sorted_from(right@, rights(rows@)),
            sum == total_gap(left@, right@, i as int),
        decreases n - i,
    {
        let a = left[i];
        let b = right[i];
        let d = if a >= b {
            a - b
        } else {
            b - a
        };
        match sum.checked_add(d) {
            Some(s) => {
                sum = s;
            },
            None => {
                proof {
                    lemma_total_gap_grows(left@, right@, i + 1, n as int);
                    assert(fitting(total_gap(left@, right@, n as int)) is None);
                    assert(sorted_from(left@, lefts(rows@)) && sorted_from(right@, rights(rows@))
                        && fitting(total_gap(left@, right@, rows@.len() as int)) == None::<u64>);
                }
                return None;
            },
        }
        i = i + 1;
    }
    proof {
        assert(sorted_from(left@, lefts(rows@)) && sorted_from(right@, rights(rows@)) && fitting(
            total_gap(left@, right@, rows@.len() as int),
        ) == Some(sum));
    }
    Some(sum)
}

/// The sum over the left ids of each id times the number of its
/// occurrences in the right column, or `None` when it does not fit in
/// `u64`.
pub fn part_two(rows: &Vec<[u64; 2]>) -> (r: Option<u64>)
    ensures
        r == fitting(similarity(lefts(rows@), rights(rows@), rows@.len() as int)),
{
    let left = column(rows, 0);
    let right = column(rows, 1);
    proof {
        assert(left@ =~= lefts(rows@));
        assert(right@ =~= rights(rows@));
    }
    let n = left.len();
    let mut sum: u64 = 0;
    let mut i: usize = 0;
    while i < n
        invariant
            i <= n,
            n == left@.len(),
            n == rows@.len(),
            left@ == lefts(rows@),
            right@ == rights(rows@),
            sum == similarity(left@, right@, i as int),
        decreases n - i,
    {
        let v = left[i];
        let mut count: u64 = 0;
        let mut j: usize = 0;
        while j < right.len()
            invariant
                j <= right@.len(),
                count == occurrences(right@.subrange(0, j as int), v),
                count <= j,
            decreases right.len() - j,
        {
            proof {
                assert(right@.subrange(0, j + 1).drop_last() =~= right@.subrange(0, j as int));
            }
            if right[j] == v {
                count = count + 1;
            }
            j = j + 1;
        }
        proof {
            assert(right@.subrange(0, right@.len() as int) =~= right@);
        }
        let term = match v.checked_mul(count) {
            Some(t) => t,
            None => {
                proof {
                    lemma_similarity_grows(left@, right@, i + 1, n as int);
                }
                return None;
            },
        };
        match sum.checked_add(term) {
            Some(s) => {
                sum = s;
            },
            None => {
                proof {
                    lemma_similarity_grows(left@, right@, i + 1, n as int);
                }
                return None;
            },
        }
        i = i + 1;
    }
    Some(sum)
}

/// The two ids of a line, if it holds exactly two numbers.
pub open spec fn row_ids(line: Seq<char>) -> Option<Seq<u64>> {
    match numbers(words(line)) {
        Some(vs) => if vs.len() == 2 {
            Some(vs)
        } else {
            None
        },
        None => None,
    }
}

/// The id pairs of lines `ls`, if every line holds exactly two numbers.
pub open spec fn all_rows(ls: Seq<Seq<char>>) -> Option<Seq<Seq<u64>>>
    decreases ls.len(),
{
    if ls.len() == 0 {
        Some(Seq::empty())
    } else {
        match (all_rows(ls.drop_last()), row_ids(ls.last())) {
            (Some(rs), Some(r)) => Some(rs.push(r)),
            _ => None,
        }
    }
}

proof fn lemma_rows_fail(ls: Seq<Seq<char>>, i: int, j: int)
    requires
        0 <= i <= j <= ls.len(),
        all_rows(ls.subrange(0, i)) is None,
    ensures
        all_rows(ls.subrange(0, j)) is None,
    decreases j - i,
{
    if i < j {
        lemma_rows_fail(ls, i, j - 1);
        assert(ls.subrange(0, j).drop_last() =~= ls.subrange(0, j - 1));
    }
}

/// Reads one pair of white-space separated ids per line.
pub fn parse_rows(text: &[char]) -> (r: Option<Vec<[u64; 2]>>)
    ensures
        match all_rows(lines(text@)) {
            None => r is None,
            Some(rs) => r matches Some(v) && v@.len() == rs.len() && forall|i: int|
                0 <= i < rs.len() ==> (#[trigger] v@[i])@ == rs[i],
        },
{
    let ls = split_lines(text);
    let ghost views = ls@.map_values(|l: Vec<char>| l@);
    let mut rows: Vec<[u64; 2]> = Vec::new();
    let mut i: usize = 0;
    while i < ls.len()
        invariant
            i <= ls@.len(),
            views == ls@.map_values(|l: Vec<char>| l@),
            views == lines(text@),
            all_rows(views.subrange(0, i as int)) matches Some(rs) && rs.len() == i && rows@.len()
                == i && forall|j: int| 0 <= j < i ==> (#[trigger] rows@[j])@ == rs[j],
        decreases ls.len() - i,
    {
        proof {
            assert(views.subrange(0, i + 1).drop_last() =~= views.subrange(0, i as int));
            assert(views[i as int] == ls@[i as int]@);
        }
        let ids = parse_all_u64(&split_words(ls[i].as_slice()));
        match ids {
            Some(v) => {
                if v.len() == 2 {
                    let row = [v[0], v[1]];
                    proof {
                        assert(row@ =~= v@);
                    }
                    rows.push(row);
                } else {
                    proof {
                        lemma_rows_fail(views, i as int + 1, views.len() as int);
                        assert(views.subrange(0, views.len() as int) =~= views);
                    }
                    return None;
                }
            },
            None => {
                proof {
                    lemma_rows_fail(views, i as int + 1, views.len() as int);
                    assert(views.subrange(0, views.len() as int) =~= views);
                }
                return None;
            },
        }
        i = i + 1;
    }
    proof {
        assert(views.subrange(0, views.len() as int) =~= views);
    }
    Some(rows)
}

} // verus!
