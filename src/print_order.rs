//! Safety manual updates: page lists that must respect ordering rules of
//! the form "page `first` comes before page `second`".
use vstd::prelude::*;
use crate::counting::{sum_of, lemma_sum_prefix, lemma_sum_grows};
use crate::text::{
    decimal_value,
    find_char,
    find_pair,
    lines,
    numbers,
    parse_all_u64,
    parse_u64,
    position_of,
    position_of_pair,
    slice_chars,
    split_lines,
    split_on,
    split_pieces,
};

verus! {

/// Page `first` must be printed before page `second` when both are in an
/// update.
#[derive(Debug, Clone, Copy, PartialEq, Eq, Structural)]
pub struct PageOrderingRule {
    pub first: u64,
    pub second: u64,
}

/// Whether update `s` respects every rule: no page has a rule naming a page
/// of the update that must come before it but comes later.
pub open spec fn follows_rules(s: Seq<u64>, rules: Seq<PageOrderingRule>) -> bool {
    forall|i: int, j: int|
        0 <= i < s.len() && 0 <= j < rules.len() && #[trigger] rules[j].second == #[trigger] s[i]
            && s.contains(rules[j].first) ==> s.subrange(0, i).contains(rules[j].first)
}

/// The pages of `s` that the rules put before page `v`, in the order of the
/// rules.
pub open spec fn preds(rules: Seq<PageOrderingRule>, s: Seq<u64>, v: u64) -> Seq<u64>
    decreases rules.len(),
{
    if rules.len() == 0 {
        Seq::empty()
    } else {
        let p = preds(rules.drop_last(), s, v);
        let r = rules.last();
        if r.second == v && s.contains(r.first) {
            p.push(r.first)
        } else {
            p
        }
    }
}

/// `acc` followed by those of `items` that are not yet in it, each once.
pub open spec fn add_unique(acc: Seq<u64>, items: Seq<u64>) -> Seq<u64>
    decreases items.len(),
{
    if items.len() == 0 {
        acc
    } else {
        let a = add_unique(acc, items.drop_last());
        if a.contains(items.last()) {
            a
        } else {
            a.push(items.last())
        }
    }
}

/// One pass over the first `n` pages of `s`: each page with exactly `k`
/// preceding pages adds those pages and then itself.
pub open spec fn place_pass(
    acc: Seq<u64>,
    s: Seq<u64>,
    rules: Seq<PageOrderingRule>,
    k: nat,
    n: nat,
) -> Seq<u64>
    decreases n,
{
    if n == 0 || n > s.len() {
        acc
    } else {
        let a = place_pass(acc, s, rules, k, (n - 1) as nat);
        let v = s[n - 1];
        if preds(rules, s, v).len() == k {
            add_unique(a, preds(rules, s, v).push(v))
        } else {
            a
        }
    }
}

/// The passes for `0..=k` preceding pages, in turn.
pub open spec fn place_all(s: Seq<u64>, rules: Seq<PageOrderingRule>, k: nat) -> Seq<u64>
    decreases k,
{
    let before = if k == 0 {
        Seq::empty()
    } else {
        place_all(s, rules, (k - 1) as nat)
    };
    place_pass(before, s, rules, k, s.len())
}

/// The reordering of update `s`: its pages taken by the number of rules
/// that put a page of `s` before them (fewest first, ties in update order),
/// each page placed after the pages that must precede it.
pub open spec fn conforming(s: Seq<u64>, rules: Seq<PageOrderingRule>) -> Seq<u64> {
    place_all(s, rules, rules.len())
}

proof fn lemma_preds_in_update(rules: Seq<PageOrderingRule>, s: Seq<u64>, v: u64)
    ensures
        preds(rules, s, v).len() <= rules.len(),
        forall|x: u64| #[trigger] preds(rules, s, v).contains(x) ==> s.contains(x),
    decreases rules.len(),
{
    if rules.len() > 0 {
        lemma_preds_in_update(rules.drop_last(), s, v);
        let p = preds(rules.drop_last(), s, v);
        let r = rules.last();
        if r.second == v && s.contains(r.first) {
            assert forall|x: u64| #[trigger] p.push(r.first).contains(x) implies s.contains(x) by {
                if x != r.first {
                    let i = choose|i: int| 0 <= i < p.push(r.first).len() && p.push(r.first)[i] == x;
                    assert(p[i] == x);
                    assert(p.contains(x));
                }
            }
        }
    }
}

proof fn lemma_add_unique(acc: Seq<u64>, items: Seq<u64>)
    requires
        acc.no_duplicates(),
    ensures
        add_unique(acc, items).no_duplicates(),
        forall|x: u64| #[trigger]
            add_unique(acc, items).contains(x) <==> (acc.contains(x) || items.contains(x)),
    decreases items.len(),
{
    if items.len() > 0 {
        let rest = items.drop_last();
        lemma_add_unique(acc, rest);
        let a = add_unique(acc, rest);
        let last = items.last();
        assert forall|x: u64| items.contains(x) <==> (rest.contains(x) || x == last) by {
            if items.contains(x) {
                let i = choose|i: int| 0 <= i < items.len() && items[i] == x;
                if i < items.len() - 1 {
                    assert(rest[i] == x);
                }
            }
            if rest.contains(x) {
                let i = choose|i: int| 0 <= i < rest.len() && rest[i] == x;
                assert(items[i] == x);
            }
            assert(items[items.len() - 1] == last);
        }
        if !a.contains(last) {
            assert forall|x: u64| a.push(last).contains(x) <==> (a.contains(x) || x == last) by {
                if a.push(last).contains(x) {
                    let i = choose|i: int| 0 <= i < a.push(last).len() && a.push(last)[i] == x;
                    if i < a.len() {
                        assert(a[i] == x);
                    }
                }
                if a.contains(x) {
                    let i = choose|i: int| 0 <= i < a.len() && a[i] == x;
                    assert(a.push(last)[i] == x);
                }
                assert(a.push(last)[a.len() as int] == last);
            }
        }
        assert forall|x: u64| #[trigger]
            add_unique(acc, items).contains(x) <==> (acc.contains(x) || items.contains(x)) by {
            assert(items.contains(x) <==> (rest.contains(x) || x == last));
            assert(a.contains(x) <==> (acc.contains(x) || rest.contains(x)));
        }
    }
}

proof fn lemma_place_pass(
    acc: Seq<u64>,
    s: Seq<u64>,
    rules: Seq<PageOrderingRule>,
    k: nat,
    n: nat,
)
    requires
        acc.no_duplicates(),
        n <= s.len(),
    ensures
        place_pass(acc, s, rules, k, n).no_duplicates(),
        forall|x: u64| #[trigger]
            place_pass(acc, s, rules, k, n).contains(x) ==> acc.contains(x) || s.contains(x),
        forall|x: u64| acc.contains(x) ==> #[trigger] place_pass(acc, s, rules, k, n).contains(x),
        forall|j: int|
            0 <= j < n && preds(rules, s, s[j]).len() == k ==> #[trigger] place_pass(
                acc,
                s,
                rules,
                k,
                n,
            ).contains(s[j]),
    decreases n,
{
    if n > 0 {
        lemma_place_pass(acc, s, rules, k, (n - 1) as nat);
        let a = place_pass(acc, s, rules, k, (n - 1) as nat);
        let v = s[n - 1];
        let items = preds(rules, s, v).push(v);
        if preds(rules, s, v).len() == k {
            lemma_add_unique(a, items);
            lemma_preds_in_update(rules, s, v);
            assert(items[items.len() - 1] == v);
            assert forall|x: u64| #[trigger] items.contains(x) implies s.contains(x) by {
                let i = choose|i: int| 0 <= i < items.len() && items[i] == x;
                if i < items.len() - 1 {
                    assert(preds(rules, s, v)[i] == x);
                    assert(preds(rules, s, v).contains(x));
                } else {
                    assert(s[n - 1] == x);
                    assert(s.contains(x));
                }
            }
        }
    }
}

proof fn lemma_place_all(s: Seq<u64>, rules: Seq<PageOrderingRule>, k: nat)
    ensures
        place_all(s, rules, k).no_duplicates(),
        forall|x: u64| #[trigger] place_all(s, rules, k).contains(x) ==> s.contains(x),
        forall|j: int|
            0 <= j < s.len() && preds(rules, s, s[j]).len() <= k ==> #[trigger] place_all(
                s,
                rules,
                k,
            ).contains(s[j]),
    decreases k,
{
    let before = if k == 0 {
        Seq::<u64>::empty()
    } else {
        place_all(s, rules, (k - 1) as nat)
    };
    if k > 0 {
        lemma_place_all(s, rules, (k - 1) as nat);
    }
    lemma_place_pass(before, s, rules, k, s.len());
}

/// The reordering holds each page of the update exactly once.
pub proof fn lemma_conforming_pages(s: Seq<u64>, rules: Seq<PageOrderingRule>)
    ensures
        conforming(s, rules).no_duplicates(),
        conforming(s, rules).to_set() == s.to_set(),
{
    lemma_place_all(s, rules, rules.len());
    let c = conforming(s, rules);
    assert forall|x: u64| c.to_set().contains(x) <==> s.to_set().contains(x) by {
        if s.contains(x) {
            let j = choose|j: int| 0 <= j < s.len() && s[j] == x;
            lemma_preds_in_update(rules, s, s[j]);
            assert(c.contains(s[j]));
        }
    }
    assert(c.to_set() =~= s.to_set());
}

/// Whether `x` is among the first `n` elements of `v`.
fn contains_in(v: &Vec<u64>, n: usize, x: u64) -> (r: bool)
    requires
        n <= v@.len(),
    ensures
        r == v@.subrange(0, n as int).contains(x),
{
    let mut i: usize = 0;
    while i < n
        invariant
            i <= n <= v@.len(),
            !v@.subrange(0, i as int).contains(x),
        decreases n - i,
    {
        if v[i] == x {
            assert(v@.subrange(0, n as int)[i as int] == x);
            return true;
        }
        proof {
            assert(v@.subrange(0, i + 1) =~= v@.subrange(0, i as int).push(v@[i as int]));
        }
        i = i + 1;
    }
    false
}

fn contains(v: &Vec<u64>, x: u64) -> (r: bool)
    ensures
        r == v@.contains(x),
{
    let r = contains_in(v, v.len(), x);
    proof {
        assert(v@.subrange(0, v@.len() as int) =~= v@);
    }
    r
}

/// Appends to `acc` each of `items` not yet in it.
fn add_unique_into(acc: &mut Vec<u64>, items: &Vec<u64>)
    ensures
        final(acc)@ == add_unique(old(acc)@, items@),
{
    let ghost start = acc@;
    let mut i: usize = 0;
    while i < items.len()
        invariant
            i <= items@.len(),
            acc@ == add_unique(start, items@.subrange(0, i as int)),
        decreases items.len() - i,
    {
        proof {
            assert(items@.subrange(0, i + 1).drop_last() =~= items@.subrange(0, i as int));
        }
        if !contains(acc, items[i]) {
            acc.push(items[i]);
        }
        i = i + 1;
    }
    proof {
        assert(items@.subrange(0, items@.len() as int) =~= items@);
    }
}

/// The pages of an update, in print order.
#[derive(Debug, Clone)]
pub struct UpdateSequence(pub Vec<u64>);

impl UpdateSequence {
    /// Whether the update respects every rule.
    pub fn matches_rules(&self, rules: &Vec<PageOrderingRule>) -> (r: bool)
        ensures
            r == follows_rules(self.0@, rules@),
    {
        let s = &self.0;
        let mut i: usize = 0;
        while i < s.len()
            invariant
                i <= s@.len(),
                s@ == self.0@,
                forall|a: int, j: int|
                    0 <= a < i && 0 <= j < rules@.len() && #[trigger] rules@[j].second
                        == #[trigger] s@[a] && s@.contains(rules@[j].first) ==> s@.subrange(
                        0,
                        a,
                    ).contains(rules@[j].first),
            decreases s.len() - i,
        {
            let page = s[i];
            let mut j: usize = 0;
            while j < rules.len()
                invariant
                    i < s@.len(),
                    s@ == self.0@,
                    page == s@[i as int],
                    j <= rules@.len(),
                    forall|a: int, b: int|
                        0 <= a < i && 0 <= b < rules@.len() && #[trigger] rules@[b].second
                            == #[trigger] s@[a] && s@.contains(rules@[b].first) ==> s@.subrange(
                            0,
                            a,
                        ).contains(rules@[b].first),
                    forall|b: int|
                        0 <= b < j && #[trigger] rules@[b].second == page && s@.contains(
                            rules@[b].first,
                        ) ==> s@.subrange(0, i as int).contains(rules@[b].first),
                decreases rules.len() - j,
            {
                let rule = rules[j];
                if rule.second == page && !contains_in(s, i, rule.first) && contains(
                    s,
                    rule.first,
                ) {
                    proof {
                        assert(rules@[j as int].second == s@[i as int]);
                        assert(!follows_rules(s@, rules@));
                    }
                    return false;
                }
                j = j + 1;
            }
            proof {
                assert forall|a: int, b: int|
                    0 <= a < i + 1 && 0 <= b < rules@.len() && #[trigger] rules@[b].second
                        == #[trigger] s@[a] && s@.contains(rules@[b].first) implies s@.subrange(
                    0,
                    a,
                ).contains(rules@[b].first) by {
                    if a == i {
                        assert(rules@[b].second == page);
                    }
                }
            }
            i = i + 1;
        }
        true
    }

    /// The page in the middle of the update.
    pub fn get_middle_page_number(&self) -> (r: u64)
        requires
            self.0@.len() > 0,
        ensures
            r == self.0@[(self.0@.len() / 2) as int],
    {
        self.0[self.0.len() / 2]
    }

    /// The pages of this update that the rules put before `v`.
    fn preds_of(&self, rules: &Vec<PageOrderingRule>, v: u64) -> (r: Vec<u64>)
        ensures
            r@ == preds(rules@, self.0@, v),
            r@.len() <= rules@.len(),
    {
        let mut out: Vec<u64> = Vec::new();
        let mut j: usize = 0;
        while j < rules.len()
            invariant
                j <= rules@.len(),
                out@ == preds(rules@.subrange(0, j as int), self.0@, v),
                out@.len() <= j,
            decreases rules.len() - j,
        {
            proof {
                assert(rules@.subrange(0, j + 1).drop_last() =~= rules@.subrange(0, j as int));
            }
            let rule = rules[j];
            if rule.second == v && contains(&self.0, rule.first) {
                out.push(rule.first);
            }
            j = j + 1;
        }
        proof {
            assert(rules@.subrange(0, rules@.len() as int) =~= rules@);
        }
        out
    }

    /// The update reordered to respect the rules: pages by their number of
    /// preceding pages, fewest first, each after the pages it needs. Every
    /// page of the update appears exactly once.
    pub fn get_rule_conforming(&self, rules: &Vec<PageOrderingRule>) -> (r: Self)
        ensures
            r.0@ == conforming(self.0@, rules@),
            r.0@.no_duplicates(),
            r.0@.to_set() == self.0@.to_set(),
    {
        proof {
            lemma_conforming_pages(self.0@, rules@);
        }
        let s = &self.0;
        let n = s.len();
        let mut edges: Vec<Vec<u64>> = Vec::new();
        let mut i: usize = 0;
        while i < n
            invariant
                i <= n,
                n == s@.len(),
                s@ == self.0@,
                edges@.len() == i,
                forall|a: int| 0 <= a < i ==> #[trigger] edges@[a]@ == preds(rules@, s@, s@[a]),
            decreases n - i,
        {
            let e = self.preds_of(rules, s[i]);
            let ghost old_edges = edges@;
            edges.push(e);
            proof {
                assert forall|a: int| 0 <= a < i + 1 implies #[trigger] edges@[a]@ == preds(
                    rules@,
                    s@,
                    s@[a],
                ) by {
                    if a < i {
                        assert(edges@[a] == old_edges[a]);
                    }
                }
            }
            i = i + 1;
        }
        let m = rules.len();
        let mut sorted: Vec<u64> = Vec::with_capacity(n);
        let mut k: usize = 0;
        loop
            invariant_except_break
                sorted@ == (if k == 0 {
                    Seq::empty()
                } else {
                    place_all(s@, rules@, (k - 1) as nat)
                }),
            invariant
                k <= m,
                n == s@.len(),
                s@ == self.0@,
                m == rules@.len(),
                edges@.len() == n,
                forall|a: int| 0 <= a < n ==> #[trigger] edges@[a]@ == preds(rules@, s@, s@[a]),
            ensures
                sorted@ == place_all(s@, rules@, m as nat),
            decreases m - k,
        {
            let ghost before = sorted@;
            let mut a: usize = 0;
            while a < n
                invariant
                    a <= n,
                    n == s@.len(),
                    s@ == self.0@,
                    edges@.len() == n,
                    forall|b: int| 0 <= b < n ==> #[trigger] edges@[b]@ == preds(rules@, s@, s@[b]),
                    sorted@ == place_pass(before, s@, rules@, k as nat, a as nat),
                decreases n - a,
            {
                proof {
                    assert(edges@[a as int]@ == preds(rules@, s@, s@[a as int]));
                }
                if edges[a].len() == k {
                    let mut items = edges[a].clone();
                    items.push(s[a]);
                    proof {
                        assert(items@ == preds(rules@, s@, s@[a as int]).push(s@[a as int]));
                    }
                    add_unique_into(&mut sorted, &items);
                }
                a = a + 1;
            }
            proof {
                assert(sorted@ == place_all(s@, rules@, k as nat));
            }
            if k == m {
                break;
            }
            k = k + 1;
        }
        UpdateSequence(sorted)
    }
}

/// The middle page of `s`, or zero when `s` is empty.
pub open spec fn middle_or_zero(s: Seq<u64>) -> nat {
    if s.len() == 0 {
        0
    } else {
        s[(s.len() / 2) as int] as nat
    }
}

/// What update `u` adds to the first answer: its middle page when it
/// respects the rules.
pub open spec fn ordered_value(u: UpdateSequence, rules: Seq<PageOrderingRule>) -> nat {
    if follows_rules(u.0@, rules) {
        middle_or_zero(u.0@)
    } else {
        0
    }
}

/// What update `u` adds to the second answer: the middle page of its
/// reordering when it breaks a rule.
pub open spec fn reordered_value(u: UpdateSequence, rules: Seq<PageOrderingRule>) -> nat {
    if follows_rules(u.0@, rules) {
        0
    } else {
        middle_or_zero(conforming(u.0@, rules))
    }
}

/// The ordering rules and the updates of a safety manual.
#[derive(Debug, Clone)]
pub struct SafetyManualPrintOrder {
    pub rules: Vec<PageOrderingRule>,
    pub updates: Vec<UpdateSequence>,
}

/// `v` if it fits in `u64`.
pub open spec fn fits(v: nat) -> Option<u64> {
    if v <= u64::MAX {
        Some(v as u64)
    } else {
        None
    }
}

/// The sum of the middle pages of the updates that respect the rules, or
/// `None` when it does not fit in `u64`. Every update has a page.
pub fn part_one(data: &SafetyManualPrintOrder) -> (r: Option<u64>)
    requires
        forall|i: int| 0 <= i < data.updates@.len() ==> #[trigger] data.updates@[i].0@.len() > 0,
    ensures
        r == fits(sum_of(data.updates@, |u: UpdateSequence| ordered_value(u, data.rules@))),
{
    let ghost f = |u: UpdateSequence| ordered_value(u, data.rules@);
    let n = data.updates.len();
    let mut sum: u64 = 0;
    let mut i: usize = 0;
    while i < n
        invariant
            i <= n,
            n == data.updates@.len(),
            f == (|u: UpdateSequence| ordered_value(u, data.rules@)),
            forall|i: int| 0 <= i < data.updates@.len() ==> #[trigger] data.updates@[i].0@.len() > 0,
            sum == sum_of(data.updates@.subrange(0, i as int), f),
        decreases n - i,
    {
        proof {
            lemma_sum_prefix(data.updates@, f, i as int);
            lemma_sum_grows(data.updates@, f, i + 1, n as int);
            assert(data.updates@.subrange(0, n as int) =~= data.updates@);
        }
        let update = &data.updates[i];
        if update.matches_rules(&data.rules) {
            assert(update.0@.len() > 0);
            sum = match sum.checked_add(update.get_middle_page_number()) {
                Some(s) => s,
                None => return None,
            };
        }
        i = i + 1;
    }
    proof {
        assert(data.updates@.subrange(0, n as int) =~= data.updates@);
    }
    Some(sum)
}

/// The sum of the middle pages of the reorderings of the updates that break
/// a rule, or `None` when it does not fit in `u64`.
pub fn part_two(data: &SafetyManualPrintOrder) -> (r: Option<u64>)
    ensures
        r == fits(sum_of(data.updates@, |u: UpdateSequence| reordered_value(u, data.rules@))),
{
    let ghost f = |u: UpdateSequence| reordered_value(u, data.rules@);
    let n = data.updates.len();
    let mut sum: u64 = 0;
    let mut i: usize = 0;
    while i < n
        invariant
            i <= n,
            n == data.updates@.len(),
            f == (|u: UpdateSequence| reordered_value(u, data.rules@)),
            sum == sum_of(data.updates@.subrange(0, i as int), f),
        decreases n - i,
    {
        proof {
            lemma_sum_prefix(data.updates@, f, i as int);
            lemma_sum_grows(data.updates@, f, i + 1, n as int);
            assert(data.updates@.subrange(0, n as int) =~= data.updates@);
        }
        let update = &data.updates[i];
        if !update.matches_rules(&data.rules) {
            let fixed = update.get_rule_conforming(&data.rules);
            if fixed.0.len() > 0 {
                sum = match sum.checked_add(fixed.get_middle_page_number()) {
                    Some(s) => s,
                    None => return None,
                };
            }
        }
        i = i + 1;
    }
    proof {
        assert(data.updates@.subrange(0, n as int) =~= data.updates@);
    }
    Some(sum)
}

/// What a line `<first>|<second>` reads as.
pub open spec fn rule_fields(line: Seq<char>) -> Option<(u64, u64)> {
    match find_char(line, '|') {
        None => None,
        Some(k) => match (
            decimal_value(line.subrange(0, k)),
            decimal_value(line.subrange(k + 1, line.len() as int)),
        ) {
            (Some(a), Some(b)) => Some((a as u64, b as u64)),
            _ => None,
        },
    }
}

/// What a line of comma-separated pages reads as.
pub open spec fn update_pages(line: Seq<char>) -> Option<Seq<u64>> {
    numbers(split_pieces(line, ','))
}

/// The rules that lines `ls` read as, if every one is a rule.
pub open spec fn all_rules(ls: Seq<Seq<char>>) -> Option<Seq<(u64, u64)>>
    decreases ls.len(),
{
    if ls.len() == 0 {
        Some(Seq::empty())
    } else {
        match (all_rules(ls.drop_last()), rule_fields(ls.last())) {
            (Some(rs), Some(r)) => Some(rs.push(r)),
            _ => None,
        }
    }
}

/// The updates that lines `ls` read as, if every one is an update.
pub open spec fn all_updates(ls: Seq<Seq<char>>) -> Option<Seq<Seq<u64>>>
    decreases ls.len(),
{
    if ls.len() == 0 {
        Some(Seq::empty())
    } else {
        match (all_updates(ls.drop_last()), update_pages(ls.last())) {
            (Some(us), Some(u)) => Some(us.push(u)),
            _ => None,
        }
    }
}

/// What a manual reads as: rule lines, a blank line, then update lines.
pub open spec fn manual_fields(text: Seq<char>) -> Option<(Seq<(u64, u64)>, Seq<Seq<u64>>)> {
    match find_pair(text, '\n') {
        None => None,
        Some(k) => match (
            all_rules(lines(text.subrange(0, k))),
            all_updates(lines(text.subrange(k + 2, text.len() as int))),
        ) {
            (Some(rs), Some(us)) => Some((rs, us)),
            _ => None,
        },
    }
}

proof fn lemma_rules_fail(ls: Seq<Seq<char>>, i: int, j: int)
    requires
        0 <= i <= j <= ls.len(),
        all_rules(ls.subrange(0, i)) is None,
    ensures
        all_rules(ls.subrange(0, j)) is None,
    decreases j - i,
{
    if i < j {
        lemma_rules_fail(ls, i, j - 1);
        assert(ls.subrange(0, j).drop_last() =~= ls.subrange(0, j - 1));
    }
}

proof fn lemma_updates_fail(ls: Seq<Seq<char>>, i: int, j: int)
    requires
        0 <= i <= j <= ls.len(),
        all_updates(ls.subrange(0, i)) is None,
    ensures
        all_updates(ls.subrange(0, j)) is None,
    decreases j - i,
{
    if i < j {
        lemma_updates_fail(ls, i, j - 1);
        assert(ls.subrange(0, j).drop_last() =~= ls.subrange(0, j - 1));
    }
}

impl PageOrderingRule {
    /// Reads a line `<first>|<second>`.
    pub fn parse(line: &[char]) -> (r: Option<Self>)
        ensures
            match rule_fields(line@) {
                None => r is None,
                Some((a, b)) => r == Some(PageOrderingRule { first: a, second: b }),
            },
    {
        let n = line.len();
        let k = match position_of(line, '|') {
            Some(k) => k,
            None => return None,
        };
        let head = slice_chars(line, 0, k);
        let tail = slice_chars(line, k + 1, n);
        match (parse_u64(head.as_slice()), parse_u64(tail.as_slice())) {
            (Some(first), Some(second)) => Some(PageOrderingRule { first, second }),
            _ => None,
        }
    }
}

impl UpdateSequence {
    /// Reads a line of comma-separated pages.
    pub fn parse(line: &[char]) -> (r: Option<Self>)
        ensures
            match update_pages(line@) {
                None => r is None,
                Some(ps) => r matches Some(u) && u.0@ == ps,
            },
    {
        match parse_all_u64(&split_on(line, ',')) {
            Some(pages) => Some(UpdateSequence(pages)),
            None => None,
        }
    }
}

fn parse_rules(text: &[char]) -> (r: Option<Vec<PageOrderingRule>>)
    ensures
        match all_rules(lines(text@)) {
            None => r is None,
            Some(rs) => r matches Some(v) && v@.len() == rs.len() && forall|i: int|
                0 <= i < rs.len() ==> (#[trigger] v@[i]).first == rs[i].0 && v@[i].second
                    == rs[i].1,
        },
{
    let ls = split_lines(text);
    let ghost views = ls@.map_values(|l: Vec<char>| l@);
    let mut rules: Vec<PageOrderingRule> = Vec::new();
    let mut i: usize = 0;
    while i < ls.len()
        invariant
            i <= ls@.len(),
            views == ls@.map_values(|l: Vec<char>| l@),
            views == lines(text@),
            all_rules(views.subrange(0, i as int)) matches Some(rs) && rs.len() == i
                && rules@.len() == i && forall|j: int|
                0 <= j < i ==> (#[trigger] rules@[j]).first == rs[j].0 && rules@[j].second
                    == rs[j].1,
        decreases ls.len() - i,
    {
        proof {
            assert(views.subrange(0, i + 1).drop_last() =~= views.subrange(0, i as int));
            assert(views[i as int] == ls@[i as int]@);
        }
        match PageOrderingRule::parse(ls[i].as_slice()) {
            Some(rule) => {
                rules.push(rule);
            },
            None => {
                proof {
                    lemma_rules_fail(views, i as int + 1, views.len() as int);
                    assert(views.subrange(0, views.len() as int) =~= views);
                }
                return None;
            },
        }
        i = i + 1;
    }
    proof {
        assert(views.subrange(0, views.len() as int) =~= views);
    }
    Some(rules)
}

fn parse_updates(text: &[char]) -> (r: Option<Vec<UpdateSequence>>)
    ensures
        match all_updates(lines(text@)) {
            None => r is None,
            Some(us) => r matches Some(v) && v@.len() == us.len() && forall|i: int|
                0 <= i < us.len() ==> (#[trigger] v@[i]).0@ == us[i],
        },
{
    let ls = split_lines(text);
    let ghost views = ls@.map_values(|l: Vec<char>| l@);
    let mut updates: Vec<UpdateSequence> = Vec::new();
    let mut i: usize = 0;
    while i < ls.len()
        invariant
            i <= ls@.len(),
            views == ls@.map_values(|l: Vec<char>| l@),
            views == lines(text@),
            all_updates(views.subrange(0, i as int)) matches Some(us) && us.len() == i
                && updates@.len() == i && forall|j: int|
                0 <= j < i ==> (#[trigger] updates@[j]).0@ == us[j],
        decreases ls.len() - i,
    {
        proof {
            assert(views.subrange(0, i + 1).drop_last() =~= views.subrange(0, i as int));
            assert(views[i as int] == ls@[i as int]@);
        }
        match UpdateSequence::parse(ls[i].as_slice()) {
            Some(u) => {
                updates.push(u);
            },
            None => {
                proof {
                    lemma_updates_fail(views, i as int + 1, views.len() as int);
                    assert(views.subrange(0, views.len() as int) =~= views);
                }
                return None;
            },
        }
        i = i + 1;
    }
    proof {
        assert(views.subrange(0, views.len() as int) =~= views);
    }
    Some(updates)
}

impl SafetyManualPrintOrder {
    /// Reads the rule lines, a blank line, and the update lines.
    pub fn parse(text: &[char]) -> (r: Option<Self>)
        ensures
            match manual_fields(text@) {
                None => r is None,
                Some((rs, us)) => r matches Some(m) && m.rules@.len() == rs.len() && (forall|
                    i: int,
                |
                    0 <= i < rs.len() ==> (#[trigger] m.rules@[i]).first == rs[i].0
                        && m.rules@[i].second == rs[i].1) && m.updates@.len() == us.len() && (
                forall|i: int| 0 <= i < us.len() ==> (#[trigger] m.updates@[i]).0@ == us[i]),
            },
    {
        let n = text.len();
        let k = match position_of_pair(text, '\n') {
            Some(k) => k,
            None => return None,
        };
        let head = slice_chars(text, 0, k);
        let tail = slice_chars(text, k + 2, n);
        match (parse_rules(head.as_slice()), parse_updates(tail.as_slice())) {
            (Some(rules), Some(updates)) => Some(SafetyManualPrintOrder { rules, updates }),
            _ => None,
        }
    }
}

} // verus!
