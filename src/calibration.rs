//! Calibration equations: can a target be reached by inserting operators
//! between a row of operands and folding them left to right?
//!
//! Folding has no precedence: `value = o_0`, then `value = op_i(value, o_i)`
//! for each later operand in turn. Every intermediate value must stay within
//! `u64`; an assignment of operators whose fold leaves that range reaches
//! nothing.
use vstd::prelude::*;
use crate::combination::{
    CombinationIterator,
    combination,
    cross_product,
    enumeration,
    is_tuple_over,
    lemma_enumeration_covers,
    power,
};
use crate::text::{
    decimal_value,
    find_char,
    lines,
    numbers,
    parse_all_u64,
    parse_u64,
    position_of,
    slice_chars,
    split_lines,
    split_words,
    words,
};

verus! {

/// A binary operator over unsigned integers.
#[derive(Debug, Clone, Copy, PartialEq, Eq, Structural)]
pub enum Operator {
    Add,
    Multiply,
    /// Writes the decimal digits of the left operand followed by those of
    /// the right one.
    Concat,
}

/// The number of decimal digits of `n`; zero has one digit.
pub open spec fn digit_count(n: nat) -> nat
    decreases n,
{
    if n < 10 {
        1
    } else {
        1 + digit_count(n / 10)
    }
}

/// The exact value of `op` applied to `a` and `b`.
pub open spec fn apply(op: Operator, a: nat, b: nat) -> nat {
    match op {
        Operator::Add => a + b,
        Operator::Multiply => a * b,
        Operator::Concat => a * power(10, digit_count(b)) + b,
    }
}

/// `v` if it fits in `u64`.
pub open spec fn in_range(v: nat) -> Option<nat> {
    if v <= u64::MAX {
        Some(v)
    } else {
        None
    }
}

/// The value after folding the first `n` operands (`n >= 1`) with `ops`, or
/// `None` once an intermediate value leaves `u64`.
pub open spec fn fold_prefix(parts: Seq<u64>, ops: Seq<Operator>, n: nat) -> Option<nat>
    decreases n,
{
    if n <= 1 {
        Some(parts[0] as nat)
    } else {
        match fold_prefix(parts, ops, (n - 1) as nat) {
            Some(v) => in_range(apply(ops[n - 2], v, parts[n - 1] as nat)),
            None => None,
        }
    }
}

/// The value of folding all of `parts` with `ops`.
pub open spec fn evaluate(parts: Seq<u64>, ops: Seq<Operator>) -> Option<nat> {
    fold_prefix(parts, ops, parts.len())
}

/// Some assignment of operators from `alphabet`, one per gap, folds `parts`
/// to `target`.
pub open spec fn reachable(parts: Seq<u64>, target: u64, alphabet: Seq<Operator>) -> bool {
    exists|ops: Seq<Operator>|
        #[trigger] is_tuple_over(alphabet, (parts.len() - 1) as nat, ops) && evaluate(parts, ops)
            == Some(target as nat)
}

/// Why an equation could not be searched.
#[derive(Debug, Clone, Copy, PartialEq, Eq, Structural)]
pub enum SearchError {
    /// The equation has no operands.
    MalformedEquation,
    /// The number of operator assignments, `m^(n-1)`, does not fit in
    /// `usize`.
    SearchSpaceTooLarge,
}

/// What searching `parts` for `target` over `alphabet` gives.
pub open spec fn search_outcome(parts: Seq<u64>, target: u64, alphabet: Seq<Operator>) -> Result<
    bool,
    SearchError,
> {
    if parts.len() == 0 {
        Err(SearchError::MalformedEquation)
    } else if power(alphabet.len(), (parts.len() - 1) as nat) > usize::MAX {
        Err(SearchError::SearchSpaceTooLarge)
    } else {
        Ok(reachable(parts, target, alphabet))
    }
}

proof fn lemma_digit_count_bound(n: nat)
    requires
        n <= u64::MAX,
    ensures
        1 <= digit_count(n) <= 20,
{
    assert(digit_count(n) <= 20) by {
        reveal_with_fuel(digit_count, 21);
    }
}

proof fn lemma_fold_none_persists(parts: Seq<u64>, ops: Seq<Operator>, i: nat, n: nat)
    requires
        1 <= i <= n,
        fold_prefix(parts, ops, i) is None,
    ensures
        fold_prefix(parts, ops, n) is None,
    decreases n - i,
{
    if i < n {
        lemma_fold_none_persists(parts, ops, i, (n - 1) as nat);
    }
}

proof fn lemma_apply_grows(op: Operator, v: nat, b: nat)
    requires
        b >= 1,
    ensures
        apply(op, v, b) >= v,
{
    match op {
        Operator::Add => {},
        Operator::Multiply => {
            assert(v * b >= v) by (nonlinear_arith)
                requires
                    b >= 1,
            ;
        },
        Operator::Concat => {
            let p = power(10, digit_count(b));
            crate::combination::lemma_power_positive(10, digit_count(b));
            assert(v * p >= v) by (nonlinear_arith)
                requires
                    p >= 1,
            ;
        },
    }
}

proof fn lemma_fold_stays_above(parts: Seq<u64>, ops: Seq<Operator>, target: nat, i: nat, n: nat)
    requires
        1 <= i <= n <= parts.len(),
        forall|j: int| i <= j < parts.len() ==> #[trigger] parts[j] >= 1,
        fold_prefix(parts, ops, i) matches Some(v) && v > target,
    ensures
        fold_prefix(parts, ops, n) != Some(target),
        fold_prefix(parts, ops, n) matches Some(w) ==> w > target,
    decreases n - i,
{
    if i < n {
        lemma_fold_stays_above(parts, ops, target, i, (n - 1) as nat);
        if let Some(w) = fold_prefix(parts, ops, (n - 1) as nat) {
            lemma_apply_grows(ops[n - 2], w, parts[n - 1] as nat);
        }
    }
}

/// Whether some running value of the fold exceeds `target`.
pub open spec fn overshoots(parts: Seq<u64>, ops: Seq<Operator>, target: u64) -> bool {
    exists|i: nat|
        1 <= i <= parts.len() && (#[trigger] fold_prefix(parts, ops, i) matches Some(v) && v
            > target)
}

/// The fold abandoned as soon as a running value exceeds `target`.
pub open spec fn pruned_evaluate(parts: Seq<u64>, ops: Seq<Operator>, target: u64) -> Option<
    nat,
> {
    if overshoots(parts, ops, target) {
        None
    } else {
        evaluate(parts, ops)
    }
}

/// Whether some assignment of operators from `alphabet` reaches `target`
/// when folds are abandoned on overshooting it.
pub open spec fn pruned_reachable(parts: Seq<u64>, target: u64, alphabet: Seq<Operator>) -> bool {
    exists|ops: Seq<Operator>|
        #[trigger] is_tuple_over(alphabet, (parts.len() - 1) as nat, ops) && pruned_evaluate(
            parts,
            ops,
            target,
        ) == Some(target as nat)
}

/// Abandoning a fold as soon as its running value exceeds the target gives
/// the same reachability as the full fold, when no operand after the first
/// is zero: every operator then keeps the running value from falling, so a
/// fold that once exceeds the target ends above it or leaves `u64`.
pub proof fn lemma_pruning_preserves_reachability(
    parts: Seq<u64>,
    target: u64,
    alphabet: Seq<Operator>,
)
    requires
        parts.len() >= 1,
        forall|j: int| 1 <= j < parts.len() ==> #[trigger] parts[j] >= 1,
    ensures
        forall|ops: Seq<Operator>|
            (#[trigger] pruned_evaluate(parts, ops, target) == Some(target as nat)) == (evaluate(
                parts,
                ops,
            ) == Some(target as nat)),
        pruned_reachable(parts, target, alphabet) == reachable(parts, target, alphabet),
{
    assert forall|ops: Seq<Operator>|
        (#[trigger] pruned_evaluate(parts, ops, target) == Some(target as nat)) == (evaluate(
            parts,
            ops,
        ) == Some(target as nat)) by {
        if overshoots(parts, ops, target) {
            let i = choose|i: nat|
                1 <= i <= parts.len() && (#[trigger] fold_prefix(parts, ops, i) matches Some(v)
                    && v > target);
            lemma_fold_stays_above(parts, ops, target as nat, i, parts.len());
        }
    }
    if reachable(parts, target, alphabet) {
        let ops = choose|ops: Seq<Operator>|
            #[trigger] is_tuple_over(alphabet, (parts.len() - 1) as nat, ops) && evaluate(
                parts,
                ops,
            ) == Some(target as nat);
        assert(pruned_evaluate(parts, ops, target) == Some(target as nat));
    }
    if pruned_reachable(parts, target, alphabet) {
        let ops = choose|ops: Seq<Operator>|
            #[trigger] is_tuple_over(alphabet, (parts.len() - 1) as nat, ops) && pruned_evaluate(
                parts,
                ops,
                target,
            ) == Some(target as nat);
        assert(evaluate(parts, ops) == Some(target as nat));
    }
}

impl Operator {
    /// The number of decimal digits of `n`.
    pub fn num_digits(n: u64) -> (r: u32)
        ensures
            r == digit_count(n as nat),
            1 <= r <= 20,
    {
        proof {
            lemma_digit_count_bound(n as nat);
        }
        if n == 0 {
            return 1;
        }
        let mut rest: u64 = n;
        let mut count: u32 = 0;
        while rest > 0
            invariant
                n > 0,
                rest > 0 ==> count + digit_count(rest as nat) == digit_count(n as nat),
                rest == 0 ==> count == digit_count(n as nat),
                count <= digit_count(n as nat) <= 20,
            decreases rest,
        {
            proof {
                if rest >= 10 {
                    assert(digit_count(rest as nat) == 1 + digit_count((rest / 10) as nat));
                }
            }
            rest = rest / 10;
            count = count + 1;
        }
        count
    }

    /// `10^d`, if it fits in `u64`.
    fn power_of_ten(d: u32) -> (r: Option<u64>)
        ensures
            r == (if power(10, d as nat) <= u64::MAX {
                Some(power(10, d as nat) as u64)
            } else {
                None::<u64>
            }),
    {
        let mut value: u64 = 1;
        let mut i: u32 = 0;
        while i < d
            invariant
                i <= d,
                value == power(10, i as nat),
            decreases d - i,
        {
            match value.checked_mul(10) {
                Some(v) => {
                    value = v;
                },
                None => {
                    proof {
                        crate::combination::lemma_power_monotone(10, (i + 1) as nat, d as nat);
                    }
                    return None;
                },
            }
            i = i + 1;
        }
        Some(value)
    }

    /// `self` applied to `a` and `b`, or `None` when the result does not fit
    /// in `u64`.
    pub fn calculate(&self, a: u64, b: u64) -> (r: Option<u64>)
        ensures
            r == (if apply(*self, a as nat, b as nat) <= u64::MAX {
                Some(apply(*self, a as nat, b as nat) as u64)
            } else {
                None::<u64>
            }),
    {
        match self {
            Operator::Multiply => a.checked_mul(b),
            Operator::Add => a.checked_add(b),
            Operator::Concat => {
                let shift = Self::power_of_ten(Self::num_digits(b));
                match shift {
                    Some(s) => match a.checked_mul(s) {
                        Some(high) => high.checked_add(b),
                        None => {
                            proof {
                                assert(a * s + b >= a * s) by (nonlinear_arith);
                            }
                            None
                        },
                    },
                    None => {
                        if a == 0 {
                            proof {
                                assert(0 * power(10, digit_count(b as nat)) == 0);
                            }
                            Some(b)
                        } else {
                            proof {
                                let p = power(10, digit_count(b as nat));
                                assert(a * p + b >= p) by (nonlinear_arith)
                                    requires
                                        a >= 1,
                                ;
                            }
                            None
                        }
                    },
                }
            },
        }
    }
}

/// A target value and the operands that should fold to it.
#[derive(Debug, Clone)]
pub struct CalibrationEquation {
    pub result: u64,
    pub parts: Vec<u64>,
}

impl CalibrationEquation {
    /// Folds the operands left to right with `operations[i - 1]` between
    /// operand `i - 1` and operand `i`; `None` when an intermediate value
    /// does not fit in `u64`.
    pub fn calculate(&self, operations: &Vec<Operator>) -> (r: Option<u64>)
        requires
            self.parts@.len() >= 1,
            operations@.len() >= self.parts@.len() - 1,
        ensures
            r matches Some(v) ==> evaluate(self.parts@, operations@) == Some(v as nat),
            r is None ==> evaluate(self.parts@, operations@) is None,
    {
        let n = self.parts.len();
        let mut value: u64 = self.parts[0];
        let mut i: usize = 1;
        while i < n
            invariant
                1 <= i <= n,
                n == self.parts@.len(),
                operations@.len() >= n - 1,
                fold_prefix(self.parts@, operations@, i as nat) == Some(value as nat),
            decreases n - i,
        {
            match operations[i - 1].calculate(value, self.parts[i]) {
                Some(v) => {
                    value = v;
                },
                None => {
                    proof {
                        lemma_fold_none_persists(
                            self.parts@,
                            operations@,
                            (i + 1) as nat,
                            n as nat,
                        );
                    }
                    return None;
                },
            }
            i = i + 1;
        }
        Some(value)
    }

    /// The start of the run of non-zero operands that ends the equation:
    /// from there on every operator keeps the running value from falling.
    fn nonzero_tail_start(&self) -> (z: usize)
        requires
            self.parts@.len() >= 1,
        ensures
            1 <= z <= self.parts@.len(),
            forall|j: int| z <= j < self.parts@.len() ==> #[trigger] self.parts@[j] >= 1,
    {
        let mut z: usize = self.parts.len();
        while z > 1 && self.parts[z - 1] != 0
            invariant
                1 <= z <= self.parts@.len(),
                forall|j: int| z <= j < self.parts@.len() ==> #[trigger] self.parts@[j] >= 1,
            decreases z,
        {
            z = z - 1;
        }
        z
    }

    /// Folds like `calculate`, but gives up once the running value exceeds
    /// the target with only non-zero operands left (from index `tail` on):
    /// such a fold cannot come back down to the target.
    fn calculate_pruned(&self, operations: &Vec<Operator>, tail: usize) -> (r: Option<u64>)
        requires
            self.parts@.len() >= 1,
            operations@.len() >= self.parts@.len() - 1,
            1 <= tail <= self.parts@.len(),
            forall|j: int| tail <= j < self.parts@.len() ==> #[trigger] self.parts@[j] >= 1,
        ensures
            r matches Some(v) ==> evaluate(self.parts@, operations@) == Some(v as nat),
            evaluate(self.parts@, operations@) == Some(self.result as nat) ==> r == Some(
                self.result,
            ),
    {
        let n = self.parts.len();
        let mut value: u64 = self.parts[0];
        let mut i: usize = 1;
        while i < n
            invariant
                1 <= i <= n,
                n == self.parts@.len(),
                1 <= tail <= n,
                forall|j: int| tail <= j < n ==> #[trigger] self.parts@[j] >= 1,
                operations@.len() >= n - 1,
                fold_prefix(self.parts@, operations@, i as nat) == Some(value as nat),
            decreases n - i,
        {
            if i >= tail && value > self.result {
                proof {
                    lemma_fold_stays_above(
                        self.parts@,
                        operations@,
                        self.result as nat,
                        i as nat,
                        n as nat,
                    );
                }
                return None;
            }
            match operations[i - 1].calculate(value, self.parts[i]) {
                Some(v) => {
                    value = v;
                },
                None => {
                    proof {
                        lemma_fold_none_persists(
                            self.parts@,
                            operations@,
                            (i + 1) as nat,
                            n as nat,
                        );
                    }
                    return None;
                },
            }
            i = i + 1;
        }
        Some(value)
    }

    /// Runs through the remaining operator assignments of `combinations`
    /// and reports whether one of them folds the operands to the target.
    fn any_reaches(&self, combinations: &mut CombinationIterator<'_, Operator>) -> (r: bool)
        requires
            old(combinations).wf(),
            old(combinations).position() == 0,
            self.parts@.len() >= 1,
            old(combinations).length() == self.parts@.len() - 1,
        ensures
            r == reachable(self.parts@, self.result, old(combinations).alphabet()),
    {
        let ghost alphabet = combinations.alphabet();
        let ghost k = combinations.length();
        let tail = self.nonzero_tail_start();
        loop
            invariant
                1 <= tail <= self.parts@.len(),
                forall|j: int| tail <= j < self.parts@.len() ==> #[trigger] self.parts@[j] >= 1,
                combinations.wf(),
                combinations.alphabet() == alphabet,
                alphabet == old(combinations).alphabet(),
                combinations.length() == k,
                k == self.parts@.len() - 1,
                self.parts@.len() >= 1,
                combinations.position() <= combinations.total(),
                forall|j: nat|
                    j < combinations.position() ==> evaluate(
                        self.parts@,
                        #[trigger] combination(alphabet, j, k),
                    ) != Some(self.result as nat),
            decreases combinations.total() - combinations.position(),
        {
            let ghost j = combinations.position();
            match combinations.next() {
                Some(ops) => {
                    if let Some(v) = self.calculate_pruned(&ops, tail) {
                        if v == self.result {
                            proof {
                                lemma_enumeration_covers(alphabet, k);
                                assert(enumeration(alphabet, k)[j as int] == ops@);
                                assert(is_tuple_over(alphabet, k, ops@));
                                assert(evaluate(self.parts@, ops@) == Some(self.result as nat));
                                assert(reachable(self.parts@, self.result, alphabet));
                            }
                            return true;
                        }
                    }
                },
                None => {
                    proof {
                        lemma_enumeration_covers(alphabet, k);
                        assert forall|ops: Seq<Operator>|
                            #[trigger] is_tuple_over(alphabet, k, ops) implies evaluate(
                            self.parts@,
                            ops,
                        ) != Some(self.result as nat) by {
                            assert(cross_product(alphabet, k).contains(ops));
                            let e = enumeration(alphabet, k);
                            assert(e.contains(ops));
                            let i = choose|i: int| 0 <= i < e.len() && e[i] == ops;
                            assert(combination(alphabet, i as nat, k) == ops);
                        }
                    }
                    return false;
                },
            }
        }
    }

    /// Whether some assignment of operators from `operations` folds the
    /// operands to the target.
    ///
    /// An equation without operands is valid for no alphabet. The number of
    /// assignments, `m^(n-1)`, must fit in `usize`; `search` is the entry
    /// point that reports when it does not.
    pub fn can_be_valid(&self, operations: &[Operator]) -> (r: bool)
        requires
            self.parts@.len() == 0 || power(operations@.len(), (self.parts@.len() - 1) as nat)
                <= usize::MAX,
        ensures
            r == (self.parts@.len() >= 1 && reachable(self.parts@, self.result, operations@)),
    {
        if self.parts.len() == 0 {
            return false;
        }
        match CombinationIterator::new(operations, self.parts.len() - 1) {
            Some(mut combinations) => self.any_reaches(&mut combinations),
            None => false,
        }
    }
}

/// Searches for an assignment of operators from `alphabet` that folds the
/// equation's operands to its target. An equation without operands is
/// rejected; one whose `m^(n-1)` assignments cannot be counted in `usize` is
/// refused. Otherwise every assignment is tried, in the worst case all
/// `m^(n-1)` of them.
pub fn search(equation: &CalibrationEquation, alphabet: &[Operator]) -> (r: Result<
    bool,
    SearchError,
>)
    ensures
        r == search_outcome(equation.parts@, equation.result, alphabet@),
{
    if equation.parts.len() == 0 {
        return Err(SearchError::MalformedEquation);
    }
    match CombinationIterator::new(alphabet, equation.parts.len() - 1) {
        Some(mut combinations) => Ok(equation.any_reaches(&mut combinations)),
        None => Err(SearchError::SearchSpaceTooLarge),
    }
}

/// Searching depends on the equation's operands and target and on the
/// alphabet alone: searching equal equations over equal alphabets, or one
/// equation twice, gives the same outcome.
pub proof fn lemma_search_repeatable(
    a: CalibrationEquation,
    b: CalibrationEquation,
    alphabet_a: Seq<Operator>,
    alphabet_b: Seq<Operator>,
)
    requires
        a.parts@ == b.parts@,
        a.result == b.result,
        alphabet_a == alphabet_b,
    ensures
        search_outcome(a.parts@, a.result, alphabet_a) == search_outcome(
            b.parts@,
            b.result,
            alphabet_b,
        ),
{
}

/// What equation `e` adds to the sum: its target when the search finds it
/// reachable, else nothing.
pub open spec fn contribution(e: CalibrationEquation, alphabet: Seq<Operator>) -> nat {
    if search_outcome(e.parts@, e.result, alphabet) == Ok::<bool, SearchError>(true) {
        e.result as nat
    } else {
        0
    }
}

/// The sum of the targets of the equations found reachable.
pub open spec fn valid_sum(equations: Seq<CalibrationEquation>, alphabet: Seq<Operator>) -> nat
    decreases equations.len(),
{
    if equations.len() == 0 {
        0
    } else {
        valid_sum(equations.drop_last(), alphabet) + contribution(equations.last(), alphabet)
    }
}

proof fn lemma_valid_sum_grows(
    equations: Seq<CalibrationEquation>,
    alphabet: Seq<Operator>,
    i: int,
    j: int,
)
    requires
        0 <= i <= j <= equations.len(),
    ensures
        valid_sum(equations.subrange(0, i), alphabet) <= valid_sum(
            equations.subrange(0, j),
            alphabet,
        ),
    decreases j - i,
{
    if i < j {
        lemma_valid_sum_grows(equations, alphabet, i, j - 1);
        assert(equations.subrange(0, j).drop_last() =~= equations.subrange(0, j - 1));
    }
}

/// A batch of calibration equations.
#[derive(Debug, Clone)]
pub struct Calibrator {
    equations: Vec<CalibrationEquation>,
}

impl Calibrator {
    /// The equations of the batch, in order.
    pub closed spec fn equations(&self) -> Seq<CalibrationEquation> {
        self.equations@
    }

    pub fn new(equations: Vec<CalibrationEquation>) -> (r: Self)
        ensures
            r.equations() == equations@,
    {
        Calibrator { equations }
    }

    /// The sum of the targets of the equations that some assignment of
    /// operators from `operators` reaches. `None` when an equation has more
    /// assignments than `usize` can count, so that it cannot be searched, or
    /// when the sum does not fit in `u64`. An equation without operands is
    /// rejected on its own and adds nothing.
    pub fn get_valid_sum(&self, operators: &[Operator]) -> (r: Option<u64>)
        ensures
            r == (if any_too_large(self.equations(), operators@) {
                None::<u64>
            } else if valid_sum(self.equations(), operators@) <= u64::MAX {
                Some(valid_sum(self.equations(), operators@) as u64)
            } else {
                None::<u64>
            }),
    {
        let n = self.equations.len();
        let mut sum: u64 = 0;
        let mut i: usize = 0;
        while i < n
            invariant
                i <= n,
                n == self.equations@.len(),
                sum == valid_sum(self.equations@.subrange(0, i as int), operators@),
                forall|j: int| 0 <= j < i ==> !#[trigger] too_large(self.equations@[j], operators@),
            decreases n - i,
        {
            let equation = &self.equations[i];
            let add: u64 = match search(equation, operators) {
                Ok(true) => equation.result,
                Ok(false) => 0,
                Err(SearchError::MalformedEquation) => 0,
                Err(SearchError::SearchSpaceTooLarge) => {
                    proof {
                        assert(too_large(self.equations@[i as int], operators@));
                    }
                    return None;
                },
            };
            proof {
                assert(self.equations@.subrange(0, i + 1).drop_last() =~= self.equations@.subrange(
                    0,
                    i as int,
                ));
            }
            match sum.checked_add(add) {
                Some(s) => {
                    sum = s;
                },
                None => {
                    proof {
                        lemma_valid_sum_grows(self.equations@, operators@, i + 1, n as int);
                        assert(self.equations@.subrange(0, n as int) =~= self.equations@);
                    }
                    return None;
                },
            }
            i = i + 1;
        }
        proof {
            assert(self.equations@.subrange(0, n as int) =~= self.equations@);
        }
        Some(sum)
    }
}

/// Whether equation `e` has more operator assignments than `usize` can
/// count.
pub open spec fn too_large(e: CalibrationEquation, alphabet: Seq<Operator>) -> bool {
    search_outcome(e.parts@, e.result, alphabet) == Err::<bool, SearchError>(
        SearchError::SearchSpaceTooLarge,
    )
}

/// Whether some equation of `equations` cannot be searched.
pub open spec fn any_too_large(equations: Seq<CalibrationEquation>, alphabet: Seq<Operator>) -> bool {
    exists|i: int| 0 <= i < equations.len() && #[trigger] too_large(equations[i], alphabet)
}

/// Every tuple over a smaller alphabet is a tuple over a larger one, so an
/// equation reachable with the smaller stays reachable with the larger.
pub proof fn lemma_reachable_grows(
    parts: Seq<u64>,
    target: u64,
    smaller: Seq<Operator>,
    larger: Seq<Operator>,
)
    requires
        forall|o: Operator| smaller.contains(o) ==> #[trigger] larger.contains(o),
        reachable(parts, target, smaller),
    ensures
        reachable(parts, target, larger),
{
    let k = (parts.len() - 1) as nat;
    let ops = choose|ops: Seq<Operator>|
        #[trigger] is_tuple_over(smaller, k, ops) && evaluate(parts, ops) == Some(target as nat);
    assert forall|p: int| 0 <= p < k implies #[trigger] larger.contains(ops[p]) by {
        assert(smaller.contains(ops[p]));
    }
    assert(is_tuple_over(larger, k, ops));
}

/// Adding operators to the alphabet never lowers the sum of the reachable
/// targets, as long as every equation can still be searched with both.
pub proof fn lemma_valid_sum_monotone(
    equations: Seq<CalibrationEquation>,
    smaller: Seq<Operator>,
    larger: Seq<Operator>,
)
    requires
        forall|o: Operator| smaller.contains(o) ==> #[trigger] larger.contains(o),
        !any_too_large(equations, smaller),
        !any_too_large(equations, larger),
    ensures
        valid_sum(equations, smaller) <= valid_sum(equations, larger),
    decreases equations.len(),
{
    if equations.len() > 0 {
        let rest = equations.drop_last();
        assert(!any_too_large(rest, smaller)) by {
            if any_too_large(rest, smaller) {
                let i = choose|i: int| 0 <= i < rest.len() && #[trigger] too_large(rest[i], smaller);
                assert(too_large(equations[i], smaller));
            }
        }
        assert(!any_too_large(rest, larger)) by {
            if any_too_large(rest, larger) {
                let i = choose|i: int| 0 <= i < rest.len() && #[trigger] too_large(rest[i], larger);
                assert(too_large(equations[i], larger));
            }
        }
        lemma_valid_sum_monotone(rest, smaller, larger);
        let e = equations.last();
        assert(!too_large(equations[equations.len() - 1], larger));
        if contribution(e, smaller) > 0 {
            lemma_reachable_grows(e.parts@, e.result, smaller, larger);
        }
    }
}

/// What a line `<target>: <operand> <operand> ..` reads as: the target
/// before the first colon and the white-space separated operands after it.
pub open spec fn equation_fields(line: Seq<char>) -> Option<(u64, Seq<u64>)> {
    match find_char(line, ':') {
        None => None,
        Some(k) => match (
            decimal_value(line.subrange(0, k)),
            numbers(words(line.subrange(k + 1, line.len() as int))),
        ) {
            (Some(t), Some(ps)) => Some((t as u64, ps)),
            _ => None,
        },
    }
}

/// Whether `e` holds the fields `f`.
pub open spec fn holds_fields(e: CalibrationEquation, f: (u64, Seq<u64>)) -> bool {
    e.result == f.0 && e.parts@ == f.1
}

/// What lines `ls` read as, if every one is an equation.
pub open spec fn all_equation_fields(ls: Seq<Seq<char>>) -> Option<Seq<(u64, Seq<u64>)>>
    decreases ls.len(),
{
    if ls.len() == 0 {
        Some(Seq::empty())
    } else {
        match (all_equation_fields(ls.drop_last()), equation_fields(ls.last())) {
            (Some(fs), Some(f)) => Some(fs.push(f)),
            _ => None,
        }
    }
}

proof fn lemma_all_fields_fail(ls: Seq<Seq<char>>, i: int, j: int)
    requires
        0 <= i <= j <= ls.len(),
        all_equation_fields(ls.subrange(0, i)) is None,
    ensures
        all_equation_fields(ls.subrange(0, j)) is None,
    decreases j - i,
{
    if i < j {
        lemma_all_fields_fail(ls, i, j - 1);
        assert(ls.subrange(0, j).drop_last() =~= ls.subrange(0, j - 1));
    }
}

impl CalibrationEquation {
    /// Reads a line `<target>: <operand> <operand> ..`.
    pub fn parse(line: &[char]) -> (r: Option<Self>)
        ensures
            match equation_fields(line@) {
                None => r is None,
                Some(f) => r matches Some(e) && holds_fields(e, f),
            },
    {
        let k = match position_of(line, ':') {
            Some(k) => k,
            None => return None,
        };
        let n = line.len();
        let head = slice_chars(line, 0, k);
        let tail = slice_chars(line, k + 1, n);
        let result = parse_u64(head.as_slice());
        let parts = parse_all_u64(&split_words(tail.as_slice()));
        match (result, parts) {
            (Some(result), Some(parts)) => Some(CalibrationEquation { result, parts }),
            _ => None,
        }
    }
}

impl Calibrator {
    /// Reads one equation per line.
    pub fn parse(text: &[char]) -> (r: Option<Self>)
        ensures
            match all_equation_fields(lines(text@)) {
                None => r is None,
                Some(fs) => r matches Some(c) && c.equations().len() == fs.len() && forall|i: int|
                    0 <= i < fs.len() ==> holds_fields(#[trigger] c.equations()[i], fs[i]),
            },
    {
        let ls = split_lines(text);
        let ghost views = ls@.map_values(|l: Vec<char>| l@);
        let mut equations: Vec<CalibrationEquation> = Vec::new();
        let mut i: usize = 0;
        while i < ls.len()
            invariant
                i <= ls@.len(),
                views == ls@.map_values(|l: Vec<char>| l@),
                views == lines(text@),
                all_equation_fields(views.subrange(0, i as int)) matches Some(fs) && fs.len() == i
                    && equations@.len() == i && forall|j: int|
                    0 <= j < i ==> holds_fields(#[trigger] equations@[j], fs[j]),
            decreases ls.len() - i,
        {
            proof {
                assert(views.subrange(0, i + 1).drop_last() =~= views.subrange(0, i as int));
                assert(views[i as int] == ls@[i as int]@);
            }
            match CalibrationEquation::parse(ls[i].as_slice()) {
                Some(e) => {
                    equations.push(e);
                },
                None => {
                    proof {
                        lemma_all_fields_fail(views, i as int + 1, views.len() as int);
                        assert(views.subrange(0, views.len() as int) =~= views);
                    }
                    return None;
                },
            }
            i = i + 1;
        }
        proof {
            assert(views.subrange(0, views.len() as int) =~= views);
        }
        Some(Calibrator { equations })
    }
}

/// The operators of the first answer: addition and multiplication.
pub fn standard_operators() -> (r: Vec<Operator>)
    ensures
        r@ == seq![Operator::Add, Operator::Multiply],
{
    vec![Operator::Add, Operator::Multiply]
}

/// The operators of the second answer: addition, multiplication and
/// concatenation.
pub fn extended_operators() -> (r: Vec<Operator>)
    ensures
        r@ == seq![Operator::Add, Operator::Multiply, Operator::Concat],
{
    vec![Operator::Add, Operator::Multiply, Operator::Concat]
}

} // verus!
