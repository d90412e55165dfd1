use puzzle_solvers::calibration::{search, CalibrationEquation, Calibrator, Operator, SearchError};
use puzzle_solvers::combination::CombinationIterator;

fn equation(result: u64, parts: &[u64]) -> CalibrationEquation {
    CalibrationEquation { result, parts: parts.to_vec() }
}

const STANDARD: [Operator; 2] = [Operator::Add, Operator::Multiply];
const EXTENDED: [Operator; 3] = [Operator::Add, Operator::Multiply, Operator::Concat];

#[test]
fn two_operands_multiplied() {
    assert_eq!(search(&equation(190, &[10, 19]), &STANDARD), Ok(true));
}

#[test]
fn add_then_multiply() {
    assert_eq!(search(&equation(3267, &[81, 40, 27]), &STANDARD), Ok(true));
}

#[test]
fn concatenation_needed() {
    // 6 * 8 = 48, 48 || 6 = 486, 486 * 15 = 7290
    let e = equation(7290, &[6, 8, 6, 15]);
    assert_eq!(search(&e, &EXTENDED), Ok(true));
    assert_eq!(search(&e, &STANDARD), Ok(false));
    // 17 || 8 = 178, 178 + 14 = 192
    let e = equation(192, &[17, 8, 14]);
    assert_eq!(search(&e, &EXTENDED), Ok(true));
    assert_eq!(search(&e, &STANDARD), Ok(false));
}

#[test]
fn sample_total_is_no_single_target() {
    // 11387 is the sum of the sample's reachable targets, not a target that
    // any of the 27 folds of these operands produces
    let e = equation(11387, &[9, 7, 18, 13]);
    assert_eq!(search(&e, &EXTENDED), Ok(false));
    assert_eq!(search(&e, &STANDARD), Ok(false));
}

#[test]
fn exhaustive_over_nine_candidates() {
    let e = equation(7290, &[17, 8, 14]);
    assert_eq!(search(&e, &STANDARD), Ok(false));
    // the nine candidates give 39, 350, 2514, 150, 1904, 13614, 192, 2492, 17814
    assert_eq!(search(&e, &EXTENDED), Ok(false));
}

#[test]
fn single_operand() {
    let e = equation(5, &[5]);
    assert_eq!(search(&e, &STANDARD), Ok(true));
    assert_eq!(search(&e, &EXTENDED), Ok(true));
    assert_eq!(search(&e, &[]), Ok(true));
    assert_eq!(search(&equation(6, &[5]), &[]), Ok(false));
}

#[test]
fn no_operands_is_malformed() {
    assert_eq!(search(&equation(0, &[]), &STANDARD), Err(SearchError::MalformedEquation));
}

#[test]
fn empty_alphabet_reaches_nothing_with_gaps() {
    assert_eq!(search(&equation(3, &[1, 2]), &[]), Ok(false));
}

#[test]
fn search_is_repeatable() {
    let e = equation(3267, &[81, 40, 27]);
    let first = search(&e, &STANDARD);
    let second = search(&e, &STANDARD);
    assert_eq!(first, second);
}

#[test]
fn overflow_is_not_reachable() {
    let e = equation(0, &[u64::MAX, 2]);
    assert_eq!(search(&e, &STANDARD), Ok(false));
    let e = equation(u64::MAX, &[u64::MAX, 0]);
    assert_eq!(search(&e, &STANDARD), Ok(true));
}

#[test]
fn too_many_assignments() {
    let e = equation(1, &[1; 70]);
    assert_eq!(search(&e, &STANDARD), Err(SearchError::SearchSpaceTooLarge));
}

#[test]
fn operator_values() {
    assert_eq!(Operator::Add.calculate(12, 345), Some(357));
    assert_eq!(Operator::Multiply.calculate(12, 345), Some(4140));
    assert_eq!(Operator::Concat.calculate(12, 345), Some(12345));
    assert_eq!(Operator::Concat.calculate(12, 0), Some(120));
    assert_eq!(Operator::Concat.calculate(0, 7), Some(7));
    assert_eq!(Operator::Concat.calculate(1, 10_000_000_000_000_000_000), None);
    assert_eq!(Operator::Add.calculate(u64::MAX, 1), None);
    assert_eq!(Operator::num_digits(0), 1);
    assert_eq!(Operator::num_digits(9), 1);
    assert_eq!(Operator::num_digits(10), 2);
    assert_eq!(Operator::num_digits(u64::MAX), 20);
}

#[test]
fn valid_sums_of_sample() {
    let calibrator = Calibrator::new(vec![
        equation(190, &[10, 19]),
        equation(3267, &[81, 40, 27]),
        equation(83, &[17, 5]),
        equation(156, &[15, 6]),
        equation(7290, &[6, 8, 6, 15]),
        equation(161011, &[16, 10, 13]),
        equation(192, &[17, 8, 14]),
        equation(21037, &[9, 7, 18, 13]),
        equation(292, &[11, 6, 16, 20]),
    ]);
    assert_eq!(calibrator.get_valid_sum(&STANDARD), Some(3749));
    assert_eq!(calibrator.get_valid_sum(&EXTENDED), Some(11387));
}

#[test]
fn valid_sum_skips_malformed_and_reports_overflow() {
    let c = Calibrator::new(vec![equation(7, &[]), equation(3, &[1, 2])]);
    assert_eq!(c.get_valid_sum(&STANDARD), Some(3));
    let c = Calibrator::new(vec![equation(u64::MAX, &[u64::MAX]), equation(1, &[1])]);
    assert_eq!(c.get_valid_sum(&STANDARD), None);
}

#[test]
fn enumeration_in_counting_order() {
    let alphabet = ['a', 'b', 'c'];
    let mut it = CombinationIterator::new(&alphabet, 2).unwrap();
    let mut seen = Vec::new();
    while let Some(t) = it.next() {
        seen.push(t);
    }
    assert_eq!(seen.len(), 9);
    assert_eq!(seen[0], vec!['a', 'a']);
    assert_eq!(seen[1], vec!['b', 'a']);
    assert_eq!(seen[3], vec!['a', 'b']);
    assert_eq!(seen[8], vec!['c', 'c']);
    for i in 0..seen.len() {
        for j in (i + 1)..seen.len() {
            assert_ne!(seen[i], seen[j]);
        }
    }
    assert_eq!(it.next(), None);
}

#[test]
fn enumeration_is_deterministic() {
    let alphabet = [1u8, 2];
    let mut a = CombinationIterator::new(&alphabet, 3).unwrap();
    let mut b = CombinationIterator::new(&alphabet, 3).unwrap();
    loop {
        let x = a.next();
        let y = b.next();
        assert_eq!(x, y);
        if x.is_none() {
            break;
        }
    }
}

#[test]
fn enumeration_edge_cases() {
    let empty: [u8; 0] = [];
    let mut it = CombinationIterator::new(&empty, 2).unwrap();
    assert_eq!(it.next(), None);
    let mut it = CombinationIterator::new(&empty, 0).unwrap();
    assert_eq!(it.next(), Some(vec![]));
    assert_eq!(it.next(), None);
    let one = [7u8];
    let mut it = CombinationIterator::new(&one, 4).unwrap();
    assert_eq!(it.next(), Some(vec![7, 7, 7, 7]));
    assert_eq!(it.next(), None);
    assert!(CombinationIterator::new(&[1u8, 2], 64).is_none());
    assert!(CombinationIterator::new(&[1u8, 2], 63).is_some());
}

#[test]
fn pruning_keeps_zero_operands() {
    // 5 already exceeds 0, yet multiplying by the zero that follows reaches it
    assert_eq!(search(&equation(0, &[5, 0]), &STANDARD), Ok(true));
    assert_eq!(search(&equation(0, &[5, 3, 0]), &STANDARD), Ok(true));
    assert_eq!(search(&equation(3, &[5, 1]), &STANDARD), Ok(false));
    assert_eq!(search(&equation(5, &[5, 1]), &STANDARD), Ok(true));
    let e = equation(2, &[1, 1, 1, 1, 1, 1, 1, 1, 1, 1, 1, 1, 1, 1]);
    assert_eq!(search(&e, &EXTENDED), Ok(true));
    assert_eq!(e.calculate(&vec![Operator::Multiply; 12].into_iter().chain([Operator::Add]).collect()), Some(2));
}

#[test]
fn valid_sum_refuses_unsearchable_equations() {
    let c = Calibrator::new(vec![equation(42, &[1; 42])]);
    assert_eq!(c.get_valid_sum(&[Operator::Add]), Some(42));
    // 3^41 assignments cannot be counted in usize: no sum rather than 0
    assert_eq!(c.get_valid_sum(&EXTENDED), None);
}

#[test]
fn can_be_valid_without_operands() {
    assert!(!equation(0, &[]).can_be_valid(&STANDARD));
    assert!(equation(190, &[10, 19]).can_be_valid(&STANDARD));
}
