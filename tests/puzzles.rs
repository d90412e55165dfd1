use puzzle_solvers::antennas::{self, AntennaMap};
use puzzle_solvers::calibration::{extended_operators, standard_operators, CalibrationEquation, Calibrator};
use puzzle_solvers::location_lists;
use puzzle_solvers::patrol::{self, Direction as Heading, PatrollingMap, Position};
use puzzle_solvers::print_order::{self, PageOrderingRule, SafetyManualPrintOrder, UpdateSequence};
use puzzle_solvers::program::{Command, Program};
use puzzle_solvers::reports::{self, Direction, Report};
use puzzle_solvers::text::{parse_i8, parse_u64, split_lines, split_words};
use puzzle_solvers::word_search::LetterWall;

fn chars(s: &str) -> Vec<char> {
    s.chars().collect()
}

#[test]
fn location_lists_sample() {
    let rows = location_lists::parse_rows(&chars("3   4\n4   3\n2   5\n1   3\n3   9\n3   3\n")).unwrap();
    assert_eq!(rows.len(), 6);
    assert_eq!(location_lists::part_one(&rows), Some(11));
    assert_eq!(location_lists::part_two(&rows), Some(31));
}

#[test]
fn location_lists_rejects_bad_rows() {
    assert!(location_lists::parse_rows(&chars("1 2 3\n")).is_none());
    assert!(location_lists::parse_rows(&chars("1 x\n")).is_none());
    assert_eq!(location_lists::part_two(&vec![[u64::MAX, u64::MAX], [1, u64::MAX]]), None);
}

const REPORTS: &str = "7 6 4 2 1\n1 2 7 8 9\n9 7 6 2 1\n1 3 2 4 5\n8 6 4 4 1\n1 3 6 7 9\n";

#[test]
fn reports_sample() {
    let data = reports::parse_reports(&chars(REPORTS)).unwrap();
    assert_eq!(reports::part_one(&data), 2);
    assert_eq!(reports::part_two(&data), 4);
}

#[test]
fn report_scans() {
    let r = Report(vec![1, 3, 2, 4, 5]);
    assert!(!r.is_safe(None, 0));
    assert!(!r.is_safe_any_way(1));
    assert!(Report(vec![7, 6, 4, 2, 1]).is_safe_any_way(0));
    // scanned as increasing, the failing step 2 -> 7 is tolerated because
    // 2 -> 8 fails as well, and the scan goes on after the 8
    assert!(Report(vec![1, 2, 7, 8, 9]).is_safe_any_way(1));
    assert!(!Report(vec![1, 2, 7, 8, 9]).is_safe(None, 0));
    assert!(Report(vec![1, 2, 3]).is_safe(Some(Direction::Increasing), 0));
    assert!(!Report(vec![1, 2, 3]).is_safe(Some(Direction::Decreasing), 0));
    assert!(Report(vec![]).is_safe(None, 0));
    assert!(!Report(vec![-128, 127]).is_safe(None, 0));
    assert_eq!(Report::parse(&chars("-3 +4 5")).unwrap().0, vec![-3, 4, 5]);
    assert!(Report::parse(&chars("1 200")).is_none());
}

#[test]
fn program_sample() {
    let p = Program::parse("xmul(2,4)%&mul[3,7]!@^do_not_mul(5,5)+mul(32,64]then(mul(11,8)mul(8,5))").unwrap();
    assert_eq!(p.0.len(), 4);
    assert_eq!(p.do_all_multiplications(), Some(161));
    assert_eq!(p.run(), Some(161));
    let p = Program::parse("xmul(2,4)&mul[3,7]!^don't()_mul(5,5)+mul(32,64](mul(11,8)undo()?mul(8,5))").unwrap();
    assert_eq!(p.do_all_multiplications(), Some(161));
    assert_eq!(p.run(), Some(48));
}

#[test]
fn command_values() {
    let c = Command { command: "mul".to_string(), parameters: vec![6, 7] };
    assert_eq!(c.run(), Some(42));
    let c = Command { command: "mul".to_string(), parameters: vec![6] };
    assert_eq!(c.run(), Some(0));
    let c = Command { command: "do".to_string(), parameters: vec![6, 7] };
    assert_eq!(c.run(), Some(0));
    let p = Program::parse("mul(3,4,5)mul()mul(2,)").unwrap();
    assert_eq!(p.0[0].parameters, vec![3, 4, 5]);
    assert_eq!(p.0[1].parameters, vec![0]);
    assert_eq!(p.0[2].parameters, vec![2, 0]);
    assert_eq!(p.do_all_multiplications(), Some(12));
    let p = Program::parse("mul(18446744073709551615,2)don't()mul(2,3)").unwrap();
    assert_eq!(p.do_all_multiplications(), None);
    assert_eq!(p.run(), None);
    let p = Program::parse("don't()mul(18446744073709551615,2)do()mul(2,3)").unwrap();
    assert_eq!(p.run(), Some(6));
}

const WALL: &str = "MMMSXXMASM\nMSAMXMSMSA\nAMXSXMAAMM\nMSAMASMSMX\nXMASAMXAMM\nXXAMMXXAMA\nSMSMSASXSS\nSAXAMASAAA\nMAMMMXMMMM\nMXMXAXMASX\n";

#[test]
fn word_search_sample() {
    let wall = LetterWall::parse(&chars(WALL));
    assert_eq!(wall.0.len(), 10);
    assert_eq!(wall.count_xmas(), 18);
    assert_eq!(wall.count_cross_mas(), 9);
}

#[test]
fn word_search_small() {
    let wall = LetterWall::parse(&chars("XMAS\n"));
    assert_eq!(wall.count_xmas(), 1);
    let wall = LetterWall::parse(&chars("SAMX\n"));
    assert_eq!(wall.count_xmas(), 1);
    let wall = LetterWall::parse(&chars("M.S\n.A.\nM.S\n"));
    assert_eq!(wall.count_cross_mas(), 1);
    assert_eq!(LetterWall::parse(&chars("")).count_xmas(), 0);
}

const MANUAL: &str = "47|53\n97|13\n97|61\n97|47\n75|29\n61|13\n75|53\n29|13\n97|29\n53|29\n61|53\n97|53\n61|29\n47|13\n75|47\n97|75\n47|61\n75|61\n47|29\n75|13\n53|13\n\n75,47,61,53,29\n97,61,53,29,13\n75,29,13\n75,97,47,61,53\n61,13,29\n97,13,75,29,47\n";

#[test]
fn print_order_sample() {
    let manual = SafetyManualPrintOrder::parse(&chars(MANUAL)).unwrap();
    assert_eq!(manual.rules.len(), 21);
    assert_eq!(manual.updates.len(), 6);
    assert!(manual.updates[0].matches_rules(&manual.rules));
    assert!(!manual.updates[3].matches_rules(&manual.rules));
    assert_eq!(manual.updates[0].get_middle_page_number(), 61);
    assert_eq!(print_order::part_one(&manual), Some(143));
    assert_eq!(print_order::part_two(&manual), Some(123));
}

#[test]
fn print_order_pieces() {
    assert_eq!(PageOrderingRule::parse(&chars("47|53")), Some(PageOrderingRule { first: 47, second: 53 }));
    assert_eq!(PageOrderingRule::parse(&chars("47-53")), None);
    assert_eq!(UpdateSequence::parse(&chars("1,2,3")).unwrap().0, vec![1, 2, 3]);
    assert!(UpdateSequence::parse(&chars("1,,3")).is_none());
    let rules = vec![PageOrderingRule { first: 1, second: 2 }];
    let fixed = UpdateSequence(vec![2, 1]).get_rule_conforming(&rules);
    assert_eq!(fixed.0, vec![1, 2]);
    let fixed = UpdateSequence(vec![5, 2, 1, 9]).get_rule_conforming(&rules);
    let mut pages = fixed.0.clone();
    pages.sort();
    assert_eq!(pages, vec![1, 2, 5, 9]);
    assert!(SafetyManualPrintOrder::parse(&chars("1|2\n3,4\n")).is_none());
}

const PATROL: &str = "....#.....\n.........#\n..........\n..#.......\n.......#..\n..........\n.#..^.....\n........#.\n#.........\n......#...\n";

#[test]
fn patrol_sample() {
    let map = PatrollingMap::parse(&chars(PATROL)).unwrap();
    assert_eq!((map.width, map.height), (10, 10));
    assert_eq!(map.start_position, Position { x: 4, y: 6 });
    assert!(map.is_obstacle(Position { x: 4, y: 0 }));
    assert!(!map.is_obstacle(Position { x: 0, y: 0 }));
    assert_eq!(patrol::part_one(&map), 41);
}

#[test]
fn patrol_steps() {
    let map = PatrollingMap::parse(&chars(".#.\n.^.\n...\n")).unwrap();
    let mut guard = map.iter();
    assert_eq!(guard.next(), Some((Position { x: 2, y: 1 }, Heading::East)));
    assert_eq!(guard.next(), Some((Position { x: 3, y: 1 }, Heading::East)));
    assert!(PatrollingMap::parse(&chars(".#.\n...\n")).is_none());
    assert_eq!(Heading::West.turn_right(), Heading::North);
    assert_eq!(Position { x: 0, y: 0 }.move_in_direction(Heading::North, 1, 5, 5), None);
    assert_eq!(Position { x: 4, y: 3 }.move_in_direction(Heading::South, 1, 5, 5), Some(Position { x: 4, y: 4 }));
    assert_eq!(Position { x: 4, y: 4 }.move_in_direction(Heading::South, 1, 5, 5), None);
}

const ANTENNAS: &str = "............\n........0...\n.....0......\n.......0....\n....0.......\n......A.....\n............\n............\n........A...\n.........A..\n............\n............\n";

#[test]
fn antennas_sample() {
    let map = AntennaMap::parse(&chars(ANTENNAS)).unwrap();
    assert_eq!(map.antenna.len(), 2);
    assert_eq!(map.antenna[0].0, '0');
    assert_eq!(map.antenna[1].1.len(), 3);
    assert_eq!(antennas::part_one(&map), 14);
    assert_eq!(antennas::part_two(&map), 34);
    assert!(map.get_antinodes('x').is_none());
}

#[test]
fn antinodes_of_a_pair() {
    let text = "..........\n..........\n..........\n....a.....\n..........\n.....a....\n..........\n..........\n..........\n..........\n";
    let map = AntennaMap::parse(&chars(text)).unwrap();
    let found = map.get_antinodes('a').unwrap();
    let points: Vec<(i64, i64)> = found.iter().map(|v| (v.x, v.y)).collect();
    assert_eq!(points, vec![(6, 7), (3, 1)]);
    let rays = map.get_resonances('a').unwrap();
    let points: Vec<(i64, i64)> = rays.iter().map(|v| (v.x, v.y)).collect();
    assert_eq!(points, vec![(5, 5), (6, 7), (7, 9), (4, 3), (3, 1)]);
    assert_eq!(antennas::part_one(&map), 2);
    assert_eq!(antennas::part_two(&map), 5);
}

#[test]
fn text_helpers() {
    assert_eq!(parse_u64(&chars("+12")), Some(12));
    assert_eq!(parse_u64(&chars("18446744073709551615")), Some(u64::MAX));
    assert_eq!(parse_u64(&chars("18446744073709551616")), None);
    assert_eq!(parse_u64(&chars("")), None);
    assert_eq!(parse_u64(&chars("-1")), None);
    assert_eq!(parse_i8(&chars("-128")), Some(-128));
    assert_eq!(parse_i8(&chars("128")), None);
    assert_eq!(parse_i8(&chars("-+1")), None);
    assert_eq!(split_words(&chars("  a bc  d ")).len(), 3);
    assert_eq!(split_words(&chars("a\u{a0}b\tc\u{3000}")).len(), 3);
    assert_eq!(split_lines(&chars("a\r\nb\n")), vec![vec!['a'], vec!['b']]);
    assert_eq!(split_lines(&chars("a\n\nb")).len(), 3);
    assert_eq!(split_lines(&chars("a\r\nb\r")), vec![vec!['a'], vec!['b', '\r']]);
    assert_eq!(split_lines(&chars("")), Vec::<Vec<char>>::new());
    assert_eq!(split_lines(&chars("\n")), vec![Vec::<char>::new()]);
}

#[test]
fn calibration_text() {
    let e = CalibrationEquation::parse(&chars("190: 10 19")).unwrap();
    assert_eq!((e.result, e.parts.clone()), (190, vec![10, 19]));
    assert!(CalibrationEquation::parse(&chars("190 10 19")).is_none());
    let c = Calibrator::parse(&chars("190: 10 19\n3267: 81 40 27\n83: 17 5\n")).unwrap();
    assert_eq!(c.get_valid_sum(&standard_operators()), Some(3457));
    assert_eq!(c.get_valid_sum(&extended_operators()), Some(3457));
}
