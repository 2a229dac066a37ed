use advent_solvers::day01::ex1;
use advent_solvers::day01::list_distance;
use advent_solvers::day02::ex2;
use advent_solvers::day05::ex5;
use advent_solvers::day07::ex7;

const LISTS: &str = "3   4\n4   3\n2   5\n1   3\n3   9\n3   3\n";

#[test]
fn list_distance_example() {
    let (mut left, mut right) = list_distance::parse_input(LISTS);
    assert_eq!(left, vec![3, 4, 2, 1, 3, 3]);
    left.sort();
    right.sort();
    assert_eq!(list_distance::part1(&left, &right), 11);
    assert_eq!(list_distance::part2(&left, &right), 31);
}

#[test]
fn list_vectors_example() {
    let mut vecs = ex1::parse_input_vec(LISTS);
    assert_eq!(vecs.len(), 2);
    vecs.iter_mut().for_each(|v| v.sort_unstable());
    assert_eq!(ex1::part1(&vecs[0], &vecs[1]), 11);
    assert_eq!(ex1::part2(&vecs[0], &vecs[1]), 31);
    let (l, r) = ex1::parse_input_tuple("10 20\n7 7\n");
    assert_eq!((l, r), (vec![10, 7], vec![20, 7]));
    assert_eq!(ex1::parse_line("  12   345 6"), vec![12, 345, 6]);
}

#[test]
fn distance_uses_shorter_list() {
    assert_eq!(ex1::part1(&vec![1, 9], &vec![4]), 3);
    assert_eq!(ex1::part2(&vec![2, 5], &vec![2, 2, 7]), 4);
}

const REPORTS: &str = "7 6 4 2 1\n1 2 7 8 9\n9 7 6 2 1\n1 3 2 4 5\n8 6 4 4 1\n1 3 6 7 9\n";

#[test]
fn reports_example() {
    let levels = ex2::parse_input(REPORTS);
    assert_eq!(levels.len(), 6);
    assert_eq!(ex2::part_one(&levels), 2);
    assert_eq!(ex2::part_two(&levels), 4);
}

#[test]
fn report_checks() {
    assert!(ex2::is_monotonic_dec(&vec![7, 6, 4, 2, 1]));
    assert!(!ex2::is_monotonic_inc(&vec![7, 6, 4, 2, 1]));
    assert!(!ex2::at_most_three_apart(&vec![1, 2, 7, 8, 9]));
    assert!(ex2::check_level(&vec![1, 3, 6, 7, 9]));
    assert!(!ex2::check_level(&vec![8, 6, 4, 4, 1]));
    assert_eq!(
        ex2::generate_subvecs_functional(&vec![1, 2, 3]),
        vec![vec![2, 3], vec![1, 3], vec![1, 2], vec![1, 2, 3]]
    );
    assert_eq!(ex2::parse_line("4 5"), vec![4, 5]);
}

const PAGES: &str = "47|53\n97|13\n97|61\n97|47\n75|29\n61|13\n75|53\n29|13\n97|29\n53|29\n61|53\n97|53\n61|29\n47|13\n75|47\n97|75\n47|61\n75|61\n47|29\n75|13\n53|13\n\n75,47,61,53,29\n97,61,53,29,13\n75,29,13\n75,97,47,61,53\n61,13,29\n97,13,75,29,47\n";

#[test]
fn pages_example() {
    assert_eq!(ex5::part_one(PAGES), 143);
    assert_eq!(ex5::part_two(PAGES), 123);
}

#[test]
fn page_ordering() {
    let rules = ex5::parse_input_rules(PAGES);
    assert_eq!(rules.len(), 21);
    assert_eq!(rules[0], (47, 53));
    let updates = ex5::parse_input_updates(PAGES);
    assert_eq!(updates.len(), 6);
    assert!(ex5::is_correct(&updates[0], &rules));
    assert!(!ex5::is_correct(&updates[3], &rules));
    assert_eq!(ex5::fix_ordering(&vec![75, 97, 47, 61, 53], &rules), vec![97, 75, 47, 61, 53]);
    assert_eq!(ex5::fix_ordering(&vec![97, 13, 75, 29, 47], &rules), vec![97, 75, 47, 29, 13]);
    assert_eq!(ex5::calc_deps(&13, &rules, &vec![61, 13, 29], &vec![]), 2);
    assert_eq!(ex5::parse_rule("12|34"), vec![12, 34]);
    assert_eq!(ex5::parse_update("1,2,3"), vec![1, 2, 3]);
}

const EQUATIONS: &str = "190: 10 19\n3267: 81 40 27\n83: 17 5\n156: 15 6\n7290: 6 8 6 15\n161011: 16 10 13\n192: 17 8 14\n21037: 9 7 18 13\n292: 11 6 16 20\n";

#[test]
fn equations_example() {
    assert_eq!(ex7::part_one(EQUATIONS), 3749);
    assert_eq!(ex7::part_two(EQUATIONS), 11387);
}

#[test]
fn equation_pieces() {
    assert_eq!(ex7::parse_line("190: 10 19"), (190, vec![10, 19]));
    assert_eq!(ex7::parse_input(EQUATIONS).len(), 9);
    assert_eq!(ex7::concat(15, 6), 156);
    assert_eq!(ex7::concat(12, 0), 120);
    assert_eq!(ex7::concat(0, 345), 345);
    assert_eq!(ex7::add(2, 3), 5);
    assert_eq!(ex7::multiply(4, 3), 12);
    assert!(ex7::has_solution_one(&(3267, vec![81, 40, 27])));
    assert!(!ex7::has_solution_one(&(156, vec![15, 6])));
    assert!(ex7::has_solution_two(&(156, vec![15, 6])));
    assert!(ex7::is_solvable_two(7290, 0, &vec![6, 8, 6, 15]));
    assert!(!ex7::is_solvable_one(7290, 0, &vec![6, 8, 6, 15]));
    assert!(!ex7::is_solvable_one(u64::MAX, 0, &vec![u64::MAX, u64::MAX, 2]));
    assert_eq!(ex7::part_one(""), 0);
}
