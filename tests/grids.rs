use advent_solvers::day03::ex3;
use advent_solvers::day04::ex4;
use advent_solvers::day08::ex8;

#[test]
fn multiplications_example() {
    let text = "xmul(2,4)%&mul[3,7]!@^do_not_mul(5,5)+mul(32,64]then(mul(11,8)mul(8,5))";
    assert_eq!(ex3::part_one(text), Some(161));
}

#[test]
fn multiplications_need_an_instruction() {
    assert_eq!(ex3::part_one("mul(1234,5) mul[2,3]"), None);
    assert_eq!(ex3::part_one("mul(999,999)mul(1,2)"), Some(998003));
}

#[test]
fn enabled_multiplications() {
    let text = "xmul(2,4)&mul[3,7]!^don't()_mul(5,5)+mul(32,64](mul(11,8)undo()?mul(8,5))";
    assert_eq!(ex3::part_two(text), Some(8));
    let closed = "mul(2,3)don't()mul(4,4)do()mul(5,5)don't()";
    assert_eq!(ex3::part_two(closed), Some(31));
    let pairs = vec![("3".to_string(), "4".to_string()), ("10".to_string(), "10".to_string())];
    assert_eq!(ex3::sum_products(&pairs), Some(112));
    assert_eq!(ex3::sum_products(&vec![]), None);
    assert_eq!(ex3::sum_enabled(&vec!["mul(2,2)".to_string(), "mul(3,3)".to_string()]), Some(13));
}

const WORDS: &str = "MMMSXXMASM\nMSAMXMSMSA\nAMXSXMAAMM\nMSAMASMSMX\nXMASAMXAMM\nXXAMMXXAMA\nSMSMSASXSS\nSAXAMASAAA\nMAMMMXMMMM\nMXMXAXMASX\n";

#[test]
fn word_search_example() {
    assert_eq!(ex4::part_one(WORDS), Some(18));
    assert_eq!(ex4::part_two(WORDS), 9);
}

#[test]
fn diagonals_of_a_wide_grid() {
    let grid = ex4::parse_input("ABC\nDEF\n");
    assert_eq!(
        ex4::get_diagonal_lines(&grid),
        vec!["A", "A", "DB", "BD", "EC", "CE", "F", "F", "D", "D", "AE", "EA", "BF", "FB", "C", "C"]
    );
}

#[test]
fn word_search_lines() {
    let grid = ex4::parse_input("AB\nCD\n");
    assert_eq!(ex4::get_horizontal_lines(&grid), vec!["AB", "BA", "CD", "DC"]);
    assert_eq!(ex4::get_vertical_lines(&grid), vec!["AC", "CA", "BD", "DB"]);
    assert_eq!(
        ex4::get_diagonal_lines(&grid),
        vec!["A", "A", "CB", "BC", "D", "D", "C", "C", "AD", "DA", "B", "B"]
    );
    assert_eq!(ex4::get_lines(grid).len(), 20);
    assert_eq!(ex4::count_occurences(&vec!["XMASXMAS".to_string(), "SAMX".to_string()]), Some(2));
    let cross = ex4::parse_input("M.S\n.A.\nM.S\n");
    assert!(ex4::check_x_mas(&cross, 1, 1));
    assert_eq!(ex4::find_x_mas(&cross), 1);
}

const ANTENNAS: &str = "............\n........0...\n.....0......\n.......0....\n....0.......\n......A.....\n............\n............\n........A...\n.........A..\n............\n............\n";

#[test]
fn antennas_example() {
    assert_eq!(ex8::part_one(ANTENNAS), 14);
    assert_eq!(ex8::part_two(ANTENNAS), 34);
}

#[test]
fn antenna_pieces() {
    let grid = ex8::parse_input(ANTENNAS);
    let map = ex8::parse_map(&grid);
    assert_eq!(map.len(), 2);
    assert_eq!(map[0].0, '0');
    assert_eq!(map[0].1, vec![(1, 8), (2, 5), (3, 7), (4, 4)]);
    assert_eq!(ex8::antenna_pairs(&vec![(0, 0), (1, 1), (2, 2)]), vec![((0, 0), (1, 1)), ((0, 0), (2, 2)), ((1, 1), (2, 2))]);
    assert_eq!(ex8::try_get_pole(&(1, 1), &(-1, 2), &(5, 5)), Some((0, 3)));
    assert_eq!(ex8::try_get_pole(&(0, 1), &(-1, 0), &(5, 5)), None);
    assert_eq!(ex8::antinode_primary_poles(&((1, 1), (2, 2)), (5, 5)), vec![Some((0, 0)), Some((3, 3))]);
    assert_eq!(
        ex8::antinode_all_poles(&((1, 1), (2, 2)), (4, 4)),
        vec![Some((1, 1)), Some((0, 0)), Some((2, 2)), Some((3, 3))]
    );
    let found = ex8::antinode_positions(&vec![(1, 1), (2, 2)], false, (5, 5));
    assert_eq!(found, vec![(0, 0), (3, 3)]);
    let everything = ex8::valid_antinode_positions(&map, false, (12, 12));
    assert_eq!(ex8::unique_elements(everything).len(), 14);
    assert_eq!(ex8::unique_elements(vec![(1, 2), (1, 2), (0, 0)]), vec![(1, 2), (0, 0)]);
}
