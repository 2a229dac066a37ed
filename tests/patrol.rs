use advent_solvers::day06::ex6::{
    advance_guard, candidates, count_loop_inducing, count_unique_pos, detect_loop,
    find_start_move, generate_moves, is_blocked, is_inside, make_map_add_obst, next_position,
    parse_direction, parse_input, part_one, part_two, run, to_i32, turn_right, Outcome, ParseError,
};

const EXAMPLE: &str = "....#.....\n.........#\n..........\n..#.......\n.......#..\n..........\n.#..^.....\n........#.\n#.........\n......#...\n";

fn grid(rows: &[&str]) -> Vec<Vec<char>> {
    rows.iter().map(|r| r.chars().collect()).collect()
}

#[test]
fn canonical_example_part_one() {
    assert_eq!(part_one(EXAMPLE), Ok(41));
}

#[test]
fn canonical_example_part_two() {
    assert_eq!(part_two(EXAMPLE), Ok(6));
}

#[test]
fn immediate_exit_records_one_state() {
    let map = grid(&["^..", "...", "..."]);
    let start = find_start_move(&map).unwrap();
    assert_eq!(start, ((0, 0), (-1, 0)));
    let moves = generate_moves(&map, &start);
    assert_eq!(moves, vec![((0, 0), (-1, 0))]);
    assert!(!detect_loop(&map, &start));
    assert_eq!(run(&map, &start), (vec![((0, 0), (-1, 0))], Outcome::Exited));
    assert_eq!(part_one("^..\n...\n...\n"), Ok(1));
}

#[test]
fn no_candidates_gives_zero() {
    let map = grid(&[">"]);
    let start = find_start_move(&map).unwrap();
    let moves = generate_moves(&map, &start);
    let cands = candidates(&moves, &start);
    assert!(cands.is_empty());
    assert_eq!(count_loop_inducing(&map, &start, &cands), 0);
    assert_eq!(part_two(">\n"), Ok(0));
}

#[test]
fn start_is_never_a_candidate() {
    let map = parse_input(EXAMPLE).unwrap();
    let start = find_start_move(&map).unwrap();
    let moves = generate_moves(&map, &start);
    let cands = candidates(&moves, &start);
    assert!(!cands.contains(&start.0));
    assert_eq!(cands.len() + 1, count_unique_pos(moves) as usize);
}

#[test]
fn candidate_order_does_not_change_count() {
    let map = parse_input(EXAMPLE).unwrap();
    let start = find_start_move(&map).unwrap();
    let moves = generate_moves(&map, &start);
    let cands = candidates(&moves, &start);
    let mut reversed = cands.clone();
    reversed.reverse();
    assert_eq!(count_loop_inducing(&map, &start, &cands), 6);
    assert_eq!(count_loop_inducing(&map, &start, &reversed), 6);
}

#[test]
fn simulation_is_deterministic() {
    let map = parse_input(EXAMPLE).unwrap();
    let start = find_start_move(&map).unwrap();
    let a = generate_moves(&map, &start);
    let b = generate_moves(&map, &start);
    assert_eq!(a, b);
    assert_eq!(detect_loop(&map, &start), detect_loop(&map, &start));
    assert!(a.len() <= 10 * 10 * 4);
}

#[test]
fn unique_positions_at_most_path_length() {
    let moves = vec![((0, 0), (-1, 0)), ((0, 0), (0, 1)), ((0, 1), (0, 1))];
    assert_eq!(count_unique_pos(moves.clone()), 2);
    let straight = vec![((2, 0), (-1, 0)), ((1, 0), (-1, 0)), ((0, 0), (-1, 0))];
    assert_eq!(count_unique_pos(straight), 3);
    assert_eq!(count_unique_pos(vec![]), 0);
}

#[test]
fn boxed_guard_loops() {
    let map = grid(&[".#..", "...#", "#^..", "..#."]);
    let start = find_start_move(&map).unwrap();
    assert!(detect_loop(&map, &start));
    let (path, outcome) = run(&map, &start);
    assert_eq!(outcome, Outcome::Looping);
    assert_eq!(path.len(), 8);
}

#[test]
fn obstacle_makes_a_loop() {
    let map = parse_input(EXAMPLE).unwrap();
    let start = find_start_move(&map).unwrap();
    assert!(!detect_loop(&map, &start));
    let blocked = make_map_add_obst(&map, (6, 3));
    assert!(detect_loop(&blocked, &start));
    assert_eq!(map[6][3], '.');
    assert_eq!(blocked[6][3], '#');
}

#[test]
fn obstacle_outside_is_ignored() {
    let map = grid(&["..", ".^"]);
    assert_eq!(make_map_add_obst(&map, (5, 0)), map);
    assert_eq!(make_map_add_obst(&map, (-1, 1)), map);
}

#[test]
fn advance_turns_before_wall() {
    let map = grid(&["#.", "^."]);
    assert_eq!(advance_guard(&map, &((1, 0), (-1, 0))), ((1, 0), (0, 1)));
    assert_eq!(advance_guard(&map, &((1, 0), (0, 1))), ((1, 1), (0, 1)));
    assert_eq!(advance_guard(&map, &((1, 1), (0, 1))), ((1, 2), (0, 1)));
}

#[test]
fn turning_and_stepping() {
    assert_eq!(turn_right(&(-1, 0)), (0, 1));
    assert_eq!(turn_right(&(0, 1)), (1, 0));
    assert_eq!(turn_right(&(1, 0)), (0, -1));
    assert_eq!(turn_right(&(0, -1)), (-1, 0));
    assert_eq!(next_position(&((3, 4), (0, -1))), (3, 3));
    assert_eq!(to_i32(17), 17);
}

#[test]
fn directions_from_markers() {
    assert_eq!(parse_direction(&'>'), (0, 1));
    assert_eq!(parse_direction(&'v'), (1, 0));
    assert_eq!(parse_direction(&'<'), (0, -1));
    assert_eq!(parse_direction(&'^'), (-1, 0));
    assert_eq!(parse_direction(&'x'), (0, 0));
}

#[test]
fn bounds_and_walls() {
    let map = grid(&["#.", ".."]);
    assert!(is_inside(&map, &(1, 1)));
    assert!(!is_inside(&map, &(2, 0)));
    assert!(!is_inside(&map, &(0, -1)));
    assert!(is_blocked(&map, &(0, 0)));
    assert!(!is_blocked(&map, &(0, 1)));
}

#[test]
fn parse_errors() {
    assert_eq!(part_one("..\n.\n^.\n"), Err(ParseError::RaggedRows));
    assert_eq!(part_one("..\n.x\n"), Err(ParseError::UnknownCell));
    assert_eq!(part_one("..\n..\n"), Err(ParseError::MissingStart));
    assert_eq!(part_two(""), Err(ParseError::MissingStart));
    assert_eq!(parse_input("#.\r\n^.\r\n"), Ok(grid(&["#.", "^."])));
    assert_eq!(parse_input("#.\r\n^\r"), Err(ParseError::UnknownCell));
    assert_eq!(parse_input("#.\n\n^."), Err(ParseError::RaggedRows));
}

#[test]
fn first_marker_wins() {
    let map = grid(&["..", ".>", "^."]);
    assert_eq!(find_start_move(&map), Ok(((1, 1), (0, 1))));
}
