use vstd::prelude::*;

use crate::text::{lemma_lines_size, lines_of, split_lines, total_len};
use vstd::set_lib::set_int_range;

verus! {

broadcast use vstd::std_specs::hash::group_hash_axioms;

/// A cell as (row, column).
pub type Position = (i32, i32);

/// A unit step as (row delta, column delta).
pub type Direction = (i32, i32);

/// Where the guard stands and where it faces.
pub type Guard = (Position, Direction);

/// Why a text does not describe a patrol map.
#[derive(Debug, Clone, Copy, PartialEq, Eq, Structural)]
pub enum ParseError {
    RaggedRows,
    UnknownCell,
    MissingStart,
}

/// The map as rows of characters.
pub open spec fn grid_of(map: &Vec<Vec<char>>) -> Seq<Seq<char>> {
    map@.map_values(|r: Vec<char>| r@)
}

pub open spec fn n_cols(g: Seq<Seq<char>>) -> int {
    if g.len() > 0 {
        g[0].len() as int
    } else {
        0
    }
}

/// A rectangular, non-empty map whose coordinates fit the position type.
pub open spec fn well_formed(g: Seq<Seq<char>>) -> bool {
    0 < g.len() && rectangular(g)
}

/// A map, possibly empty, whose rows all have one length and whose
/// coordinates fit the position type.
pub open spec fn rectangular(g: Seq<Seq<char>>) -> bool {
    &&& g.len() <= i32::MAX
    &&& n_cols(g) <= i32::MAX
    &&& forall|i: int| 0 <= i < g.len() ==> #[trigger] g[i].len() == n_cols(g)
}

pub open spec fn is_unit(d: Direction) -> bool {
    d == (-1i32, 0i32) || d == (0i32, 1i32) || d == (1i32, 0i32) || d == (0i32, -1i32)
}

pub open spec fn inside(g: Seq<Seq<char>>, p: Position) -> bool {
    0 <= p.0 < g.len() && 0 <= p.1 < n_cols(g)
}

pub open spec fn blocked(g: Seq<Seq<char>>, p: Position) -> bool {
    g[p.0 as int][p.1 as int] == '#'
}

pub open spec fn next_pos(s: Guard) -> Position {
    ((s.0.0 + s.1.0) as i32, (s.0.1 + s.1.1) as i32)
}

/// A quarter turn clockwise.
pub open spec fn turn(d: Direction) -> Direction {
    (d.1, (-d.0) as i32)
}

/// One move of the guard: turn in place before a wall, else step forward.
pub open spec fn step(g: Seq<Seq<char>>, s: Guard) -> Guard {
    let np = next_pos(s);
    if inside(g, np) && blocked(g, np) {
        (s.0, turn(s.1))
    } else {
        (np, s.1)
    }
}

/// The guard's state after `k` moves from `s`.
pub open spec fn state_at(g: Seq<Seq<char>>, s: Guard, k: nat) -> Guard
    decreases k,
{
    if k == 0 {
        s
    } else {
        step(g, state_at(g, s, (k - 1) as nat))
    }
}

/// The first `n` states are inside and pairwise distinct, and the next one
/// has left the map or repeats one of them.
pub open spec fn is_run(g: Seq<Seq<char>>, s: Guard, n: nat) -> bool {
    &&& forall|i: nat| i < n ==> inside(g, #[trigger] state_at(g, s, i).0)
    &&& forall|i: nat, j: nat| i < j < n ==> #[trigger] state_at(g, s, i) != #[trigger] state_at(g, s, j)
    &&& !inside(g, state_at(g, s, n).0) || exists|i: nat| i < n && #[trigger] state_at(g, s, i) == state_at(g, s, n)
}

/// How many states a patrol from `s` records.
pub open spec fn run_length(g: Seq<Seq<char>>, s: Guard) -> nat {
    choose|n: nat| is_run(g, s, n)
}

/// The states a patrol from `s` records, in order.
pub open spec fn patrol(g: Seq<Seq<char>>, s: Guard) -> Seq<Guard> {
    Seq::new(run_length(g, s), |i: int| state_at(g, s, i as nat))
}

/// A patrol from `s` ends by repeating a state rather than by leaving the map.
pub open spec fn loops(g: Seq<Seq<char>>, s: Guard) -> bool {
    inside(g, state_at(g, s, run_length(g, s)).0)
}

/// A run, where one exists, has one length: a patrol is fully determined by
/// the map and the start state.
pub proof fn lemma_run_unique(g: Seq<Seq<char>>, s: Guard, n1: nat, n2: nat)
    requires
        is_run(g, s, n1),
        is_run(g, s, n2),
    ensures
        n1 == n2,
{
    if n1 < n2 {
        assert(inside(g, state_at(g, s, n1).0));
        if exists|i: nat| i < n1 && #[trigger] state_at(g, s, i) == state_at(g, s, n1) {
            let i = choose|i: nat| i < n1 && #[trigger] state_at(g, s, i) == state_at(g, s, n1);
            assert(state_at(g, s, i) != state_at(g, s, n1));
        }
    } else if n2 < n1 {
        assert(inside(g, state_at(g, s, n2).0));
        if exists|i: nat| i < n2 && #[trigger] state_at(g, s, i) == state_at(g, s, n2) {
            let i = choose|i: nat| i < n2 && #[trigger] state_at(g, s, i) == state_at(g, s, n2);
            assert(state_at(g, s, i) != state_at(g, s, n2));
        }
    }
}

proof fn lemma_run_length(g: Seq<Seq<char>>, s: Guard, n: nat)
    requires
        is_run(g, s, n),
    ensures
        run_length(g, s) == n,
{
    lemma_run_unique(g, s, n, run_length(g, s));
}

proof fn lemma_unit_kept(g: Seq<Seq<char>>, s: Guard, k: nat)
    requires
        is_unit(s.1),
    ensures
        is_unit(state_at(g, s, k).1),
    decreases k,
{
    if k > 0 {
        lemma_unit_kept(g, s, (k - 1) as nat);
    }
}

pub fn to_i32(size: usize) -> (r: i32)
    requires
        size <= i32::MAX,
    ensures
        r == size,
{
    size as i32
}

pub fn is_inside(map: &Vec<Vec<char>>, pos: &Position) -> (r: bool)
    requires
        rectangular(grid_of(map)),
    ensures
        r == inside(grid_of(map), *pos),
{
    pos.0 >= 0 && pos.0 < to_i32(map.len()) && pos.1 >= 0 && pos.1 < to_i32(map[0].len())
}

pub fn is_blocked(map: &Vec<Vec<char>>, pos: &Position) -> (r: bool)
    requires
        well_formed(grid_of(map)),
        inside(grid_of(map), *pos),
    ensures
        r == blocked(grid_of(map), *pos),
{
    assert(grid_of(map)[pos.0 as int] == map@[pos.0 as int]@);
    map[pos.0 as usize][pos.1 as usize] == '#'
}

pub fn next_position(state: &Guard) -> (r: Position)
    requires
        is_unit(state.1),
        i32::MIN < state.0.0 < i32::MAX,
        i32::MIN < state.0.1 < i32::MAX,
    ensures
        r == next_pos(*state),
{
    (state.0.0 + state.1.0, state.0.1 + state.1.1)
}

pub fn turn_right(dir: &Direction) -> (r: Direction)
    requires
        dir.0 != i32::MIN,
    ensures
        r == turn(*dir),
        is_unit(*dir) ==> is_unit(r),
{
    (dir.1, -dir.0)
}

pub fn advance_guard(map: &Vec<Vec<char>>, state: &Guard) -> (r: Guard)
    requires
        well_formed(grid_of(map)),
        is_unit(state.1),
        i32::MIN < state.0.0 < i32::MAX,
        i32::MIN < state.0.1 < i32::MAX,
    ensures
        r == step(grid_of(map), *state),
        is_unit(r.1),
{
    let next_pos = next_position(state);
    if is_inside(map, &next_pos) && is_blocked(map, &next_pos) {
        (state.0, turn_right(&state.1))
    } else {
        (next_pos, state.1)
    }
}


pub open spec fn dir_index(d: Direction) -> int {
    if d == (-1i32, 0i32) {
        0
    } else if d == (0i32, 1i32) {
        1
    } else if d == (1i32, 0i32) {
        2
    } else {
        3
    }
}

/// A number for each state inside the map, below rows * columns * 4.
pub open spec fn state_key(g: Seq<Seq<char>>, s: Guard) -> int {
    (s.0.0 * n_cols(g) + s.0.1) * 4 + dir_index(s.1)
}

pub open spec fn valid_state(g: Seq<Seq<char>>, s: Guard) -> bool {
    inside(g, s.0) && is_unit(s.1)
}

proof fn lemma_key_bound(g: Seq<Seq<char>>, a: Guard)
    requires
        well_formed(g),
        valid_state(g, a),
    ensures
        0 <= state_key(g, a) < g.len() * n_cols(g) * 4,
{
    let c = n_cols(g);
    let x = a.0.0 as int;
    let y = a.0.1 as int;
    let r = g.len() as int;
    assert(0 <= x * c + y < r * c) by (nonlinear_arith)
        requires
            0 <= x < r,
            0 <= y < c,
    ;
}

proof fn lemma_key_injective(g: Seq<Seq<char>>, a: Guard, b: Guard)
    requires
        well_formed(g),
        valid_state(g, a),
        valid_state(g, b),
        state_key(g, a) == state_key(g, b),
    ensures
        a == b,
{
    let c = n_cols(g);
    lemma_key_bound(g, a);
    lemma_key_bound(g, b);
    let ca = a.0.0 * c + a.0.1;
    let cb = b.0.0 * c + b.0.1;
    vstd::arithmetic::div_mod::lemma_fundamental_div_mod_converse(
        state_key(g, a),
        4,
        ca,
        dir_index(a.1),
    );
    vstd::arithmetic::div_mod::lemma_fundamental_div_mod_converse(
        state_key(g, b),
        4,
        cb,
        dir_index(b.1),
    );
    vstd::arithmetic::div_mod::lemma_fundamental_div_mod_converse(ca, c, a.0.0 as int, a.0.1 as int);
    vstd::arithmetic::div_mod::lemma_fundamental_div_mod_converse(cb, c, b.0.0 as int, b.0.1 as int);
}

fn key_of(map: &Vec<Vec<char>>, s: &Guard) -> (r: u64)
    requires
        well_formed(grid_of(map)),
        valid_state(grid_of(map), *s),
    ensures
        r == state_key(grid_of(map), *s),
{
    proof {
        lemma_key_bound(grid_of(map), *s);
        let c = n_cols(grid_of(map));
        let x = s.0.0 as int;
        let r = map@.len() as int;
        assert(x * c <= r * c) by (nonlinear_arith)
            requires
                0 <= x < r,
                0 <= c,
        ;
        assert(r * c <= 0x7fff_ffff * 0x7fff_ffff) by (nonlinear_arith)
            requires
                0 <= r <= 0x7fff_ffff,
                0 <= c <= 0x7fff_ffff,
        ;
    }
    let c = map[0].len() as u64;
    let d: u64 = if s.1.0 == -1 {
        0
    } else if s.1.1 == 1 {
        1
    } else if s.1.0 == 1 {
        2
    } else {
        3
    };
    (s.0.0 as u64 * c + s.0.1 as u64) * 4 + d
}

/// Walks the guard from `start_state` and records each state it holds inside
/// the map, stopping when the guard leaves the map or repeats a state.
pub fn generate_moves(map: &Vec<Vec<char>>, start_state: &Guard) -> (r: Vec<Guard>)
    requires
        well_formed(grid_of(map)),
        is_unit(start_state.1),
    ensures
        is_run(grid_of(map), *start_state, r@.len()),
        r@ == patrol(grid_of(map), *start_state),
        r@.len() <= grid_of(map).len() * n_cols(grid_of(map)) * 4,
{
    let ghost g = grid_of(map);
    let ghost s0 = *start_state;
    let ghost bound = g.len() * n_cols(g) * 4;
    let mut moves: std::collections::HashSet<u64> = std::collections::HashSet::new();
    let mut result: Vec<Guard> = Vec::new();
    let mut curr_move = *start_state;
    let ghost mut keys: Set<int> = Set::empty();
    proof {
        vstd::set_lib::lemma_int_range(0, bound);
    }
    loop
        invariant
            g == grid_of(map),
            s0 == *start_state,
            well_formed(g),
            is_unit(s0.1),
            bound == g.len() * n_cols(g) * 4,
            set_int_range(0, bound).finite(),
            set_int_range(0, bound).len() == bound,
            curr_move == state_at(g, s0, result@.len()),
            forall|i: int| 0 <= i < result@.len() ==> #[trigger] result@[i] == state_at(g, s0, i as nat),
            forall|i: nat| i < result@.len() ==> inside(g, #[trigger] state_at(g, s0, i).0),
            forall|i: nat, j: nat| i < j < result@.len() ==> #[trigger] state_at(g, s0, i) != #[trigger] state_at(g, s0, j),
            keys.finite(),
            keys.len() == result@.len(),
            keys.subset_of(set_int_range(0, bound)),
            forall|u: u64| moves@.contains(u) <==> keys.contains(u as int),
            forall|k: int| keys.contains(k) ==> exists|i: nat| i < result@.len() && #[trigger] state_key(g, state_at(g, s0, i)) == k,
            forall|i: nat| i < result@.len() ==> keys.contains(#[trigger] state_key(g, state_at(g, s0, i))),
        ensures
            is_run(g, s0, result@.len()),
            forall|i: int| 0 <= i < result@.len() ==> #[trigger] result@[i] == state_at(g, s0, i as nat),
            result@.len() <= bound,
        decreases bound - result@.len(),
    {
        proof {
            lemma_unit_kept(g, s0, result@.len());
            vstd::set_lib::lemma_len_subset(keys, set_int_range(0, bound));
        }
        if !is_inside(map, &curr_move.0) {
            break;
        }
        let k = key_of(map, &curr_move);
        proof {
            lemma_key_bound(g, curr_move);
        }
        let ghost before = moves@;
        if !moves.insert(k) {
            proof {
                assert(before.contains(k));
                assert(keys.contains(k as int));
                let i = choose|i: nat| i < result@.len() && #[trigger] state_key(g, state_at(g, s0, i)) == k as int;
                lemma_unit_kept(g, s0, i);
                lemma_key_injective(g, state_at(g, s0, i), curr_move);
            }
            break;
        }
        proof {
            assert forall|i: nat| i < result@.len() implies #[trigger] state_at(g, s0, i) != curr_move by {
                assert(keys.contains(state_key(g, state_at(g, s0, i))));
            }
            assert(!before.contains(k));
            keys = keys.insert(k as int);
            vstd::set_lib::lemma_len_subset(keys, set_int_range(0, bound));
        }
        result.push(curr_move);
        curr_move = advance_guard(map, &curr_move);
    }
    proof {
        lemma_run_length(g, s0, result@.len());
        assert(result@ =~= patrol(g, s0));
    }
    result
}


/// A prefix of pairwise distinct states inside the map is no longer than the
/// number of states there are.
proof fn lemma_distinct_prefix_bound(g: Seq<Seq<char>>, s: Guard, k: nat)
    requires
        well_formed(g),
        is_unit(s.1),
        forall|i: nat| i < k ==> inside(g, #[trigger] state_at(g, s, i).0),
        forall|i: nat, j: nat| i < j < k ==> #[trigger] state_at(g, s, i) != #[trigger] state_at(g, s, j),
    ensures
        k <= g.len() * n_cols(g) * 4,
{
    let bound = g.len() * n_cols(g) * 4;
    let keys = Seq::new(k, |i: int| state_key(g, state_at(g, s, i as nat)));
    assert forall|a: int, b: int| 0 <= a < keys.len() && 0 <= b < keys.len() && a != b implies keys[a]
        != keys[b] by {
        lemma_unit_kept(g, s, a as nat);
        lemma_unit_kept(g, s, b as nat);
        if keys[a] == keys[b] {
            lemma_key_injective(g, state_at(g, s, a as nat), state_at(g, s, b as nat));
            if a < b {
                assert(state_at(g, s, a as nat) != state_at(g, s, b as nat));
            } else {
                assert(state_at(g, s, b as nat) != state_at(g, s, a as nat));
            }
        }
    }
    keys.unique_seq_to_set();
    assert forall|x: int| keys.to_set().contains(x) implies set_int_range(0, bound).contains(x) by {
        let i = choose|i: int| 0 <= i < keys.len() && keys[i] == x;
        lemma_unit_kept(g, s, i as nat);
        lemma_key_bound(g, state_at(g, s, i as nat));
    }
    vstd::set_lib::lemma_int_range(0, bound);
    vstd::set_lib::lemma_len_subset(keys.to_set(), set_int_range(0, bound));
}

proof fn lemma_run_from(g: Seq<Seq<char>>, s: Guard, k: nat)
    requires
        well_formed(g),
        is_unit(s.1),
        forall|i: nat| i < k ==> inside(g, #[trigger] state_at(g, s, i).0),
        forall|i: nat, j: nat| i < j < k ==> #[trigger] state_at(g, s, i) != #[trigger] state_at(g, s, j),
    ensures
        exists|n: nat| k <= n && #[trigger] is_run(g, s, n),
    decreases g.len() * n_cols(g) * 4 - k,
{
    lemma_distinct_prefix_bound(g, s, k);
    if is_run(g, s, k) {
    } else {
        assert forall|i: nat| i < k + 1 implies inside(g, #[trigger] state_at(g, s, i).0) by {}
        assert forall|i: nat, j: nat| i < j < k + 1 implies #[trigger] state_at(g, s, i)
            != #[trigger] state_at(g, s, j) by {
            if j == k && state_at(g, s, i) == state_at(g, s, j) {
                assert(i < k && state_at(g, s, i) == state_at(g, s, k));
            }
        }
        lemma_distinct_prefix_bound(g, s, k + 1);
        lemma_run_from(g, s, k + 1);
    }
}

/// Every patrol on a well-formed map ends, leaving the map or repeating a
/// state, after recording at most rows * columns * 4 states.
pub proof fn lemma_patrol_bounded(g: Seq<Seq<char>>, s: Guard)
    requires
        well_formed(g),
        is_unit(s.1),
    ensures
        is_run(g, s, run_length(g, s)),
        run_length(g, s) <= g.len() * n_cols(g) * 4,
        patrol(g, s).len() == run_length(g, s),
{
    lemma_run_from(g, s, 0);
    let n = choose|n: nat| 0 <= n && #[trigger] is_run(g, s, n);
    lemma_run_length(g, s, n);
    lemma_distinct_prefix_bound(g, s, n);
}

/// How a patrol ends.
#[derive(Debug, Clone, Copy, PartialEq, Eq, Structural)]
pub enum Outcome {
    /// The next step leaves the map.
    Exited,
    /// The next state repeats a recorded one.
    Looping,
}

/// Walks the guard from `start`: the states recorded, in order, and how the
/// patrol ends.
pub fn run(map: &Vec<Vec<char>>, start: &Guard) -> (r: (Vec<Guard>, Outcome))
    requires
        well_formed(grid_of(map)),
        is_unit(start.1),
    ensures
        r.0@ == patrol(grid_of(map), *start),
        r.1 == (if loops(grid_of(map), *start) {
            Outcome::Looping
        } else {
            Outcome::Exited
        }),
{
    let moves = generate_moves(map, start);
    let next = if moves.len() == 0 {
        *start
    } else {
        let last = moves[moves.len() - 1];
        proof {
            lemma_unit_kept(grid_of(map), *start, (moves@.len() - 1) as nat);
            assert(last == state_at(grid_of(map), *start, (moves@.len() - 1) as nat));
        }
        advance_guard(map, &last)
    };
    let outcome = if is_inside(map, &next.0) {
        Outcome::Looping
    } else {
        Outcome::Exited
    };
    (moves, outcome)
}

/// Whether a patrol from `start` ends in a cycle rather than leaving the map.
pub fn detect_loop(map: &Vec<Vec<char>>, start: &Guard) -> (r: bool)
    requires
        well_formed(grid_of(map)),
        is_unit(start.1),
    ensures
        r == loops(grid_of(map), *start),
{
    let (_, outcome) = run(map, start);
    match outcome {
        Outcome::Looping => true,
        Outcome::Exited => false,
    }
}

/// The cells that the states of `s` stand on.
pub open spec fn positions(s: Seq<Guard>) -> Set<Position> {
    s.map_values(|m: Guard| m.0).to_set()
}

/// A number for each position, one to one.
pub open spec fn pos_key(p: Position) -> int {
    p.0 * 0x1_0000_0000 + (p.1 + 0x8000_0000)
}

proof fn lemma_pos_key_injective(a: Position, b: Position)
    requires
        pos_key(a) == pos_key(b),
    ensures
        a == b,
{
    vstd::arithmetic::div_mod::lemma_fundamental_div_mod_converse(
        pos_key(a),
        0x1_0000_0000,
        a.0 as int,
        a.1 + 0x8000_0000,
    );
    vstd::arithmetic::div_mod::lemma_fundamental_div_mod_converse(
        pos_key(b),
        0x1_0000_0000,
        b.0 as int,
        b.1 + 0x8000_0000,
    );
}

fn key_of_pos(p: &Position) -> (r: i64)
    ensures
        r == pos_key(*p),
{
    p.0 as i64 * 0x1_0000_0000i64 + (p.1 as i64 + 0x8000_0000i64)
}

pub open spec fn pos_key_i64(p: Position) -> i64 {
    pos_key(p) as i64
}

/// The number of distinct cells that the guard stood on.
pub fn count_unique_pos(moves: Vec<Guard>) -> (r: u32)
    requires
        moves@.len() <= u32::MAX,
    ensures
        r == positions(moves@).len(),
{
    let mut seen: std::collections::HashSet<i64> = std::collections::HashSet::new();
    let mut count: u32 = 0;
    let mut i: usize = 0;
    let ghost mut ps: Set<Position> = Set::empty();
    while i < moves.len()
        invariant
            i <= moves@.len() <= u32::MAX,
            ps == moves@.take(i as int).map_values(|m: Guard| m.0).to_set(),
            ps.finite(),
            count == ps.len(),
            count <= i,
            seen@ == ps.map(|p: Position| pos_key_i64(p)),
        decreases moves@.len() - i,
    {
        let p = moves[i].0;
        let k = key_of_pos(&p);
        let ghost before = seen@;
        let fresh = seen.insert(k);
        proof {
            assert(moves@.take(i + 1).map_values(|m: Guard| m.0) =~= moves@.take(i as int).map_values(
                |m: Guard| m.0,
            ).push(p));
            moves@.take(i as int).map_values(|m: Guard| m.0).lemma_push_to_set_commute(p);
            ps.lemma_set_map_insert_commute(p, |p: Position| pos_key_i64(p));
            if fresh {
                if ps.contains(p) {
                    assert(before.contains(pos_key_i64(p)));
                }
            } else {
                let q = choose|q: Position| ps.contains(q) && pos_key_i64(q) == k;
                lemma_pos_key_injective(q, p);
                assert(ps.insert(p) =~= ps);
            }
        }
        if fresh {
            count = count + 1;
        }
        proof {
            ps = ps.insert(p);
        }
        i = i + 1;
    }
    assert(moves@.take(i as int) =~= moves@);
    count
}

/// Counting the distinct cells of a path gives at most its length, and
/// exactly its length when no cell is stood on twice.
pub proof fn lemma_unique_positions_bound(path: Seq<Guard>)
    ensures
        positions(path).len() <= path.len(),
        positions(path).len() == path.len() <==> (forall|i: int, j: int|
            0 <= i < j < path.len() ==> #[trigger] path[i].0 != #[trigger] path[j].0),
{
    let ps = path.map_values(|m: Guard| m.0);
    ps.lemma_cardinality_of_set();
    if positions(path).len() == path.len() {
        ps.lemma_no_dup_set_cardinality();
        assert forall|i: int, j: int| 0 <= i < j < path.len() implies #[trigger] path[i].0
            != #[trigger] path[j].0 by {
            assert(ps[i] == path[i].0 && ps[j] == path[j].0);
        }
    }
    if forall|i: int, j: int| 0 <= i < j < path.len() ==> #[trigger] path[i].0 != #[trigger] path[j].0 {
        assert forall|i: int, j: int| 0 <= i < ps.len() && 0 <= j < ps.len() && i != j implies ps[i]
            != ps[j] by {
            if i < j {
                assert(path[i].0 != path[j].0);
            } else {
                assert(path[j].0 != path[i].0);
            }
        }
        ps.unique_seq_to_set();
    }
}


/// The map with a wall at `p`, or unchanged where `p` lies outside it.
pub open spec fn with_obstacle(g: Seq<Seq<char>>, p: Position) -> Seq<Seq<char>> {
    if inside(g, p) {
        g.update(p.0 as int, g[p.0 as int].update(p.1 as int, '#'))
    } else {
        g
    }
}

proof fn lemma_with_obstacle_well_formed(g: Seq<Seq<char>>, p: Position)
    requires
        rectangular(g),
    ensures
        rectangular(with_obstacle(g, p)),
        well_formed(g) ==> well_formed(with_obstacle(g, p)),
        with_obstacle(g, p).len() == g.len(),
        n_cols(with_obstacle(g, p)) == n_cols(g),
{
    let h = with_obstacle(g, p);
    assert forall|i: int| 0 <= i < h.len() implies #[trigger] h[i].len() == n_cols(g) by {
        assert(g[i].len() == n_cols(g));
    }
}

fn copy_row(row: &Vec<char>) -> (r: Vec<char>)
    ensures
        r@ == row@,
{
    let mut r: Vec<char> = Vec::new();
    let mut j: usize = 0;
    while j < row.len()
        invariant
            j <= row@.len(),
            r@ == row@.take(j as int),
        decreases row@.len() - j,
    {
        r.push(row[j]);
        j = j + 1;
        assert(r@ =~= row@.take(j as int));
    }
    assert(row@.take(j as int) =~= row@);
    r
}

/// A new map with a wall added at `obs_pos`; the given map is not changed.
pub fn make_map_add_obst(map: &Vec<Vec<char>>, obs_pos: Position) -> (r: Vec<Vec<char>>)
    requires
        rectangular(grid_of(map)),
    ensures
        grid_of(&r) == with_obstacle(grid_of(map), obs_pos),
        rectangular(grid_of(&r)),
        well_formed(grid_of(map)) ==> well_formed(grid_of(&r)),
{
    let hit = is_inside(map, &obs_pos);
    let ghost h = with_obstacle(grid_of(map), obs_pos);
    proof {
        lemma_with_obstacle_well_formed(grid_of(map), obs_pos);
    }
    let mut new_map: Vec<Vec<char>> = Vec::new();
    let mut i: usize = 0;
    while i < map.len()
        invariant
            hit == inside(grid_of(map), obs_pos),
            rectangular(grid_of(map)),
            h == with_obstacle(grid_of(map), obs_pos),
            h.len() == map@.len(),
            i <= map@.len(),
            new_map@.len() == i,
            forall|k: int| 0 <= k < i ==> #[trigger] new_map@[k]@ == h[k],
        decreases map@.len() - i,
    {
        let mut row = copy_row(&map[i]);
        if hit && i == obs_pos.0 as usize {
            assert(grid_of(map)[i as int] == map@[i as int]@);
            assert(grid_of(map)[i as int].len() == n_cols(grid_of(map)));
            row.set(obs_pos.1 as usize, '#');
        }
        new_map.push(row);
        i = i + 1;
    }
    assert(grid_of(&new_map) =~= h);
    new_map
}

/// The cells of a path where one wall might be added: each cell the path
/// stands on, once, but the start cell.
pub fn candidates(moves: &Vec<Guard>, start: &Guard) -> (r: Vec<Position>)
    ensures
        r@.no_duplicates(),
        r@.to_set() == positions(moves@).remove(start.0),
        !r@.contains(start.0),
{
    let mut seen: std::collections::HashSet<i64> = std::collections::HashSet::new();
    let mut result: Vec<Position> = Vec::new();
    let mut i: usize = 0;
    while i < moves.len()
        invariant
            i <= moves@.len(),
            result@.no_duplicates(),
            result@.to_set() == moves@.take(i as int).map_values(|m: Guard| m.0).to_set().remove(
                start.0,
            ),
            seen@ == result@.to_set().map(|p: Position| pos_key_i64(p)),
        decreases moves@.len() - i,
    {
        let p = moves[i].0;
        proof {
            assert(moves@.take(i + 1).map_values(|m: Guard| m.0) =~= moves@.take(i as int).map_values(
                |m: Guard| m.0,
            ).push(p));
            moves@.take(i as int).map_values(|m: Guard| m.0).lemma_push_to_set_commute(p);
        }
        if p.0 != start.0.0 || p.1 != start.0.1 {
            let k = key_of_pos(&p);
            let ghost before = seen@;
            let ghost rs = result@.to_set();
            if seen.insert(k) {
                proof {
                    if rs.contains(p) {
                        assert(before.contains(pos_key_i64(p)));
                    }
                    rs.lemma_set_map_insert_commute(p, |p: Position| pos_key_i64(p));
                    result@.lemma_push_to_set_commute(p);
                }
                result.push(p);
                proof {
                    assert forall|a: int, b: int| 0 <= a < b < result@.len() implies result@[a]
                        != result@[b] by {
                        if b == result@.len() - 1 {
                            assert(rs.contains(result@[a]));
                        }
                    }
                }
                assert(result@.to_set() =~= moves@.take(i + 1).map_values(|m: Guard| m.0).to_set().remove(
                    start.0,
                ));
            } else {
                proof {
                    let q = choose|q: Position| rs.contains(q) && pos_key_i64(q) == k;
                    lemma_pos_key_injective(q, p);
                    assert(seen@ =~= before);
                }
                assert(result@.to_set() =~= moves@.take(i + 1).map_values(|m: Guard| m.0).to_set().remove(
                    start.0,
                ));
            }
        } else {
            assert(result@.to_set() =~= moves@.take(i + 1).map_values(|m: Guard| m.0).to_set().remove(
                start.0,
            ));
        }
        i = i + 1;
    }
    assert(moves@.take(i as int) =~= moves@);
    assert(!result@.to_set().contains(start.0));
    result
}

/// The start cell is never offered as a place for a wall.
pub proof fn lemma_start_not_candidate(path: Seq<Guard>, start: Guard)
    ensures
        !positions(path).remove(start.0).contains(start.0),
{
}


/// A wall at `p` turns the patrol from `s` into a cycle.
pub open spec fn induces_loop(g: Seq<Seq<char>>, s: Guard, p: Position) -> bool {
    loops(with_obstacle(g, p), s)
}

/// How many of the cells `c` induce a cycle, counted with repetition.
pub open spec fn loop_count(g: Seq<Seq<char>>, s: Guard, c: Seq<Position>) -> nat
    decreases c.len(),
{
    if c.len() == 0 {
        0
    } else {
        loop_count(g, s, c.drop_last()) + if induces_loop(g, s, c.last()) {
            1nat
        } else {
            0nat
        }
    }
}

/// The cells where one added wall makes the patrol from `s` cycle.
pub open spec fn loop_inducing(g: Seq<Seq<char>>, s: Guard) -> Set<Position> {
    positions(patrol(g, s)).remove(s.0).filter(|p: Position| induces_loop(g, s, p))
}

/// Counts the cells of `cands` at which an added wall makes the patrol from
/// `start` cycle. Each cell is tried on its own copy of the map.
pub fn count_loop_inducing(map: &Vec<Vec<char>>, start: &Guard, cands: &Vec<Position>) -> (r: u32)
    requires
        well_formed(grid_of(map)),
        is_unit(start.1),
        cands@.len() <= u32::MAX,
    ensures
        r == loop_count(grid_of(map), *start, cands@),
{
    let mut count: u32 = 0;
    let mut i: usize = 0;
    while i < cands.len()
        invariant
            well_formed(grid_of(map)),
            is_unit(start.1),
            i <= cands@.len() <= u32::MAX,
            count == loop_count(grid_of(map), *start, cands@.take(i as int)),
            count <= i,
        decreases cands@.len() - i,
    {
        let modified = make_map_add_obst(map, cands[i]);
        let hit = detect_loop(&modified, start);
        assert(cands@.take(i + 1).drop_last() =~= cands@.take(i as int));
        if hit {
            count = count + 1;
        }
        i = i + 1;
    }
    assert(cands@.take(i as int) =~= cands@);
    count
}

proof fn lemma_loop_count_remove(g: Seq<Seq<char>>, s: Guard, c: Seq<Position>, j: int)
    requires
        0 <= j < c.len(),
    ensures
        loop_count(g, s, c) == loop_count(g, s, c.remove(j)) + if induces_loop(g, s, c[j]) {
            1nat
        } else {
            0nat
        },
    decreases c.len(),
{
    if j < c.len() - 1 {
        lemma_loop_count_remove(g, s, c.drop_last(), j);
        assert(c.remove(j).drop_last() =~= c.drop_last().remove(j));
        assert(c.remove(j).last() == c.last());
    } else {
        assert(c.remove(j) =~= c.drop_last());
    }
}

/// The count does not depend on the order in which the cells are tried.
pub proof fn lemma_loop_count_order(g: Seq<Seq<char>>, s: Guard, c1: Seq<Position>, c2: Seq<Position>)
    requires
        c1.to_multiset() == c2.to_multiset(),
    ensures
        loop_count(g, s, c1) == loop_count(g, s, c2),
    decreases c1.len(),
{
    broadcast use vstd::seq_lib::group_to_multiset_ensures;

    if c1.len() == 0 {
        assert(c2.to_multiset().len() == 0);
    } else {
        let x = c1.last();
        assert(c1 =~= c1.drop_last().push(x));
        assert(c1.to_multiset().contains(x));
        assert(c2.contains(x));
        let j = choose|j: int| 0 <= j < c2.len() && c2[j] == x;
        lemma_loop_count_remove(g, s, c2, j);
        assert(c2.remove(j).to_multiset() == c2.to_multiset().remove(x));
        assert(c1.drop_last().to_multiset() =~= c1.to_multiset().remove(x));
        lemma_loop_count_order(g, s, c1.drop_last(), c2.remove(j));
    }
}

/// Over cells without repetition, the count is the size of the set of cells
/// that induce a cycle.
pub proof fn lemma_loop_count_set(g: Seq<Seq<char>>, s: Guard, c: Seq<Position>)
    requires
        c.no_duplicates(),
    ensures
        loop_count(g, s, c) == c.to_set().filter(|p: Position| induces_loop(g, s, p)).len(),
    decreases c.len(),
{
    let f = |p: Position| induces_loop(g, s, p);
    if c.len() == 0 {
        assert(c.to_set().filter(f) =~= Set::empty());
    } else {
        let d = c.drop_last();
        lemma_loop_count_set(g, s, d);
        assert(c =~= d.push(c.last()));
        d.lemma_push_to_set_commute(c.last());
        assert(!d.contains(c.last()));
        vstd::seq_lib::seq_to_set_is_finite(d);
        if f(c.last()) {
            assert(c.to_set().filter(f) =~= d.to_set().filter(f).insert(c.last()));
        } else {
            assert(c.to_set().filter(f) =~= d.to_set().filter(f));
        }
    }
}

/// A guard whose first step leaves the map records one state and exits.
pub proof fn lemma_immediate_exit(g: Seq<Seq<char>>, s: Guard)
    requires
        well_formed(g),
        inside(g, s.0),
        is_unit(s.1),
        !inside(g, next_pos(s)),
    ensures
        run_length(g, s) == 1,
        patrol(g, s) == seq![s],
        !loops(g, s),
{
    assert(state_at(g, s, 1) == step(g, state_at(g, s, 0)));
    assert(is_run(g, s, 1));
    lemma_run_length(g, s, 1);
    assert(patrol(g, s) =~= seq![s]);
}

/// Where the patrol stands on no cell but the start, no wall induces a cycle.
pub proof fn lemma_no_candidates(g: Seq<Seq<char>>, s: Guard)
    requires
        positions(patrol(g, s)).remove(s.0) == Set::<Position>::empty(),
    ensures
        loop_inducing(g, s).len() == 0,
{
    assert(loop_inducing(g, s) =~= Set::<Position>::empty());
}


/// A cell that holds the guard: anything but a wall or open floor.
pub open spec fn is_start_cell(c: char) -> bool {
    c != '#' && c != '.'
}

pub open spec fn is_cell_char(c: char) -> bool {
    c == '#' || c == '.' || c == '^' || c == '>' || c == 'v' || c == '<'
}

/// The facing a guard marker gives; no step for any other character.
pub open spec fn dir_of(c: char) -> Direction {
    if c == '>' {
        (0i32, 1i32)
    } else if c == 'v' {
        (1i32, 0i32)
    } else if c == '<' {
        (0i32, -1i32)
    } else if c == '^' {
        (-1i32, 0i32)
    } else {
        (0i32, 0i32)
    }
}

/// The first column from `y` on whose cell holds the guard.
pub open spec fn find_in_row(row: Seq<char>, y: int) -> Option<int>
    decreases row.len() - y,
{
    if y < 0 || y >= row.len() {
        None
    } else if is_start_cell(row[y]) {
        Some(y)
    } else {
        find_in_row(row, y + 1)
    }
}

/// The first cell, from row `x` on in row-major order, that holds the guard,
/// with the facing it gives.
pub open spec fn find_in_rows(g: Seq<Seq<char>>, x: int) -> Option<Guard>
    decreases g.len() - x,
{
    if x < 0 || x >= g.len() {
        None
    } else {
        match find_in_row(g[x], 0) {
            Some(y) => Some(((x as i32, y as i32), dir_of(g[x][y]))),
            None => find_in_rows(g, x + 1),
        }
    }
}

pub open spec fn start_of(g: Seq<Seq<char>>) -> Option<Guard> {
    find_in_rows(g, 0)
}

proof fn lemma_find_in_row(row: Seq<char>, y: int)
    requires
        0 <= y,
    ensures
        find_in_row(row, y) matches Some(k) ==> y <= k < row.len() && is_start_cell(row[k]),
    decreases row.len() - y,
{
    if y < row.len() && !is_start_cell(row[y]) {
        lemma_find_in_row(row, y + 1);
    }
}

proof fn lemma_find_in_rows(g: Seq<Seq<char>>, x: int)
    requires
        0 <= x,
        g.len() <= i32::MAX,
        forall|i: int| 0 <= i < g.len() ==> #[trigger] g[i].len() <= i32::MAX,
    ensures
        find_in_rows(g, x) matches Some(s) ==> {
            &&& x <= s.0.0 < g.len()
            &&& 0 <= s.0.1 < g[s.0.0 as int].len()
            &&& is_start_cell(g[s.0.0 as int][s.0.1 as int])
            &&& s.1 == dir_of(g[s.0.0 as int][s.0.1 as int])
        },
    decreases g.len() - x,
{
    if 0 <= x < g.len() {
        lemma_find_in_row(g[x], 0);
        if find_in_row(g[x], 0) is None {
            lemma_find_in_rows(g, x + 1);
        }
    }
}

pub fn parse_direction(direction: &char) -> (r: Direction)
    ensures
        r == dir_of(*direction),
{
    match direction {
        '>' => (0, 1),
        'v' => (1, 0),
        '<' => (0, -1),
        '^' => (-1, 0),
        _ => (0, 0),
    }
}

/// The guard's start: the first cell in row-major order that is neither a
/// wall nor open floor.
pub fn find_start_move(map: &Vec<Vec<char>>) -> (r: Result<Guard, ParseError>)
    requires
        map@.len() <= i32::MAX,
        forall|i: int| 0 <= i < map@.len() ==> #[trigger] map@[i]@.len() <= i32::MAX,
    ensures
        r == match start_of(grid_of(map)) {
            Some(s) => Ok(s),
            None => Err(ParseError::MissingStart),
        },
{
    let ghost g = grid_of(map);
    let mut x: usize = 0;
    while x < map.len()
        invariant
            g == grid_of(map),
            x <= map@.len() <= i32::MAX,
            forall|i: int| 0 <= i < map@.len() ==> #[trigger] map@[i]@.len() <= i32::MAX,
            start_of(g) == find_in_rows(g, x as int),
        decreases map@.len() - x,
    {
        let row = &map[x];
        assert(g[x as int] == row@);
        let mut y: usize = 0;
        while y < row.len()
            invariant
                g == grid_of(map),
                x < map@.len() <= i32::MAX,
                row@ == g[x as int],
                row@.len() <= i32::MAX,
                y <= row@.len(),
                find_in_row(g[x as int], 0) == find_in_row(g[x as int], y as int),
                start_of(g) == find_in_rows(g, x as int),
            decreases row@.len() - y,
        {
            let cell = row[y];
            if cell != '#' && cell != '.' {
                assert(find_in_row(g[x as int], y as int) == Some(y as int));
                assert(g[x as int][y as int] == cell);
                assert(find_in_rows(g, x as int) == Some(((x as i32, y as i32), dir_of(cell))));
                let pos = (to_i32(x), to_i32(y));
                let dir = parse_direction(&cell);
                return Ok((pos, dir));
            }
            y = y + 1;
        }
        assert(find_in_row(g[x as int], y as int) is None);
        x = x + 1;
    }
    Err(ParseError::MissingStart)
}

/// Rows of unequal length.
pub open spec fn is_ragged(ls: Seq<Seq<char>>) -> bool {
    exists|i: int| 0 <= i < ls.len() && #[trigger] ls[i].len() != ls[0].len()
}

/// A character that is no wall, floor or guard marker.
pub open spec fn has_unknown(ls: Seq<Seq<char>>) -> bool {
    exists|i: int, j: int| 0 <= i < ls.len() && 0 <= j < ls[i].len() && !is_cell_char(#[trigger] ls[i][j])
}

/// The map the lines describe, or why they describe none.
pub open spec fn parse_grid(ls: Seq<Seq<char>>) -> Result<Seq<Seq<char>>, ParseError> {
    if is_ragged(ls) {
        Err(ParseError::RaggedRows)
    } else if has_unknown(ls) {
        Err(ParseError::UnknownCell)
    } else {
        Ok(ls)
    }
}

/// Reads the map: one row per line.
pub fn parse_input(input: &str) -> (r: Result<Vec<Vec<char>>, ParseError>)
    ensures
        r is Ok ==> parse_grid(lines_of(input@)) == Ok::<Seq<Seq<char>>, ParseError>(
            grid_of(&r->Ok_0),
        ),
        r is Err ==> parse_grid(lines_of(input@)) == Err::<Seq<Seq<char>>, ParseError>(r->Err_0),
{
    let lines = split_lines(input);
    let ghost ls = lines_of(input@);
    assert(grid_of(&lines) =~= ls);
    let mut i: usize = 0;
    while i < lines.len()
        invariant
            grid_of(&lines) == ls,
            ls == lines_of(input@),
            i <= lines@.len(),
            forall|k: int| 0 <= k < i ==> #[trigger] ls[k].len() == ls[0].len(),
        decreases lines@.len() - i,
    {
        assert(ls[i as int] == lines@[i as int]@ && ls[0] == lines@[0]@);
        if lines[i].len() != lines[0].len() {
            assert(ls[i as int].len() != ls[0].len());
            assert(is_ragged(ls));
            return Err(ParseError::RaggedRows);
        }
        i = i + 1;
    }
    let mut i: usize = 0;
    while i < lines.len()
        invariant
            grid_of(&lines) == ls,
            ls == lines_of(input@),
            !is_ragged(ls),
            i <= lines@.len(),
            forall|k: int, j: int| 0 <= k < i && 0 <= j < ls[k].len() ==> is_cell_char(#[trigger] ls[k][j]),
        decreases lines@.len() - i,
    {
        let row = &lines[i];
        assert(ls[i as int] == row@);
        let mut j: usize = 0;
        while j < row.len()
            invariant
                grid_of(&lines) == ls,
                ls == lines_of(input@),
                !is_ragged(ls),
                i < lines@.len(),
                row@ == ls[i as int],
                j <= row@.len(),
                forall|k: int, j2: int| 0 <= k < i && 0 <= j2 < ls[k].len() ==> is_cell_char(#[trigger] ls[k][j2]),
                forall|j2: int| 0 <= j2 < j ==> is_cell_char(#[trigger] ls[i as int][j2]),
            decreases row@.len() - j,
        {
            let c = row[j];
            if !(c == '#' || c == '.' || c == '^' || c == '>' || c == 'v' || c == '<') {
                assert(!is_cell_char(ls[i as int][j as int]));
                assert(has_unknown(ls));
                return Err(ParseError::UnknownCell);
            }
            j = j + 1;
        }
        i = i + 1;
    }
    Ok(lines)
}


proof fn lemma_rect_total(g: Seq<Seq<char>>, c: int)
    requires
        forall|i: int| 0 <= i < g.len() ==> #[trigger] g[i].len() == c,
    ensures
        total_len(g) == g.len() * c,
    decreases g.len(),
{
    if g.len() > 0 {
        lemma_rect_total(g.drop_last(), c);
        assert(total_len(g) == total_len(g.drop_last()) + c);
        assert((g.len() - 1) * c + c == g.len() * c) by (nonlinear_arith);
    }
}

/// A parsed map with a start: it is well formed, the start stands inside it
/// facing a unit step, and a patrol records at most 2^32 - 1 states.
proof fn lemma_parsed_map(s: Seq<char>, g: Seq<Seq<char>>, st: Guard)
    requires
        s.len() <= 0x3fff_ffff,
        parse_grid(lines_of(s)) == Ok::<Seq<Seq<char>>, ParseError>(g),
        start_of(g) == Some(st),
    ensures
        well_formed(g),
        valid_state(g, st),
        g.len() * n_cols(g) * 4 <= u32::MAX,
{
    lemma_lines_size(s);
    lemma_find_in_rows(g, 0);
    assert(g.len() > 0);
    assert(!is_ragged(g));
    assert forall|i: int| 0 <= i < g.len() implies #[trigger] g[i].len() == g[0].len() by {
        if g[i].len() != g[0].len() {
            assert(is_ragged(g));
        }
    }
    lemma_rect_total(g, g[0].len() as int);
    let c = g[st.0.0 as int][st.0.1 as int];
    assert(is_cell_char(c)) by {
        if !is_cell_char(c) {
            assert(has_unknown(g));
        }
    }
}

/// The number of distinct cells the guard visits, or why the text holds no map.
pub open spec fn visited_count(s: Seq<char>) -> Result<int, ParseError> {
    match parse_grid(lines_of(s)) {
        Err(e) => Err(e),
        Ok(g) => match start_of(g) {
            None => Err(ParseError::MissingStart),
            Some(st) => Ok(positions(patrol(g, st)).len() as int),
        },
    }
}

/// The number of cells where one added wall traps the guard in a cycle, or
/// why the text holds no map.
pub open spec fn trap_count(s: Seq<char>) -> Result<int, ParseError> {
    match parse_grid(lines_of(s)) {
        Err(e) => Err(e),
        Ok(g) => match start_of(g) {
            None => Err(ParseError::MissingStart),
            Some(st) => Ok(loop_inducing(g, st).len() as int),
        },
    }
}

pub fn part_one(input: &str) -> (r: Result<u32, ParseError>)
    requires
        input@.len() <= 0x3fff_ffff,
    ensures
        r is Ok ==> visited_count(input@) == Ok::<int, ParseError>(r->Ok_0 as int),
        r is Err ==> visited_count(input@) == Err::<int, ParseError>(r->Err_0),
{
    let map = match parse_input(input) {
        Ok(m) => m,
        Err(e) => return Err(e),
    };
    proof {
        lemma_lines_size(input@);
        assert(grid_of(&map) == lines_of(input@));
        assert forall|i: int| 0 <= i < map@.len() implies #[trigger] map@[i]@.len() <= i32::MAX by {
            assert(grid_of(&map)[i] == map@[i]@);
        }
    }
    let start_move = match find_start_move(&map) {
        Ok(s) => s,
        Err(e) => return Err(e),
    };
    proof {
        lemma_parsed_map(input@, grid_of(&map), start_move);
    }
    let moves = generate_moves(&map, &start_move);
    proof {
        lemma_unique_positions_bound(moves@);
    }
    Ok(count_unique_pos(moves))
}

pub fn part_two(input: &str) -> (r: Result<u32, ParseError>)
    requires
        input@.len() <= 0x3fff_ffff,
    ensures
        r is Ok ==> trap_count(input@) == Ok::<int, ParseError>(r->Ok_0 as int),
        r is Err ==> trap_count(input@) == Err::<int, ParseError>(r->Err_0),
{
    let map = match parse_input(input) {
        Ok(m) => m,
        Err(e) => return Err(e),
    };
    proof {
        lemma_lines_size(input@);
        assert(grid_of(&map) == lines_of(input@));
        assert forall|i: int| 0 <= i < map@.len() implies #[trigger] map@[i]@.len() <= i32::MAX by {
            assert(grid_of(&map)[i] == map@[i]@);
        }
    }
    let start_move = match find_start_move(&map) {
        Ok(s) => s,
        Err(e) => return Err(e),
    };
    let ghost g = grid_of(&map);
    proof {
        lemma_parsed_map(input@, g, start_move);
    }
    let moves = generate_moves(&map, &start_move);
    let cands = candidates(&moves, &start_move);
    proof {
        cands@.unique_seq_to_set();
        lemma_unique_positions_bound(moves@);
        vstd::seq_lib::seq_to_set_is_finite(moves@.map_values(|m: Guard| m.0));
        vstd::set_lib::lemma_len_subset(cands@.to_set(), positions(moves@));
        lemma_loop_count_set(g, start_move, cands@);
    }
    let r = count_loop_inducing(&map, &start_move, &cands);
    Ok(r)
}


proof fn lemma_walled_in_stays(g: Seq<Seq<char>>, s: Guard, n: nat, k: nat)
    requires
        well_formed(g),
        valid_state(g, s),
        forall|p: Position| inside(g, p) && p != s.0 ==> #[trigger] blocked(g, p),
        is_run(g, s, n),
        k < n,
    ensures
        state_at(g, s, k).0 == s.0,
    decreases k,
{
    if k > 0 {
        lemma_walled_in_stays(g, s, n, (k - 1) as nat);
        lemma_unit_kept(g, s, (k - 1) as nat);
        let prev = state_at(g, s, (k - 1) as nat);
        let np = next_pos(prev);
        assert(np != s.0);
        assert(inside(g, state_at(g, s, k).0));
        if inside(g, np) {
            assert(blocked(g, np));
        }
    }
}

/// On a map where every cell but the guard's own is a wall, no added wall
/// traps the guard.
pub proof fn lemma_walled_in(g: Seq<Seq<char>>, s: Guard)
    requires
        well_formed(g),
        valid_state(g, s),
        forall|p: Position| inside(g, p) && p != s.0 ==> #[trigger] blocked(g, p),
    ensures
        loop_inducing(g, s).len() == 0,
{
    lemma_patrol_bounded(g, s);
    let n = run_length(g, s);
    let path = patrol(g, s);
    let ps = path.map_values(|m: Guard| m.0);
    assert forall|p: Position| !#[trigger] positions(path).remove(s.0).contains(p) by {
        if ps.to_set().contains(p) && p != s.0 {
            let i = choose|i: int| 0 <= i < ps.len() && ps[i] == p;
            lemma_walled_in_stays(g, s, n, i as nat);
        }
    }
    assert(positions(path).remove(s.0) =~= Set::<Position>::empty());
    lemma_no_candidates(g, s);
}

} // verus!
