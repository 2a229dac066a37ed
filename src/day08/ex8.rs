use vstd::prelude::*;

use crate::text::{lines_of, split_lines};

verus! {

broadcast use vstd::std_specs::hash::group_hash_axioms;

/// A cell as (row, column).
pub type Cell = (usize, usize);

/// Cells of one frequency, in the order they were found.
pub type Group = (char, Vec<Cell>);

/// Whether a character marks an antenna: a letter or digit in Unicode's sense.
pub uninterp spec fn alnum(c: char) -> bool;

/// Relies on char::is_alphanumeric: Unicode's Alphabetic or Numeric property.
#[verifier::external_body]
fn is_antenna(c: char) -> (r: bool)
    ensures
        r == alnum(c),
{
    c.is_alphanumeric()
}

pub open spec fn grid_of(g: &Vec<Vec<char>>) -> Seq<Seq<char>> {
    g@.map_values(|r: Vec<char>| r@)
}

pub open spec fn group_views(gs: Seq<Group>) -> Seq<(char, Seq<Cell>)> {
    gs.map_values(|e: Group| (e.0, e.1@))
}

/// The index of the group of frequency `c`, searching from `i`.
pub open spec fn find_group(gs: Seq<(char, Seq<Cell>)>, c: char, i: int) -> Option<int>
    decreases gs.len() - i,
{
    if i < 0 || i >= gs.len() {
        None
    } else if gs[i].0 == c {
        Some(i)
    } else {
        find_group(gs, c, i + 1)
    }
}

/// Files the cell `p` under frequency `c`, opening a new group at the end
/// for a frequency not seen before.
pub open spec fn file_cell(gs: Seq<(char, Seq<Cell>)>, c: char, p: Cell) -> Seq<(char, Seq<Cell>)> {
    match find_group(gs, c, 0) {
        Some(i) => gs.update(i, (c, gs[i].1.push(p))),
        None => gs.push((c, seq![p])),
    }
}

/// The groups after reading the first `y` cells of row `x` on top of `acc`.
pub open spec fn file_row(g: Seq<Seq<char>>, x: int, y: int, acc: Seq<(char, Seq<Cell>)>) -> Seq<(char, Seq<Cell>)>
    decreases y,
{
    if y <= 0 {
        acc
    } else {
        let prev = file_row(g, x, y - 1, acc);
        if alnum(g[x][y - 1]) {
            file_cell(prev, g[x][y - 1], (x as usize, (y - 1) as usize))
        } else {
            prev
        }
    }
}

/// The antennas of the first `x` rows, grouped by frequency in the order
/// the frequencies first appear, each group in row-major order.
pub open spec fn file_rows(g: Seq<Seq<char>>, x: int) -> Seq<(char, Seq<Cell>)>
    decreases x,
{
    if x <= 0 {
        Seq::empty()
    } else {
        file_row(g, x - 1, g[x - 1].len() as int, file_rows(g, x - 1))
    }
}

pub fn parse_input(input: &str) -> (r: Vec<Vec<char>>)
    ensures
        grid_of(&r) == lines_of(input@),
{
    split_lines(input)
}

/// `index` maps each frequency's code point to the position of that
/// frequency in `keys`, and holds no other frequency.
/// A frequency's code point.
pub open spec fn code(c: char) -> u32 {
    c as u32
}

pub open spec fn indexes(index: Map<u32, usize>, keys: Seq<char>) -> bool {
    &&& keys.no_duplicates()
    &&& forall|c: char|
        #[trigger] index.contains_key(code(c)) ==> index[code(c)] < keys.len() && keys[index[code(c)] as int] == c
    &&& forall|c: char| !#[trigger] index.contains_key(code(c)) ==> !keys.contains(c)
}

proof fn lemma_find_group_at(gs: Seq<(char, Seq<Cell>)>, keys: Seq<char>, c: char, i: int)
    requires
        0 <= i,
        gs.map_values(|e: (char, Seq<Cell>)| e.0) == keys,
        keys.no_duplicates(),
    ensures
        forall|j: int| i <= j < keys.len() && keys[j] == c ==> find_group(gs, c, i) == Some(j),
        (forall|j: int| i <= j < keys.len() ==> keys[j] != c) ==> find_group(gs, c, i) is None,
    decreases gs.len() - i,
{
    if i < gs.len() {
        assert(gs[i].0 == keys[i]);
        lemma_find_group_at(gs, keys, c, i + 1);
    }
}

/// The antennas, grouped by frequency in the order the frequencies first
/// appear, each group in row-major order.
pub fn parse_map(input: &Vec<Vec<char>>) -> (r: Vec<Group>)
    ensures
        group_views(r@) == file_rows(grid_of(input), input@.len() as int),
{
    let ghost g = grid_of(input);
    let mut keys: Vec<char> = Vec::new();
    let mut lists: Vec<Vec<Cell>> = Vec::new();
    let mut index: std::collections::HashMap<u32, usize> = std::collections::HashMap::new();
    let mut x: usize = 0;
    while x < input.len()
        invariant
            g == grid_of(input),
            x <= input@.len(),
            keys@.len() == lists@.len(),
            indexes(index@, keys@),
            file_rows(g, x as int) == Seq::new(keys@.len(), |k: int| (keys@[k], lists@[k]@)),
        decreases input@.len() - x,
    {
        let row = &input[x];
        assert(g[x as int] == row@);
        let mut y: usize = 0;
        while y < row.len()
            invariant
                g == grid_of(input),
                x < input@.len(),
                row@ == g[x as int],
                y <= row@.len(),
                keys@.len() == lists@.len(),
                indexes(index@, keys@),
                file_row(g, x as int, y as int, file_rows(g, x as int)) == Seq::new(
                    keys@.len(),
                    |k: int| (keys@[k], lists@[k]@),
                ),
            decreases row@.len() - y,
        {
            let cell = row[y];
            let ghost before = Seq::new(keys@.len(), |k: int| (keys@[k], lists@[k]@));
            if is_antenna(cell) {
                proof {
                    assert(before.map_values(|e: (char, Seq<Cell>)| e.0) =~= keys@);
                }
                proof {
                    lemma_find_group_at(before, keys@, cell, 0);
                }
                let key = cell as u32;
                let found = match index.get(&key) {
                    Some(i) => {
                        assert(index@.contains_key(key) && index@[key] == *i);
                        Some(*i)
                    },
                    None => {
                        assert(!index@.contains_key(code(cell)));
                        None
                    },
                };
                match found {
                    Some(i) => {
                        proof {
                            assert(indexes(index@, keys@));
                            assert(key == code(cell));
                            assert(index@.contains_key(code(cell)));
                            assert(index@[code(cell)] == i);
                            assert(keys@[i as int] == cell);
                            assert(find_group(before, cell, 0) == Some(i as int));
                        }
                        let mut l = lists.remove(i);
                        l.push((x, y));
                        lists.insert(i, l);
                        assert(Seq::new(keys@.len(), |k: int| (keys@[k], lists@[k]@)) =~= file_cell(
                            before,
                            cell,
                            (x, y),
                        ));
                    },
                    None => {
                        proof {
                            assert(!keys@.contains(cell));
                            assert forall|j: int| 0 <= j < keys@.len() implies keys@[j] != cell by {
                                if keys@[j] == cell {
                                    assert(keys@.contains(cell));
                                }
                            }
                            assert(find_group(before, cell, 0) is None);
                        }
                        let ghost old_keys = keys@;
                        index.insert(cell as u32, keys.len());
                        keys.push(cell);
                        proof {
                            assert forall|a: int, b: int| 0 <= a < b < keys@.len() implies keys@[a] != keys@[b] by {
                                if b == keys@.len() - 1 {
                                    assert(old_keys.contains(keys@[a]));
                                }
                            }
                            assert forall|c: char| #[trigger] index@.contains_key(code(c)) implies index@[code(c)] < keys@.len() && keys@[index@[code(c)] as int] == c by {
                                if code(c) == code(cell) {
                                    vstd::utf8::char_u32_cast(c, code(c));
                                    vstd::utf8::char_u32_cast(cell, code(cell));
                                    assert(c == cell);
                                } else {
                                    assert(keys@[index@[code(c)] as int] == old_keys[index@[code(c)] as int]);
                                }
                            }
                            assert forall|c: char| !#[trigger] index@.contains_key(code(c)) implies !keys@.contains(c) by {
                                if keys@.contains(c) {
                                    let j = choose|j: int| 0 <= j < keys@.len() && keys@[j] == c;
                                    if j < old_keys.len() {
                                        assert(old_keys.contains(c));
                                    }
                                }
                            }
                        }
                        let mut l: Vec<Cell> = Vec::new();
                        l.push((x, y));
                        lists.push(l);
                        assert(Seq::new(keys@.len(), |k: int| (keys@[k], lists@[k]@)) =~= file_cell(
                            before,
                            cell,
                            (x, y),
                        ));
                    },
                }
            }
            y = y + 1;
        }
        x = x + 1;
    }
    let mut r: Vec<Group> = Vec::new();
    let ghost all = Seq::new(keys@.len(), |k: int| (keys@[k], lists@[k]@));
    let mut lists = lists;
    let mut k: usize = keys.len();
    while k > 0
        invariant
            k <= keys@.len(),
            lists@.len() == k,
            r@.len() == keys@.len() - k,
            all.len() == keys@.len(),
            forall|j: int| 0 <= j < k ==> all[j] == (keys@[j], lists@[j]@),
            forall|j: int| 0 <= j < r@.len() ==> (#[trigger] r@[j]).0 == all[keys@.len() - 1 - j].0 && r@[j].1@ == all[keys@.len() - 1 - j].1,
        decreases k,
    {
        k = k - 1;
        let l = lists.pop().unwrap();
        r.push((keys[k], l));
    }
    let mut out: Vec<Group> = Vec::new();
    while r.len() > 0
        invariant
            out@.len() + r@.len() == all.len(),
            forall|j: int| 0 <= j < r@.len() ==> (#[trigger] r@[j]).0 == all[all.len() - 1 - j].0 && r@[j].1@ == all[all.len() - 1 - j].1,
            forall|j: int| 0 <= j < out@.len() ==> (#[trigger] out@[j]).0 == all[j].0 && out@[j].1@ == all[j].1,
        decreases r@.len(),
    {
        let e = r.pop().unwrap();
        out.push(e);
    }
    assert(group_views(out@) =~= all);
    out
}

proof fn lemma_find_group_hit(gs: Seq<(char, Seq<Cell>)>, c: char, i: int)
    requires
        0 <= i,
        find_group(gs, c, i) matches Some(j),
    ensures
        find_group(gs, c, i) matches Some(j) ==> i <= j < gs.len() && gs[j].0 == c,
    decreases gs.len() - i,
{
    if i < gs.len() && gs[i].0 != c {
        lemma_find_group_hit(gs, c, i + 1);
    }
}


/// Every filed cell lies within `rows` x `cols`.
pub open spec fn cells_within(gs: Seq<(char, Seq<Cell>)>, rows: int, cols: int) -> bool {
    forall|k: int, j: int|
        0 <= k < gs.len() && 0 <= j < gs[k].1.len() ==> (#[trigger] gs[k].1[j]).0 < rows && gs[k].1[j].1 < cols
}

proof fn lemma_file_cell_within(gs: Seq<(char, Seq<Cell>)>, c: char, p: Cell, rows: int, cols: int)
    requires
        cells_within(gs, rows, cols),
        p.0 < rows,
        p.1 < cols,
    ensures
        cells_within(file_cell(gs, c, p), rows, cols),
{
    match find_group(gs, c, 0) {
        Some(i) => {
            lemma_find_group_hit(gs, c, 0);
            let h = file_cell(gs, c, p);
            assert forall|k: int, j: int| 0 <= k < h.len() && 0 <= j < h[k].1.len() implies (
            #[trigger] h[k].1[j]).0 < rows && h[k].1[j].1 < cols by {
                if k == i && j < gs[i].1.len() {
                    assert(h[k].1[j] == gs[i].1[j]);
                }
            }
        },
        None => {
            let h = file_cell(gs, c, p);
            assert forall|k: int, j: int| 0 <= k < h.len() && 0 <= j < h[k].1.len() implies (
            #[trigger] h[k].1[j]).0 < rows && h[k].1[j].1 < cols by {
                if k < gs.len() {
                    assert(h[k] == gs[k]);
                }
            }
        },
    }
}

proof fn lemma_file_row_within(g: Seq<Seq<char>>, x: int, y: int, acc: Seq<(char, Seq<Cell>)>, rows: int, cols: int)
    requires
        cells_within(acc, rows, cols),
        0 <= x < rows,
        y <= cols,
    ensures
        cells_within(file_row(g, x, y, acc), rows, cols),
    decreases y,
{
    if y > 0 {
        lemma_file_row_within(g, x, y - 1, acc, rows, cols);
        if alnum(g[x][y - 1]) {
            lemma_file_cell_within(file_row(g, x, y - 1, acc), g[x][y - 1], (x as usize, (y - 1) as usize), rows, cols);
        }
    }
}

proof fn lemma_file_rows_within(g: Seq<Seq<char>>, x: int)
    requires
        0 <= x <= g.len(),
        g.len() > 0,
        g.len() <= usize::MAX,
        forall|i: int| 0 <= i < g.len() ==> #[trigger] g[i].len() == g[0].len(),
    ensures
        cells_within(file_rows(g, x), g.len() as int, g[0].len() as int),
    decreases x,
{
    if x > 0 {
        lemma_file_rows_within(g, x - 1);
        assert(g[x - 1].len() == g[0].len());
        lemma_file_row_within(g, x - 1, g[x - 1].len() as int, file_rows(g, x - 1), g.len() as int, g[0].len() as int);
    }
}

/// Each pair of the list's entries, the earlier first, in order.
pub open spec fn pairs_from(s: Seq<Cell>, i: int) -> Seq<(Cell, Cell)>
    decreases s.len() - i,
{
    if i < 0 || i >= s.len() {
        Seq::empty()
    } else {
        Seq::new((s.len() - i - 1) as nat, |k: int| (s[i], s[i + 1 + k])) + pairs_from(s, i + 1)
    }
}

pub fn antenna_pairs(antennas: &Vec<Cell>) -> (r: Vec<(Cell, Cell)>)
    ensures
        r@ == pairs_from(antennas@, 0),
{
    let n = antennas.len();
    let mut r: Vec<(Cell, Cell)> = Vec::new();
    let mut i: usize = 0;
    while i < n
        invariant
            n == antennas@.len(),
            i <= n,
            r@ + pairs_from(antennas@, i as int) == pairs_from(antennas@, 0),
        decreases n - i,
    {
        let ghost row = Seq::new((n - i - 1) as nat, |k: int| (antennas@[i as int], antennas@[i + 1 + k]));
        let ghost base = r@;
        assert(pairs_from(antennas@, i as int) == row + pairs_from(antennas@, i + 1));
        let mut j: usize = i + 1;
        while j < n
            invariant
                n == antennas@.len(),
                i < j <= n,
                r@ == base + row.take(j - i - 1),
                row == Seq::new((n - i - 1) as nat, |k: int| (antennas@[i as int], antennas@[i + 1 + k])),
            decreases n - j,
        {
            r.push((antennas[i], antennas[j]));
            j = j + 1;
            assert(r@ =~= base + row.take(j - i - 1));
        }
        assert(row.take(j - i - 1) =~= row);
        assert(base + row + pairs_from(antennas@, i + 1) =~= base + (row + pairs_from(antennas@, i + 1)));
        i = i + 1;
    }
    assert(r@ =~= r@ + pairs_from(antennas@, i as int));
    r
}

/// The cell one `step` from `pos`, where it lies within `limit`.
pub open spec fn pole(pos: Cell, step: (int, int), limit: Cell) -> Option<Cell> {
    let x = pos.0 + step.0;
    let y = pos.1 + step.1;
    if 0 <= x < limit.0 && 0 <= y < limit.1 {
        Some((x as usize, y as usize))
    } else {
        None
    }
}

pub fn try_get_pole(pos: &Cell, step: &(i32, i32), limit: &Cell) -> (r: Option<Cell>)
    requires
        pos.0 <= i32::MAX,
        pos.1 <= i32::MAX,
        limit.0 <= i32::MAX,
        limit.1 <= i32::MAX,
        i32::MIN <= pos.0 + step.0 <= i32::MAX,
        i32::MIN <= pos.1 + step.1 <= i32::MAX,
    ensures
        r == pole(*pos, (step.0 as int, step.1 as int), *limit),
{
    let x = pos.0 as i64 + step.0 as i64;
    let y = pos.1 as i64 + step.1 as i64;
    if x >= 0 && y >= 0 && x < limit.0 as i64 && y < limit.1 as i64 {
        Some((x as usize, y as usize))
    } else {
        None
    }
}

pub open spec fn step_between(a: Cell, b: Cell) -> (int, int) {
    (b.0 - a.0, b.1 - a.1)
}

pub open spec fn negate(s: (int, int)) -> (int, int) {
    (-s.0, -s.1)
}

/// The cells beyond each end of a pair, one pair-length out.
pub open spec fn primary_poles(pair: (Cell, Cell), limit: Cell) -> Seq<Option<Cell>> {
    seq![
        pole(pair.0, negate(step_between(pair.0, pair.1)), limit),
        pole(pair.1, step_between(pair.0, pair.1), limit),
    ]
}

/// The cells reached from `p` by repeated steps, until one leaves `limit`
/// or `fuel` steps are taken.
pub open spec fn walk(p: Cell, step: (int, int), limit: Cell, fuel: nat) -> Seq<Cell>
    decreases fuel,
{
    if fuel == 0 {
        Seq::empty()
    } else {
        match pole(p, step, limit) {
            Some(n) => seq![n] + walk(n, step, limit, (fuel - 1) as nat),
            None => Seq::empty(),
        }
    }
}

pub open spec fn somes(s: Seq<Cell>) -> Seq<Option<Cell>> {
    s.map_values(|c: Cell| Some(c))
}

/// The steps a walk may take: no line crosses a grid in more.
pub open spec fn walk_fuel(limit: Cell) -> nat {
    (limit.0 + limit.1) as nat
}

/// Every cell on the pair's line, from the second end back past the first,
/// then from the first end on past the second.
pub open spec fn all_poles(pair: (Cell, Cell), limit: Cell) -> Seq<Option<Cell>> {
    somes(
        walk(pair.1, negate(step_between(pair.0, pair.1)), limit, walk_fuel(limit)) + walk(
            pair.0,
            step_between(pair.0, pair.1),
            limit,
            walk_fuel(limit),
        ),
    )
}

pub open spec fn small(p: Cell) -> bool {
    p.0 <= 0x3fff_ffff && p.1 <= 0x3fff_ffff
}

pub fn antinode_primary_poles(pair: &(Cell, Cell), limit: Cell) -> (r: Vec<Option<Cell>>)
    requires
        small(pair.0),
        small(pair.1),
        small(limit),
    ensures
        r@ == primary_poles(*pair, limit),
{
    let (a, b) = *pair;
    let step_down = (b.0 as i32 - a.0 as i32, b.1 as i32 - a.1 as i32);
    let step_up = (-step_down.0, -step_down.1);
    let north = try_get_pole(&a, &step_up, &limit);
    let south = try_get_pole(&b, &step_down, &limit);
    let mut v: Vec<Option<Cell>> = Vec::new();
    v.push(north);
    v.push(south);
    assert(v@ =~= primary_poles(*pair, limit));
    v
}

fn walk_exec(start: Cell, step: &(i32, i32), limit: Cell, out: &mut Vec<Option<Cell>>)
    requires
        small(start),
        small(limit),
        -0x3fff_ffff <= step.0 <= 0x3fff_ffff,
        -0x3fff_ffff <= step.1 <= 0x3fff_ffff,
    ensures
        final(out)@ == old(out)@ + somes(walk(start, (step.0 as int, step.1 as int), limit, walk_fuel(limit))),
{
    let ghost st = (step.0 as int, step.1 as int);
    let ghost base = old(out)@;
    let mut fuel: usize = limit.0 + limit.1;
    let mut cur = start;
    let mut next = try_get_pole(&cur, step, &limit);
    proof {
        assert(walk(start, st, limit, walk_fuel(limit)) =~= seq![] + walk(start, st, limit, fuel as nat));
    }
    let ghost mut done: Seq<Cell> = Seq::empty();
    while fuel > 0
        invariant
            small(cur),
            small(limit),
            st == (step.0 as int, step.1 as int),
            next == pole(cur, st, limit),
            done + walk(cur, st, limit, fuel as nat) == walk(start, st, limit, walk_fuel(limit)),
            out@ == base + somes(done),
        ensures
            out@ == base + somes(walk(start, st, limit, walk_fuel(limit))),
        decreases fuel,
    {
        match next {
            Some(n) => {
                out.push(Some(n));
                proof {
                    assert(out@ =~= base + somes(done.push(n)));
                    assert(done.push(n) + walk(n, st, limit, (fuel - 1) as nat) =~= done + walk(cur, st, limit, fuel as nat));
                    done = done.push(n);
                }
                cur = n;
                fuel = fuel - 1;
                next = try_get_pole(&cur, step, &limit);
            },
            None => {
                assert(done + walk(cur, st, limit, fuel as nat) =~= done);
                break;
            },
        }
        proof {
            if fuel == 0 {
                assert(done + walk(cur, st, limit, 0) =~= done);
            }
        }
    }
}

pub fn antinode_all_poles(pair: &(Cell, Cell), limit: Cell) -> (r: Vec<Option<Cell>>)
    requires
        small(pair.0),
        small(pair.1),
        small(limit),
    ensures
        r@ == all_poles(*pair, limit),
{
    let (a, b) = *pair;
    let step_down = (b.0 as i32 - a.0 as i32, b.1 as i32 - a.1 as i32);
    let step_up = (-step_down.0, -step_down.1);
    let mut result: Vec<Option<Cell>> = Vec::new();
    walk_exec(b, &step_up, limit, &mut result);
    walk_exec(a, &step_down, limit, &mut result);
    proof {
        let up = walk(b, negate(step_between(a, b)), limit, walk_fuel(limit));
        let down = walk(a, step_between(a, b), limit, walk_fuel(limit));
        assert(somes(up + down) =~= somes(up) + somes(down));
        assert(Seq::<Option<Cell>>::empty() + somes(up) + somes(down) =~= somes(up + down));
    }
    result
}


pub open spec fn poles_of(pair: (Cell, Cell), all: bool, limit: Cell) -> Seq<Option<Cell>> {
    if all {
        all_poles(pair, limit)
    } else {
        primary_poles(pair, limit)
    }
}

/// The cells that are present, in order.
pub open spec fn present(s: Seq<Option<Cell>>) -> Seq<Cell>
    decreases s.len(),
{
    if s.len() == 0 {
        Seq::empty()
    } else {
        present(s.drop_last()) + match s.last() {
            Some(c) => seq![c],
            None => Seq::empty(),
        }
    }
}

/// The antinodes of the pairs, in order.
pub open spec fn pair_antinodes(pairs: Seq<(Cell, Cell)>, all: bool, limit: Cell) -> Seq<Cell>
    decreases pairs.len(),
{
    if pairs.len() == 0 {
        Seq::empty()
    } else {
        pair_antinodes(pairs.drop_last(), all, limit) + present(poles_of(pairs.last(), all, limit))
    }
}

/// The antinodes of each group's pairs, group by group.
pub open spec fn group_antinodes(gs: Seq<(char, Seq<Cell>)>, all: bool, limit: Cell) -> Seq<Cell>
    decreases gs.len(),
{
    if gs.len() == 0 {
        Seq::empty()
    } else {
        group_antinodes(gs.drop_last(), all, limit) + pair_antinodes(pairs_from(gs.last().1, 0), all, limit)
    }
}

fn append_present(out: &mut Vec<Cell>, v: &Vec<Option<Cell>>)
    ensures
        final(out)@ == old(out)@ + present(v@),
{
    let ghost base = old(out)@;
    let mut i: usize = 0;
    while i < v.len()
        invariant
            i <= v@.len(),
            out@ == base + present(v@.take(i as int)),
        decreases v@.len() - i,
    {
        assert(v@.take(i + 1).drop_last() =~= v@.take(i as int));
        match v[i] {
            Some(c) => {
                out.push(c);
            },
            None => {},
        }
        i = i + 1;
        assert(out@ =~= base + present(v@.take(i as int)));
    }
    assert(v@.take(i as int) =~= v@);
}

/// The antinodes of every pair of the antennas; `all` picks every cell on
/// each pair's line rather than the two beyond its ends.
pub fn antinode_positions(antennas: &Vec<Cell>, all: bool, limit: Cell) -> (r: Vec<Cell>)
    requires
        forall|i: int| 0 <= i < antennas@.len() ==> small(#[trigger] antennas@[i]),
        small(limit),
    ensures
        r@ == pair_antinodes(pairs_from(antennas@, 0), all, limit),
{
    let pairs = antenna_pairs(antennas);
    proof {
        lemma_pairs_small(antennas@, 0);
    }
    let mut out: Vec<Cell> = Vec::new();
    let mut i: usize = 0;
    while i < pairs.len()
        invariant
            pairs@ == pairs_from(antennas@, 0),
            forall|k: int| 0 <= k < pairs@.len() ==> small((#[trigger] pairs@[k]).0) && small(pairs@[k].1),
            small(limit),
            i <= pairs@.len(),
            out@ == pair_antinodes(pairs@.take(i as int), all, limit),
        decreases pairs@.len() - i,
    {
        assert(pairs@.take(i + 1).drop_last() =~= pairs@.take(i as int));
        let poles = if all {
            antinode_all_poles(&pairs[i], limit)
        } else {
            antinode_primary_poles(&pairs[i], limit)
        };
        append_present(&mut out, &poles);
        i = i + 1;
    }
    assert(pairs@.take(i as int) =~= pairs@);
    out
}

proof fn lemma_pairs_small(s: Seq<Cell>, i: int)
    requires
        0 <= i,
        forall|k: int| 0 <= k < s.len() ==> small(#[trigger] s[k]),
    ensures
        forall|k: int| 0 <= k < pairs_from(s, i).len() ==> small((#[trigger] pairs_from(s, i)[k]).0) && small(pairs_from(s, i)[k].1),
    decreases s.len() - i,
{
    if i < s.len() {
        lemma_pairs_small(s, i + 1);
        let row = Seq::new((s.len() - i - 1) as nat, |k: int| (s[i], s[i + 1 + k]));
        assert forall|k: int| 0 <= k < pairs_from(s, i).len() implies small((#[trigger] pairs_from(s, i)[k]).0) && small(pairs_from(s, i)[k].1) by {
            if k < row.len() {
                assert(pairs_from(s, i)[k] == row[k]);
                assert(small(s[i + 1 + k]));
            } else {
                assert(pairs_from(s, i)[k] == pairs_from(s, i + 1)[k - row.len()]);
            }
        }
    }
}

/// The antinodes of every group, group by group.
pub fn valid_antinode_positions(antenna_map: &Vec<Group>, all: bool, limit: Cell) -> (r: Vec<Cell>)
    requires
        forall|k: int, j: int| 0 <= k < antenna_map@.len() && 0 <= j < antenna_map@[k].1@.len() ==> small(#[trigger] antenna_map@[k].1@[j]),
        small(limit),
    ensures
        r@ == group_antinodes(group_views(antenna_map@), all, limit),
{
    let ghost gs = group_views(antenna_map@);
    let mut out: Vec<Cell> = Vec::new();
    let mut i: usize = 0;
    while i < antenna_map.len()
        invariant
            gs == group_views(antenna_map@),
            forall|k: int, j: int| 0 <= k < antenna_map@.len() && 0 <= j < antenna_map@[k].1@.len() ==> small(#[trigger] antenna_map@[k].1@[j]),
            small(limit),
            i <= antenna_map@.len(),
            out@ == group_antinodes(gs.take(i as int), all, limit),
        decreases antenna_map@.len() - i,
    {
        assert(gs.take(i + 1).drop_last() =~= gs.take(i as int));
        assert(gs.take(i + 1).last().1 == antenna_map@[i as int].1@);
        let mut found = antinode_positions(&antenna_map[i].1, all, limit);
        out.append(&mut found);
        proof {
            assert(out@ == group_antinodes(gs.take(i + 1), all, limit));
        }
        i = i + 1;
    }
    assert(gs.take(i as int) =~= gs);
    out
}

/// A number for each cell, one to one.
pub open spec fn cell_key(c: Cell) -> u128 {
    (c.0 * 0x1_0000_0000_0000_0000 + c.1) as u128
}

proof fn lemma_cell_key(a: Cell, b: Cell)
    ensures
        cell_key(a) as int == a.0 * 0x1_0000_0000_0000_0000 + a.1,
        cell_key(a) == cell_key(b) ==> a == b,
{
    assert(a.0 <= u64::MAX && a.1 <= u64::MAX && b.0 <= u64::MAX && b.1 <= u64::MAX);
    assert(a.0 * 0x1_0000_0000_0000_0000 + a.1 <= u128::MAX) by (nonlinear_arith)
        requires
            a.0 <= u64::MAX,
            a.1 <= u64::MAX,
    ;
    assert(b.0 * 0x1_0000_0000_0000_0000 + b.1 <= u128::MAX) by (nonlinear_arith)
        requires
            b.0 <= u64::MAX,
            b.1 <= u64::MAX,
    ;
    if cell_key(a) == cell_key(b) {
        vstd::arithmetic::div_mod::lemma_fundamental_div_mod_converse(
            cell_key(a) as int,
            0x1_0000_0000_0000_0000,
            a.0 as int,
            a.1 as int,
        );
        vstd::arithmetic::div_mod::lemma_fundamental_div_mod_converse(
            cell_key(b) as int,
            0x1_0000_0000_0000_0000,
            b.0 as int,
            b.1 as int,
        );
    }
}

fn key_of_cell(c: Cell) -> (r: u128)
    ensures
        r == cell_key(c),
{
    proof {
        lemma_cell_key(c, c);
    }
    c.0 as u128 * 0x1_0000_0000_0000_0000u128 + c.1 as u128
}

/// The distinct cells of the list, each once, in order of first appearance.
pub fn unique_elements(vec: Vec<Cell>) -> (r: Vec<Cell>)
    ensures
        r@.no_duplicates(),
        r@.to_set() == vec@.to_set(),
{
    let mut seen: std::collections::HashSet<u128> = std::collections::HashSet::new();
    let mut r: Vec<Cell> = Vec::new();
    let mut i: usize = 0;
    while i < vec.len()
        invariant
            i <= vec@.len(),
            r@.no_duplicates(),
            r@.to_set() == vec@.take(i as int).to_set(),
            seen@ == r@.to_set().map(|c: Cell| cell_key(c)),
        decreases vec@.len() - i,
    {
        let c = vec[i];
        proof {
            vec@.take(i as int).lemma_push_to_set_commute(c);
            assert(vec@.take(i + 1) =~= vec@.take(i as int).push(c));
        }
        let k = key_of_cell(c);
        let ghost before = seen@;
        let ghost rs = r@.to_set();
        if seen.insert(k) {
            proof {
                if rs.contains(c) {
                    assert(before.contains(cell_key(c)));
                }
                rs.lemma_set_map_insert_commute(c, |c: Cell| cell_key(c));
                r@.lemma_push_to_set_commute(c);
            }
            let ghost old_r = r@;
            r.push(c);
            proof {
                assert forall|a: int, b: int| 0 <= a < b < r@.len() implies r@[a] != r@[b] by {
                    if b == r@.len() - 1 {
                        assert(rs.contains(old_r[a]));
                    }
                }
            }
        } else {
            proof {
                let q = choose|q: Cell| rs.contains(q) && cell_key(q) == k;
                lemma_cell_key(q, c);
                assert(rs.insert(c) =~= rs);
                assert(seen@ =~= before);
            }
        }
        i = i + 1;
    }
    assert(vec@.take(i as int) =~= vec@);
    r
}

/// The grid is non-empty and rectangular, with room for signed steps.
pub open spec fn good_grid(g: Seq<Seq<char>>) -> bool {
    &&& 0 < g.len() <= 0x3fff_ffff
    &&& g[0].len() <= 0x3fff_ffff
    &&& forall|i: int| 0 <= i < g.len() ==> #[trigger] g[i].len() == g[0].len()
}

/// How many distinct cells are antinodes; `all` as for `antinode_positions`.
pub open spec fn antinode_count(g: Seq<Seq<char>>, all: bool) -> nat {
    group_antinodes(file_rows(g, g.len() as int), all, (g.len() as usize, g[0].len() as usize)).to_set().len()
}

fn count_antinodes(input: &str, all: bool) -> (r: u64)
    requires
        good_grid(lines_of(input@)),
    ensures
        r == antinode_count(lines_of(input@), all),
{
    let grid = parse_input(input);
    let ghost g = grid_of(&grid);
    let map = parse_map(&grid);
    assert(g[0] == grid@[0]@);
    let limit = (grid.len(), grid[0].len());
    proof {
        lemma_file_rows_within(g, g.len() as int);
        assert forall|k: int, j: int| 0 <= k < map@.len() && 0 <= j < map@[k].1@.len() implies small(#[trigger] map@[k].1@[j]) by {
            assert(group_views(map@)[k].1 == map@[k].1@);
            assert(group_views(map@)[k].1[j] == map@[k].1@[j]);
        }
    }
    let all_found = valid_antinode_positions(&map, all, limit);
    let unique = unique_elements(all_found);
    proof {
        unique@.unique_seq_to_set();
    }
    unique.len() as u64
}

/// How many distinct cells lie one pair-length beyond a pair of antennas of
/// one frequency.
pub fn part_one(input: &str) -> (r: u64)
    requires
        good_grid(lines_of(input@)),
    ensures
        r == antinode_count(lines_of(input@), false),
{
    count_antinodes(input, false)
}

/// How many distinct cells lie on a line through two antennas of one frequency.
pub fn part_two(input: &str) -> (r: u64)
    requires
        good_grid(lines_of(input@)),
    ensures
        r == antinode_count(lines_of(input@), true),
{
    count_antinodes(input, true)
}

} // verus!
