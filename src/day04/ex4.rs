use vstd::prelude::*;

use crate::day03::ex3::{fancy_find_all, fancy_matches};
use crate::text::{lines_of, split_lines};

verus! {

pub open spec fn grid_of(grid: &Vec<Vec<char>>) -> Seq<Seq<char>> {
    grid@.map_values(|r: Vec<char>| r@)
}

/// A non-empty grid whose rows all have the grid's height as length.
pub open spec fn square(g: Seq<Seq<char>>) -> bool {
    0 < g.len() && equal_sides(g)
}

/// A grid, possibly empty, whose rows all have the grid's height as length.
pub open spec fn equal_sides(g: Seq<Seq<char>>) -> bool {
    &&& g.len() <= 0x7fff_ffff
    &&& forall|i: int| 0 <= i < g.len() ==> #[trigger] g[i].len() == g.len()
}

/// A non-empty grid of equal rows.
pub open spec fn rectangular(g: Seq<Seq<char>>) -> bool {
    &&& 0 < g.len() <= 0x7fff_ffff
    &&& g[0].len() <= 0x7fff_ffff
    &&& forall|i: int| 0 <= i < g.len() ==> #[trigger] g[i].len() == g[0].len()
}

pub open spec fn vertical(g: Seq<Seq<char>>, y: int) -> Seq<char> {
    Seq::new(g[0].len(), |x: int| g[x][y])
}

pub open spec fn imin(a: int, b: int) -> int {
    if a <= b {
        a
    } else {
        b
    }
}

pub open spec fn imax(a: int, b: int) -> int {
    if a >= b {
        a
    } else {
        b
    }
}

pub open spec fn diag_start(rows: int, d: int) -> int {
    imax(0, d - rows)
}

pub open spec fn diag_count(rows: int, cols: int, d: int) -> int {
    imin(imin(d, cols - diag_start(rows, d)), rows)
}

/// The `d`-th diagonal running up and to the right, from the left or bottom edge.
pub open spec fn rising(g: Seq<Seq<char>>, d: int) -> Seq<char> {
    let rows = g.len() as int;
    let cols = g[0].len() as int;
    Seq::new(
        diag_count(rows, cols, d) as nat,
        |k: int| g[imin(rows, d) - k - 1][diag_start(rows, d) + k],
    )
}

/// The `d`-th diagonal running down and to the right.
pub open spec fn falling(g: Seq<Seq<char>>, d: int) -> Seq<char> {
    let rows = g.len() as int;
    let cols = g[0].len() as int;
    Seq::new(
        diag_count(rows, cols, d) as nat,
        |k: int| g[rows - (imin(rows, d) - k - 1) - 1][diag_start(rows, d) + k],
    )
}

/// Each line followed by its reverse.
pub open spec fn both_ways(ls: Seq<Seq<char>>) -> Seq<Seq<char>>
    decreases ls.len(),
{
    if ls.len() == 0 {
        Seq::empty()
    } else {
        both_ways(ls.drop_last()).push(ls.last()).push(ls.last().reverse())
    }
}

pub open spec fn strings(v: Seq<String>) -> Seq<Seq<char>> {
    v.map_values(|s: String| s@)
}

/// Relies on `String`'s `FromIterator<&char>`: the string of the given characters, in order.
#[verifier::external_body]
fn string_of(chars: &Vec<char>) -> (r: String)
    ensures
        r@ == chars@,
{
    chars.iter().collect::<String>()
}

fn reversed(chars: &Vec<char>) -> (r: Vec<char>)
    ensures
        r@ == chars@.reverse(),
{
    let mut r: Vec<char> = Vec::new();
    let mut i: usize = chars.len();
    while i > 0
        invariant
            i <= chars@.len(),
            r@ == chars@.subrange(i as int, chars@.len() as int).reverse(),
        decreases i,
    {
        i = i - 1;
        r.push(chars[i]);
        assert(r@ =~= chars@.subrange(i as int, chars@.len() as int).reverse());
    }
    assert(chars@.subrange(0, chars@.len() as int) =~= chars@);
    r
}

/// Appends `line` and then its reverse.
fn push_both_ways(lines: &mut Vec<String>, line: &Vec<char>, ghost_src: Ghost<Seq<Seq<char>>>)
    requires
        strings(old(lines)@) == both_ways(ghost_src@),
    ensures
        strings(final(lines)@) == both_ways(ghost_src@.push(line@)),
{
    let fwd = string_of(line);
    let rev = reversed(line);
    let bwd = string_of(&rev);
    let ghost before = lines@;
    lines.push(fwd);
    lines.push(bwd);
    assert(ghost_src@.push(line@).drop_last() =~= ghost_src@);
    assert(strings(lines@) =~= strings(before).push(line@).push(line@.reverse()));
}

pub fn parse_input(input: &str) -> (r: Vec<Vec<char>>)
    ensures
        grid_of(&r) == lines_of(input@),
{
    split_lines(input)
}

/// Each row, forwards and backwards.
pub fn get_horizontal_lines(grid: &Vec<Vec<char>>) -> (r: Vec<String>)
    ensures
        strings(r@) == both_ways(grid_of(grid)),
{
    let mut lines: Vec<String> = Vec::new();
    let mut x: usize = 0;
    while x < grid.len()
        invariant
            x <= grid@.len(),
            strings(lines@) == both_ways(grid_of(grid).take(x as int)),
        decreases grid@.len() - x,
    {
        assert(grid_of(grid).take(x + 1) =~= grid_of(grid).take(x as int).push(grid@[x as int]@));
        push_both_ways(&mut lines, &grid[x], Ghost(grid_of(grid).take(x as int)));
        x = x + 1;
    }
    assert(grid_of(grid).take(x as int) =~= grid_of(grid));
    lines
}


pub open spec fn verticals(g: Seq<Seq<char>>) -> Seq<Seq<char>> {
    Seq::new(g.len(), |y: int| vertical(g, y))
}

pub open spec fn risings(g: Seq<Seq<char>>) -> Seq<Seq<char>> {
    Seq::new((g.len() + g[0].len() - 1) as nat, |i: int| rising(g, i + 1))
}

pub open spec fn fallings(g: Seq<Seq<char>>) -> Seq<Seq<char>> {
    Seq::new((g.len() + g[0].len() - 1) as nat, |i: int| falling(g, i + 1))
}

/// Each column, top to bottom and bottom to top.
pub fn get_vertical_lines(grid: &Vec<Vec<char>>) -> (r: Vec<String>)
    requires
        equal_sides(grid_of(grid)),
    ensures
        strings(r@) == both_ways(verticals(grid_of(grid))),
{
    let ghost g = grid_of(grid);
    let mut lines: Vec<String> = Vec::new();
    let mut y: usize = 0;
    while y < grid.len()
        invariant
            g == grid_of(grid),
            equal_sides(g),
            y <= grid@.len(),
            strings(lines@) == both_ways(verticals(g).take(y as int)),
        decreases grid@.len() - y,
    {
        let mut characters: Vec<char> = Vec::new();
        let mut x: usize = 0;
        assert(g[0] == grid@[0]@);
        while x < grid[0].len()
            invariant
                g == grid_of(grid),
                equal_sides(g),
                y < grid@.len(),
                x <= g[0].len(),
                grid@[0]@.len() == g[0].len(),
                characters@ == vertical(g, y as int).take(x as int),
            decreases g[0].len() - x,
        {
            assert(g[x as int] == grid@[x as int]@);
            assert(g[x as int].len() == g.len());
            characters.push(grid[x][y]);
            x = x + 1;
            assert(characters@ =~= vertical(g, y as int).take(x as int));
        }
        assert(vertical(g, y as int).take(x as int) =~= vertical(g, y as int));
        assert(verticals(g).take(y + 1) =~= verticals(g).take(y as int).push(characters@));
        push_both_ways(&mut lines, &characters, Ghost(verticals(g).take(y as int)));
        y = y + 1;
    }
    assert(verticals(g).take(y as int) =~= verticals(g));
    lines
}

/// Both families of diagonals, each forwards and backwards: first those
/// running up and to the right, then those running down and to the right.
pub fn get_diagonal_lines(grid: &Vec<Vec<char>>) -> (r: Vec<String>)
    requires
        rectangular(grid_of(grid)),
    ensures
        strings(r@) == both_ways(risings(grid_of(grid)) + fallings(grid_of(grid))),
{
    let ghost g = grid_of(grid);
    let mut lines: Vec<String> = Vec::new();
    let rows = grid.len();
    assert(g[0] == grid@[0]@);
    let cols = grid[0].len();
    let ghost all = risings(g) + fallings(g);
    let mut diagonal: usize = 1;
    while diagonal < rows + cols
        invariant
            g == grid_of(grid),
            rectangular(g),
            all == risings(g) + fallings(g),
            rows == g.len(),
            cols == g[0].len(),
            1 <= diagonal <= rows + cols,
            strings(lines@) == both_ways(all.take(diagonal - 1)),
        decreases rows + cols - diagonal,
    {
        let characters = diagonal_chars(grid, diagonal, false);
        assert(all.take(diagonal as int) =~= all.take(diagonal - 1).push(characters@));
        push_both_ways(&mut lines, &characters, Ghost(all.take(diagonal - 1)));
        diagonal = diagonal + 1;
    }
    let mut diagonal: usize = 1;
    while diagonal < rows + cols
        invariant
            g == grid_of(grid),
            rectangular(g),
            all == risings(g) + fallings(g),
            rows == g.len(),
            cols == g[0].len(),
            1 <= diagonal <= rows + cols,
            strings(lines@) == both_ways(all.take(rows + cols - 1 + diagonal - 1)),
        decreases rows + cols - diagonal,
    {
        let characters = diagonal_chars(grid, diagonal, true);
        assert(all.take(rows + cols - 1 + diagonal) =~= all.take(rows + cols - 1 + diagonal - 1).push(
            characters@,
        ));
        push_both_ways(&mut lines, &characters, Ghost(all.take(rows + cols - 1 + diagonal - 1)));
        diagonal = diagonal + 1;
    }
    assert(all.take(rows + cols - 1 + diagonal - 1) =~= all);
    lines
}

fn diagonal_chars(grid: &Vec<Vec<char>>, diagonal: usize, down: bool) -> (r: Vec<char>)
    requires
        rectangular(grid_of(grid)),
        1 <= diagonal < grid_of(grid).len() + grid_of(grid)[0].len(),
    ensures
        r@ == if down {
            falling(grid_of(grid), diagonal as int)
        } else {
            rising(grid_of(grid), diagonal as int)
        },
{
    let ghost g = grid_of(grid);
    let rows = grid.len();
    assert(g[0] == grid@[0]@);
    let cols = grid[0].len();
    let start_col: usize = if diagonal > rows {
        diagonal - rows
    } else {
        0
    };
    let lead: usize = if diagonal < cols - start_col {
        diagonal
    } else {
        cols - start_col
    };
    let count: usize = if lead < rows {
        lead
    } else {
        rows
    };
    let top: usize = if rows < diagonal {
        rows
    } else {
        diagonal
    };
    let ghost target = if down {
        falling(g, diagonal as int)
    } else {
        rising(g, diagonal as int)
    };
    let mut characters: Vec<char> = Vec::new();
    let mut k: usize = 0;
    while k < count
        invariant
            g == grid_of(grid),
            rectangular(g),
            rows == g.len(),
            cols == g[0].len(),
            start_col == diag_start(rows as int, diagonal as int),
            count == diag_count(rows as int, cols as int, diagonal as int),
            top == imin(rows as int, diagonal as int),
            target == (if down {
                falling(g, diagonal as int)
            } else {
                rising(g, diagonal as int)
            }),
            k <= count,
            characters@ == target.take(k as int),
        decreases count - k,
    {
        let x = top - k - 1;
        let y = start_col + k;
        let row = if down {
            rows - x - 1
        } else {
            x
        };
        assert(g[row as int] == grid@[row as int]@);
        assert(g[row as int].len() == g[0].len());
        characters.push(grid[row][y]);
        k = k + 1;
        assert(characters@ =~= target.take(k as int));
    }
    assert(target.take(k as int) =~= target);
    characters
}

/// Every row, column and diagonal, each forwards and backwards.
pub fn get_lines(grid: Vec<Vec<char>>) -> (r: Vec<String>)
    requires
        square(grid_of(&grid)),
    ensures
        strings(r@) == both_ways(grid_of(&grid)) + both_ways(verticals(grid_of(&grid))) + both_ways(
            risings(grid_of(&grid)) + fallings(grid_of(&grid)),
        ),
{
    assert(grid_of(&grid)[0].len() == grid_of(&grid).len());
    let mut lines = get_horizontal_lines(&grid);
    let mut vert = get_vertical_lines(&grid);
    let mut diag = get_diagonal_lines(&grid);
    let ghost (h, v, d) = (lines@, vert@, diag@);
    lines.append(&mut vert);
    lines.append(&mut diag);
    assert(strings(lines@) =~= strings(h) + strings(v) + strings(d));
    lines
}

pub open spec fn is_x_mas(g: Seq<Seq<char>>, x: int, y: int) -> bool {
    &&& g[x][y] == 'A'
    &&& (g[x - 1][y - 1] == 'M' && g[x + 1][y + 1] == 'S') || (g[x - 1][y - 1] == 'S' && g[x + 1][y + 1] == 'M')
    &&& (g[x - 1][y + 1] == 'M' && g[x + 1][y - 1] == 'S') || (g[x - 1][y + 1] == 'S' && g[x + 1][y - 1] == 'M')
}

/// Whether an `A` at (x, y) is crossed by two diagonal `MAS`, each either way round.
pub fn check_x_mas(grid: &Vec<Vec<char>>, x: usize, y: usize) -> (r: bool)
    requires
        1 <= x,
        x + 1 < grid@.len(),
        1 <= y,
        forall|i: int| x - 1 <= i <= x + 1 ==> y + 1 < (#[trigger] grid@[i])@.len(),
    ensures
        r == is_x_mas(grid_of(grid), x as int, y as int),
{
    let ghost g = grid_of(grid);
    assert(g[x - 1] == grid@[x - 1]@ && g[x as int] == grid@[x as int]@ && g[x + 1] == grid@[x + 1]@);
    assert(y + 1 < grid@[x - 1]@.len() && y + 1 < grid@[x as int]@.len() && y + 1 < grid@[x + 1]@.len());
    let n = grid.len();
    let w = grid[x].len();
    let (xm, xp, ym, yp) = (x - 1, x + 1, y - 1, y + 1);
    let has_a = grid[x][y] == 'A';
    let has_fist_mas = (grid[xm][ym] == 'M' && grid[xp][yp] == 'S') || (grid[xm][ym] == 'S'
        && grid[xp][yp] == 'M');
    let has_second_mas = (grid[xm][yp] == 'M' && grid[xp][ym] == 'S') || (grid[xm][yp] == 'S'
        && grid[xp][ym] == 'M');
    has_a && has_fist_mas && has_second_mas
}

/// How many of the cells (x, y), 1 <= x < cols - 1, in row y of the first
/// `ys` inner rows, are crossed by two `MAS`.
pub open spec fn x_mas_rows(g: Seq<Seq<char>>, ys: int) -> int
    decreases ys,
{
    if ys <= 0 {
        0
    } else {
        x_mas_rows(g, ys - 1) + x_mas_cells(g, ys, g[0].len() - 2)
    }
}

pub open spec fn x_mas_cells(g: Seq<Seq<char>>, y: int, xs: int) -> int
    decreases xs,
{
    if xs <= 0 {
        0
    } else {
        x_mas_cells(g, y, xs - 1) + if is_x_mas(g, xs, y) {
            1int
        } else {
            0int
        }
    }
}

proof fn lemma_x_mas_cells(g: Seq<Seq<char>>, y: int, xs: int)
    requires
        0 <= xs,
    ensures
        0 <= x_mas_cells(g, y, xs) <= xs,
    decreases xs,
{
    if xs > 0 {
        lemma_x_mas_cells(g, y, xs - 1);
    }
}

proof fn lemma_x_mas_rows(g: Seq<Seq<char>>, ys: int, w: int)
    requires
        0 <= ys,
        g.len() > 0,
        w == imax(g[0].len() - 2, 0),
    ensures
        0 <= x_mas_rows(g, ys) <= ys * w,
    decreases ys,
{
    if ys > 0 {
        lemma_x_mas_rows(g, ys - 1, w);
        lemma_x_mas_cells(g, ys, w);
        assert((ys - 1) * w + w == ys * w) by (nonlinear_arith);
    }
}

/// How many `A`s away from the border are crossed by two diagonal `MAS`.
pub fn find_x_mas(grid: &Vec<Vec<char>>) -> (r: u32)
    requires
        square(grid_of(grid)),
        grid_of(grid).len() <= 0xffff,
    ensures
        r == x_mas_rows(grid_of(grid), grid_of(grid).len() - 2),
{
    let ghost g = grid_of(grid);
    assert(g[0] == grid@[0]@);
    let n = grid.len();
    let cols = grid[0].len();
    if n < 2 {
        return 0;
    }
    let mut count: u32 = 0;
    let mut y: usize = 1;
    while y < n - 1
        invariant
            g == grid_of(grid),
            square(g),
            n == g.len() <= 0xffff,
            cols == g[0].len() == n,
            2 <= n,
            1 <= y <= n - 1,
            count == x_mas_rows(g, y - 1),
        decreases n - 1 - y,
    {
        proof {
            lemma_x_mas_rows(g, y - 1, imax(n - 2, 0));
            let w = imax(n - 2, 0);
            let yy = y as int;
            let nn = n as int;
            assert((yy - 1) * w + nn <= 0xffff * 0xffff) by (nonlinear_arith)
                requires
                    1 <= yy < nn,
                    nn <= 0xffff,
                    w == nn - 2,
            ;
        }
        let mut x: usize = 1;
        while x < cols - 1
            invariant
                g == grid_of(grid),
                square(g),
                n == g.len() <= 0xffff,
                cols == g[0].len() == n,
                1 <= y < n - 1,
                1 <= x <= cols - 1,
                count == x_mas_rows(g, y - 1) + x_mas_cells(g, y as int, x - 1),
                x_mas_rows(g, y - 1) + x_mas_cells(g, y as int, x - 1) <= (y - 1) * imax(n - 2, 0) + x - 1,
                (y - 1) * imax(n - 2, 0) + n <= 0xffff * 0xffff,
            decreases cols - 1 - x,
        {
            assert forall|i: int| x - 1 <= i <= x + 1 implies y + 1 < (#[trigger] grid@[i])@.len() by {
                assert(g[i] == grid@[i]@);
            }
            proof {
                lemma_x_mas_cells(g, y as int, x - 1);
            }
            if check_x_mas(grid, x, y) {
                count = count + 1;
            }
            x = x + 1;
        }
        y = y + 1;
    }
    count
}

/// How many X-shaped `MAS` crossings the grid holds.
pub fn part_two(input: &str) -> (r: u32)
    requires
        square(lines_of(input@)),
        lines_of(input@).len() <= 0xffff,
    ensures
        r == x_mas_rows(lines_of(input@), lines_of(input@).len() - 2),
{
    let grid = parse_input(input);
    find_x_mas(&grid)
}


/// The word the first puzzle counts.
pub const WORD: &'static str = "XMAS";

/// The matches of the word summed over the lines; nothing where a search
/// gives no answer.
pub open spec fn word_count(ls: Seq<Seq<char>>) -> Option<int>
    decreases ls.len(),
{
    if ls.len() == 0 {
        Some(0)
    } else {
        match (word_count(ls.drop_last()), fancy_matches(WORD@, ls.last())) {
            (Some(a), Some(m)) => Some(a + m.len()),
            _ => None,
        }
    }
}

proof fn lemma_word_count_none(ls: Seq<Seq<char>>, i: int)
    requires
        0 <= i <= ls.len(),
        word_count(ls.take(i)) is None,
    ensures
        word_count(ls) is None,
    decreases ls.len() - i,
{
    if i < ls.len() {
        assert(ls.take(i + 1).drop_last() =~= ls.take(i));
        lemma_word_count_none(ls, i + 1);
    } else {
        assert(ls.take(i) =~= ls);
    }
}

proof fn lemma_word_count_grows(ls: Seq<Seq<char>>, i: int)
    requires
        0 <= i <= ls.len(),
        word_count(ls.take(i)) matches Some(t) && t > u32::MAX,
    ensures
        match word_count(ls) {
            Some(t) => t > u32::MAX,
            None => true,
        },
    decreases ls.len() - i,
{
    if i < ls.len() {
        assert(ls.take(i + 1).drop_last() =~= ls.take(i));
        if fancy_matches(WORD@, ls.take(i + 1).last()) is Some {
            lemma_word_count_grows(ls, i + 1);
        } else {
            lemma_word_count_none(ls, i + 1);
        }
    } else {
        assert(ls.take(i) =~= ls);
    }
}

/// How often the word occurs over the lines; nothing where a search gives no
/// answer or the count exceeds `u32`.
pub fn count_occurences(list: &Vec<String>) -> (r: Option<u32>)
    ensures
        r matches Some(v) ==> word_count(strings(list@)) == Some(v as int),
        r is None ==> match word_count(strings(list@)) {
            Some(t) => t > u32::MAX,
            None => true,
        },
{
    let ghost ls = strings(list@);
    let mut sum: u32 = 0;
    let mut i: usize = 0;
    while i < list.len()
        invariant
            ls == strings(list@),
            i <= list@.len(),
            word_count(ls.take(i as int)) == Some(sum as int),
        decreases list@.len() - i,
    {
        proof {
            assert(ls.take(i + 1).drop_last() =~= ls.take(i as int));
            assert(ls.take(i + 1).last() == list@[i as int]@);
        }
        match fancy_find_all(WORD, list[i].as_str()) {
            Some(found) => {
                if found.len() > u32::MAX as usize - sum as usize {
                    proof {
                        lemma_word_count_grows(ls, i + 1);
                    }
                    return None;
                }
                sum = sum + found.len() as u32;
            },
            None => {
                proof {
                    lemma_word_count_none(ls, i + 1);
                }
                return None;
            },
        }
        i = i + 1;
    }
    assert(ls.take(i as int) =~= ls);
    Some(sum)
}

/// How often the word occurs along rows, columns and diagonals, either way.
pub fn part_one(input: &str) -> (r: Option<u32>)
    requires
        square(lines_of(input@)),
    ensures
        r matches Some(v) ==> word_count(all_lines(lines_of(input@))) == Some(v as int),
        r is None ==> match word_count(all_lines(lines_of(input@))) {
            Some(t) => t > u32::MAX,
            None => true,
        },
{
    let grid = parse_input(input);
    let list = get_lines(grid);
    count_occurences(&list)
}

/// Every row, column and diagonal, each forwards and backwards.
pub open spec fn all_lines(g: Seq<Seq<char>>) -> Seq<Seq<char>> {
    both_ways(g) + both_ways(verticals(g)) + both_ways(risings(g) + fallings(g))
}

} // verus!
