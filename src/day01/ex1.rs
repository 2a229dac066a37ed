use vstd::prelude::*;

use crate::text::{chars_of, lines_of, numbers, numbers_fit, read_u32s, split_lines, u32s};

verus! {

broadcast use vstd::std_specs::hash::group_hash_axioms;

/// Every line holds at least two numbers, each fitting in `u32`.
pub open spec fn pair_lines(s: Seq<char>) -> bool {
    forall|i: int|
        0 <= i < lines_of(s).len() ==> numbers_fit(#[trigger] lines_of(s)[i], u32::MAX as int)
            && numbers(lines_of(s)[i]).len() >= 2
}

/// The `k`-th number of each line.
pub open spec fn column(s: Seq<char>, k: int) -> Seq<int> {
    lines_of(s).map_values(|l: Seq<char>| numbers(l)[k])
}

pub open spec fn abs_diff(a: int, b: int) -> int {
    if a >= b {
        a - b
    } else {
        b - a
    }
}

/// The summed distance of the first `n` pairs.
pub open spec fn distance_sum(l: Seq<u32>, r: Seq<u32>, n: int) -> int
    decreases n,
{
    if n <= 0 {
        0
    } else {
        distance_sum(l, r, n - 1) + abs_diff(l[n - 1] as int, r[n - 1] as int)
    }
}

pub open spec fn min_len(l: Seq<u32>, r: Seq<u32>) -> int {
    if l.len() <= r.len() {
        l.len() as int
    } else {
        r.len() as int
    }
}

/// How often `x` occurs in `r`.
pub open spec fn count_of(r: Seq<u32>, x: u32) -> int
    decreases r.len(),
{
    if r.len() == 0 {
        0
    } else {
        count_of(r.drop_last(), x) + if r.last() == x {
            1int
        } else {
            0int
        }
    }
}

/// Each value of the first `n` of `l`, times how often it occurs in `r`, summed.
pub open spec fn similarity(l: Seq<u32>, r: Seq<u32>, n: int) -> int
    decreases n,
{
    if n <= 0 {
        0
    } else {
        similarity(l, r, n - 1) + l[n - 1] * count_of(r, l[n - 1])
    }
}

pub fn parse_line(line: &str) -> (r: Vec<u32>)
    requires
        numbers_fit(line@, u32::MAX as int),
    ensures
        u32s(r@) == numbers(line@),
{
    let cs = chars_of(line);
    read_u32s(&cs)
}

/// The first and the second number of each line, as two lists.
pub fn parse_input_tuple(input: &str) -> (r: (Vec<u32>, Vec<u32>))
    requires
        pair_lines(input@),
    ensures
        u32s(r.0@) == column(input@, 0),
        u32s(r.1@) == column(input@, 1),
{
    let lines = split_lines(input);
    let mut left: Vec<u32> = Vec::new();
    let mut right: Vec<u32> = Vec::new();
    let mut i: usize = 0;
    while i < lines.len()
        invariant
            lines@.map_values(|l: Vec<char>| l@) == lines_of(input@),
            pair_lines(input@),
            i <= lines@.len(),
            u32s(left@) == column(input@, 0).take(i as int),
            u32s(right@) == column(input@, 1).take(i as int),
        decreases lines@.len() - i,
    {
        assert(lines_of(input@)[i as int] == lines@[i as int]@);
        let ints = read_u32s(&lines[i]);
        assert(ints@[0] as int == u32s(ints@)[0] && ints@[1] as int == u32s(ints@)[1]);
        let ghost l0 = left@;
        let ghost r0 = right@;
        left.push(ints[0]);
        right.push(ints[1]);
        assert(u32s(left@) =~= u32s(l0).push(ints@[0] as int));
        assert(u32s(right@) =~= u32s(r0).push(ints@[1] as int));
        i = i + 1;
        assert(u32s(left@) =~= column(input@, 0).take(i as int));
        assert(u32s(right@) =~= column(input@, 1).take(i as int));
    }
    assert(column(input@, 0).take(i as int) =~= column(input@, 0));
    assert(column(input@, 1).take(i as int) =~= column(input@, 1));
    (left, right)
}

/// The same two lists as `parse_input_tuple`, held in one list.
pub fn parse_input_vec(input: &str) -> (r: Vec<Vec<u32>>)
    requires
        pair_lines(input@),
    ensures
        r@.len() == 2,
        u32s(r@[0]@) == column(input@, 0),
        u32s(r@[1]@) == column(input@, 1),
{
    let (left, right) = parse_input_tuple(input);
    let mut v: Vec<Vec<u32>> = Vec::new();
    v.push(left);
    v.push(right);
    v
}

/// The summed distance of the pairs at equal indices.
pub fn part1(left: &Vec<u32>, right: &Vec<u32>) -> (r: u32)
    requires
        distance_sum(left@, right@, min_len(left@, right@)) <= u32::MAX,
    ensures
        r == distance_sum(left@, right@, min_len(left@, right@)),
{
    let n: usize = if left.len() <= right.len() {
        left.len()
    } else {
        right.len()
    };
    let mut total: u32 = 0;
    let mut i: usize = 0;
    while i < n
        invariant
            n == min_len(left@, right@),
            n <= left@.len() && n <= right@.len(),
            i <= n,
            total == distance_sum(left@, right@, i as int),
            distance_sum(left@, right@, n as int) <= u32::MAX,
        decreases n - i,
    {
        proof {
            lemma_distance_sum_mono(left@, right@, i + 1, n as int);
        }
        let a = left[i];
        let b = right[i];
        let d = if a >= b {
            a - b
        } else {
            b - a
        };
        total = total + d;
        i = i + 1;
    }
    total
}

proof fn lemma_distance_sum_mono(l: Seq<u32>, r: Seq<u32>, i: int, n: int)
    requires
        0 <= i <= n,
    ensures
        0 <= distance_sum(l, r, i) <= distance_sum(l, r, n),
    decreases n,
{
    if i < n {
        lemma_distance_sum_mono(l, r, i, n - 1);
    } else if n > 0 {
        lemma_distance_sum_mono(l, r, n - 1, n - 1);
    }
}

proof fn lemma_similarity_mono(l: Seq<u32>, r: Seq<u32>, i: int, n: int)
    requires
        0 <= i <= n,
    ensures
        0 <= similarity(l, r, i) <= similarity(l, r, n),
    decreases n,
{
    if n > 0 {
        if i < n {
            lemma_similarity_mono(l, r, i, n - 1);
        } else {
            lemma_similarity_mono(l, r, n - 1, n - 1);
        }
        lemma_count_nonneg(r, l[n - 1]);
        assert(l[n - 1] * count_of(r, l[n - 1]) >= 0) by (nonlinear_arith)
            requires
                count_of(r, l[n - 1]) >= 0,
                l[n - 1] >= 0,
        ;
    }
}

proof fn lemma_count_nonneg(r: Seq<u32>, x: u32)
    ensures
        0 <= count_of(r, x) <= r.len(),
    decreases r.len(),
{
    if r.len() > 0 {
        lemma_count_nonneg(r.drop_last(), x);
    }
}

/// How often each value of `right` occurs, keyed by value.
fn occurrences(right: &Vec<u32>) -> (m: std::collections::HashMap<u32, u32>)
    requires
        right@.len() <= u32::MAX,
    ensures
        forall|x: u32| #[trigger] m@.contains_key(x) ==> m@[x] == count_of(right@, x),
        forall|x: u32| !#[trigger] m@.contains_key(x) ==> count_of(right@, x) == 0,
{
    let mut m: std::collections::HashMap<u32, u32> = std::collections::HashMap::new();
    let mut i: usize = 0;
    while i < right.len()
        invariant
            i <= right@.len() <= u32::MAX,
            forall|x: u32| #[trigger] m@.contains_key(x) ==> m@[x] == count_of(right@.take(i as int), x),
            forall|x: u32| !#[trigger] m@.contains_key(x) ==> count_of(right@.take(i as int), x) == 0,
        decreases right@.len() - i,
    {
        let v = right[i];
        proof {
            assert(right@.take(i + 1).drop_last() =~= right@.take(i as int));
            lemma_count_nonneg(right@.take(i as int), v);
        }
        let c: u32 = match m.get(&v) {
            Some(c) => *c,
            None => 0,
        };
        m.insert(v, c + 1);
        i = i + 1;
        proof {
            assert forall|x: u32| #[trigger] m@.contains_key(x) implies m@[x] == count_of(right@.take(i as int), x) by {
                assert(right@.take(i as int).drop_last() =~= right@.take(i - 1));
            }
            assert forall|x: u32| !#[trigger] m@.contains_key(x) implies count_of(right@.take(i as int), x) == 0 by {
                assert(right@.take(i as int).drop_last() =~= right@.take(i - 1));
            }
        }
    }
    assert(right@.take(i as int) =~= right@);
    m
}

/// Each value of `left` times how often it occurs in `right`, summed.
pub fn part2(left: &Vec<u32>, right: &Vec<u32>) -> (r: u32)
    requires
        right@.len() <= u32::MAX,
        similarity(left@, right@, left@.len() as int) <= u32::MAX,
    ensures
        r == similarity(left@, right@, left@.len() as int),
{
    let m = occurrences(right);
    let mut total: u32 = 0;
    let mut i: usize = 0;
    while i < left.len()
        invariant
            i <= left@.len(),
            forall|x: u32| #[trigger] m@.contains_key(x) ==> m@[x] == count_of(right@, x),
            forall|x: u32| !#[trigger] m@.contains_key(x) ==> count_of(right@, x) == 0,
            total == similarity(left@, right@, i as int),
            similarity(left@, right@, left@.len() as int) <= u32::MAX,
        decreases left@.len() - i,
    {
        proof {
            lemma_similarity_mono(left@, right@, i + 1, left@.len() as int);
        }
        let x = left[i];
        let c: u32 = match m.get(&x) {
            Some(c) => *c,
            None => 0,
        };
        assert(c == count_of(right@, x));
        proof {
            lemma_count_nonneg(right@, x);
            assert(x * c <= u32::MAX) by (nonlinear_arith)
                requires
                    total + x * c <= u32::MAX,
                    total >= 0,
            ;
        }
        total = total + x * c;
        i = i + 1;
    }
    total
}

} // verus!
