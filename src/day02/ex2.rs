use vstd::prelude::*;

use crate::text::{chars_of, lines_of, numbers, numbers_fit, read_u32s, split_lines, u32s};

verus! {

pub open spec fn strictly_dec(l: Seq<u32>) -> bool {
    forall|i: int| 0 <= i < l.len() - 1 ==> #[trigger] l[i] > l[i + 1]
}

pub open spec fn strictly_inc(l: Seq<u32>) -> bool {
    forall|i: int| 0 <= i < l.len() - 1 ==> #[trigger] l[i] < l[i + 1]
}

pub open spec fn close_steps(l: Seq<u32>) -> bool {
    forall|i: int| 0 <= i < l.len() - 1 ==> #[trigger] abs_diff(l[i], l[i + 1]) <= 3
}

pub open spec fn abs_diff(a: u32, b: u32) -> int {
    if a >= b {
        a - b
    } else {
        b - a
    }
}

/// A report is safe when it only rises or only falls, by at most three each step.
pub open spec fn is_safe(l: Seq<u32>) -> bool {
    close_steps(l) && (strictly_inc(l) || strictly_dec(l))
}

/// A report is safe once at most one level is removed.
pub open spec fn is_safe_dampened(l: Seq<u32>) -> bool {
    is_safe(l) || exists|i: int| 0 <= i < l.len() && is_safe(#[trigger] l.remove(i))
}

pub open spec fn count_safe(ls: Seq<Seq<u32>>) -> nat
    decreases ls.len(),
{
    if ls.len() == 0 {
        0
    } else {
        count_safe(ls.drop_last()) + if is_safe(ls.last()) {
            1nat
        } else {
            0nat
        }
    }
}

pub open spec fn count_safe_dampened(ls: Seq<Seq<u32>>) -> nat
    decreases ls.len(),
{
    if ls.len() == 0 {
        0
    } else {
        count_safe_dampened(ls.drop_last()) + if is_safe_dampened(ls.last()) {
            1nat
        } else {
            0nat
        }
    }
}

pub open spec fn reports(levels: &Vec<Vec<u32>>) -> Seq<Seq<u32>> {
    levels@.map_values(|l: Vec<u32>| l@)
}

/// The numbers of one line.
pub fn parse_line(line: &str) -> (r: Vec<u32>)
    requires
        numbers_fit(line@, u32::MAX as int),
    ensures
        u32s(r@) == numbers(line@),
{
    let cs = chars_of(line);
    read_u32s(&cs)
}

/// The numbers of each line.
pub fn parse_input(input: &str) -> (r: Vec<Vec<u32>>)
    requires
        forall|i: int| 0 <= i < lines_of(input@).len() ==> numbers_fit(#[trigger] lines_of(input@)[i], u32::MAX as int),
    ensures
        r@.len() == lines_of(input@).len(),
        forall|i: int| 0 <= i < r@.len() ==> u32s(#[trigger] r@[i]@) == numbers(lines_of(input@)[i]),
{
    let lines = split_lines(input);
    let mut r: Vec<Vec<u32>> = Vec::new();
    let mut i: usize = 0;
    while i < lines.len()
        invariant
            lines@.map_values(|l: Vec<char>| l@) == lines_of(input@),
            forall|i: int| 0 <= i < lines_of(input@).len() ==> numbers_fit(#[trigger] lines_of(input@)[i], u32::MAX as int),
            i <= lines@.len(),
            r@.len() == i,
            forall|k: int| 0 <= k < i ==> u32s(#[trigger] r@[k]@) == numbers(lines_of(input@)[k]),
        decreases lines@.len() - i,
    {
        assert(lines_of(input@)[i as int] == lines@[i as int]@);
        let v = read_u32s(&lines[i]);
        r.push(v);
        i = i + 1;
    }
    r
}

pub fn is_monotonic_dec(level: &Vec<u32>) -> (r: bool)
    ensures
        r == strictly_dec(level@),
{
    let mut i: usize = 1;
    while i < level.len()
        invariant
            1 <= i,
            forall|k: int| 0 <= k < i - 1 && k < level@.len() - 1 ==> #[trigger] level@[k] > level@[k + 1],
        decreases level@.len() - i,
    {
        if !(level[i - 1] > level[i]) {
            return false;
        }
        i = i + 1;
    }
    true
}

pub fn is_monotonic_inc(level: &Vec<u32>) -> (r: bool)
    ensures
        r == strictly_inc(level@),
{
    let mut i: usize = 1;
    while i < level.len()
        invariant
            1 <= i,
            forall|k: int| 0 <= k < i - 1 && k < level@.len() - 1 ==> #[trigger] level@[k] < level@[k + 1],
        decreases level@.len() - i,
    {
        if !(level[i - 1] < level[i]) {
            return false;
        }
        i = i + 1;
    }
    true
}

pub fn at_most_three_apart(level: &Vec<u32>) -> (r: bool)
    ensures
        r == close_steps(level@),
{
    let mut i: usize = 1;
    while i < level.len()
        invariant
            1 <= i,
            forall|k: int| 0 <= k < i - 1 && k < level@.len() - 1 ==> #[trigger] abs_diff(level@[k], level@[k + 1]) <= 3,
        decreases level@.len() - i,
    {
        let a = level[i - 1];
        let b = level[i];
        let d = if a >= b {
            a - b
        } else {
            b - a
        };
        if d > 3 {
            assert(abs_diff(level@[(i - 1) as int], level@[(i - 1) + 1]) > 3);
            return false;
        }
        i = i + 1;
    }
    true
}

pub fn check_level(level: &Vec<u32>) -> (r: bool)
    ensures
        r == is_safe(level@),
{
    at_most_three_apart(&level) && (is_monotonic_inc(&level) || is_monotonic_dec(&level))
}

/// How many reports are safe.
pub fn part_one(levels: &Vec<Vec<u32>>) -> (r: u32)
    requires
        levels@.len() <= u32::MAX,
    ensures
        r == count_safe(reports(levels)),
{
    let mut count: u32 = 0;
    let mut i: usize = 0;
    while i < levels.len()
        invariant
            i <= levels@.len() <= u32::MAX,
            count <= i,
            count == count_safe(reports(levels).take(i as int)),
        decreases levels@.len() - i,
    {
        assert(reports(levels).take(i + 1).drop_last() =~= reports(levels).take(i as int));
        if check_level(&levels[i]) {
            count = count + 1;
        }
        i = i + 1;
    }
    assert(reports(levels).take(i as int) =~= reports(levels));
    count
}

fn without(vec: &Vec<u32>, i: usize) -> (r: Vec<u32>)
    requires
        i < vec@.len(),
    ensures
        r@ == vec@.remove(i as int),
{
    let mut r: Vec<u32> = Vec::new();
    let mut j: usize = 0;
    while j < vec.len()
        invariant
            i < vec@.len(),
            j <= vec@.len(),
            r@ == (if j <= i {
                vec@.take(j as int)
            } else {
                vec@.take(j as int).remove(i as int)
            }),
        decreases vec@.len() - j,
    {
        if j != i {
            r.push(vec[j]);
        }
        j = j + 1;
        assert(r@ =~= (if j <= i {
            vec@.take(j as int)
        } else {
            vec@.take(j as int).remove(i as int)
        }));
    }
    assert(vec@.take(j as int) =~= vec@);
    r
}

/// Each report with one level removed, for each level in turn, and last the
/// report itself.
pub fn generate_subvecs_functional(vec: &Vec<u32>) -> (r: Vec<Vec<u32>>)
    ensures
        r@.len() == vec@.len() + 1,
        forall|i: int| 0 <= i < vec@.len() ==> (#[trigger] r@[i])@ == vec@.remove(i),
        r@[vec@.len() as int]@ == vec@,
{
    let mut r: Vec<Vec<u32>> = Vec::new();
    let mut i: usize = 0;
    while i < vec.len()
        invariant
            i <= vec@.len(),
            r@.len() == i,
            forall|k: int| 0 <= k < i ==> (#[trigger] r@[k])@ == vec@.remove(k),
        decreases vec@.len() - i,
    {
        r.push(without(vec, i));
        i = i + 1;
    }
    r.push(without_none(vec));
    r
}

fn without_none(vec: &Vec<u32>) -> (r: Vec<u32>)
    ensures
        r@ == vec@,
{
    let mut r: Vec<u32> = Vec::new();
    let mut j: usize = 0;
    while j < vec.len()
        invariant
            j <= vec@.len(),
            r@ == vec@.take(j as int),
        decreases vec@.len() - j,
    {
        r.push(vec[j]);
        j = j + 1;
        assert(r@ =~= vec@.take(j as int));
    }
    assert(vec@.take(j as int) =~= vec@);
    r
}

/// How many reports are safe once at most one level is removed.
pub fn part_two(levels: &Vec<Vec<u32>>) -> (r: u32)
    requires
        levels@.len() <= u32::MAX,
    ensures
        r == count_safe_dampened(reports(levels)),
{
    let mut count: u32 = 0;
    let mut i: usize = 0;
    while i < levels.len()
        invariant
            i <= levels@.len() <= u32::MAX,
            count <= i,
            count == count_safe_dampened(reports(levels).take(i as int)),
        decreases levels@.len() - i,
    {
        assert(reports(levels).take(i + 1).drop_last() =~= reports(levels).take(i as int));
        let level = &levels[i];
        let subs = generate_subvecs_functional(level);
        let mut j: usize = 0;
        while j < subs.len()
            invariant
                j <= subs@.len(),
                forall|k: int| 0 <= k < j ==> !is_safe((#[trigger] subs@[k])@),
            ensures
                j <= subs@.len(),
                forall|k: int| 0 <= k < j ==> !is_safe((#[trigger] subs@[k])@),
                j < subs@.len() ==> is_safe(subs@[j as int]@),
            decreases subs@.len() - j,
        {
            if check_level(&subs[j]) {
                break;
            }
            j = j + 1;
        }
        let any = j < subs.len();
        proof {
            if any {
                if j < level@.len() {
                    assert(is_safe(level@.remove(j as int)));
                }
            } else {
                assert(is_safe(level@) == is_safe(subs@[level@.len() as int]@));
                assert forall|k: int| 0 <= k < level@.len() implies !is_safe(#[trigger] level@.remove(k)) by {
                    assert(subs@[k]@ == level@.remove(k));
                    assert(!is_safe(subs@[k]@));
                }
            }
        }
        if any {
            count = count + 1;
        }
        i = i + 1;
    }
    assert(reports(levels).take(i as int) =~= reports(levels));
    count
}

} // verus!
