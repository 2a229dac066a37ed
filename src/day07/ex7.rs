use vstd::prelude::*;

use crate::text::{chars_of, lines_of, numbers, numbers_fit, read_u64s, split_lines, u64s};

verus! {

pub open spec fn pow10(n: nat) -> nat
    decreases n,
{
    if n == 0 {
        1
    } else {
        10 * pow10((n - 1) as nat)
    }
}

/// How many decimal digits `b` is written with.
pub open spec fn ndigits(b: nat) -> nat
    decreases b,
{
    if b < 10 {
        1
    } else {
        1 + ndigits(b / 10)
    }
}

/// The digits of `b` written after those of `a`.
pub open spec fn concat_value(a: int, b: int) -> int {
    a * pow10(ndigits(b as nat)) + b
}

/// Whether `vals`, combined left to right onto `sum` by `+` and `*`, can
/// give `goal`. A partial result above the goal is dropped.
pub open spec fn solvable_one(goal: int, sum: int, vals: Seq<int>) -> bool
    decreases vals.len(),
{
    if vals.len() == 0 || sum > goal {
        goal == sum
    } else {
        solvable_one(goal, sum + vals[0], vals.drop_first()) || solvable_one(
            goal,
            sum * vals[0],
            vals.drop_first(),
        )
    }
}

/// As `solvable_one`, with concatenation of digits as a third operator.
pub open spec fn solvable_two(goal: int, sum: int, vals: Seq<int>) -> bool
    decreases vals.len(),
{
    if vals.len() == 0 || sum > goal {
        goal == sum
    } else {
        solvable_two(goal, sum + vals[0], vals.drop_first()) || solvable_two(
            goal,
            sum * vals[0],
            vals.drop_first(),
        ) || solvable_two(goal, concat_value(sum, vals[0]), vals.drop_first())
    }
}

/// Whether some choice of `+` or `*` between the values, applied left to
/// right onto `sum`, gives `goal`.
pub open spec fn reaches_one(goal: int, sum: int, vals: Seq<int>) -> bool
    decreases vals.len(),
{
    if vals.len() == 0 {
        goal == sum
    } else {
        reaches_one(goal, sum + vals[0], vals.drop_first()) || reaches_one(
            goal,
            sum * vals[0],
            vals.drop_first(),
        )
    }
}

/// As `reaches_one`, with concatenation of digits as a third operator.
pub open spec fn reaches_two(goal: int, sum: int, vals: Seq<int>) -> bool
    decreases vals.len(),
{
    if vals.len() == 0 {
        goal == sum
    } else {
        reaches_two(goal, sum + vals[0], vals.drop_first()) || reaches_two(
            goal,
            sum * vals[0],
            vals.drop_first(),
        ) || reaches_two(goal, concat_value(sum, vals[0]), vals.drop_first())
    }
}

pub open spec fn all_positive(vals: Seq<int>) -> bool {
    forall|i: int| 0 <= i < vals.len() ==> #[trigger] vals[i] >= 1
}

proof fn lemma_pow10_positive(n: nat)
    ensures
        pow10(n) >= 1,
    decreases n,
{
    if n > 0 {
        lemma_pow10_positive((n - 1) as nat);
    }
}

/// No operator makes a non-negative total smaller than a positive value.
proof fn lemma_steps_grow(sum: int, v: int)
    requires
        sum >= 0,
        v >= 1,
    ensures
        sum + v >= sum,
        sum * v >= sum,
        concat_value(sum, v) >= sum,
{
    lemma_pow10_positive(ndigits(v as nat));
    let p = pow10(ndigits(v as nat)) as int;
    assert(sum * v >= sum) by (nonlinear_arith)
        requires
            sum >= 0,
            v >= 1,
    ;
    assert(sum * p >= sum) by (nonlinear_arith)
        requires
            sum >= 0,
            p >= 1,
    ;
}

proof fn lemma_rest_positive(vals: Seq<int>)
    requires
        vals.len() > 0,
        all_positive(vals),
    ensures
        all_positive(vals.drop_first()),
        vals[0] >= 1,
{
    assert forall|i: int| 0 <= i < vals.drop_first().len() implies #[trigger] vals.drop_first()[i] >= 1 by {
        assert(vals.drop_first()[i] == vals[i + 1]);
    }
}

proof fn lemma_overshoot(goal: int, sum: int, vals: Seq<int>)
    requires
        0 <= goal < sum,
        all_positive(vals),
    ensures
        !reaches_one(goal, sum, vals),
        !reaches_two(goal, sum, vals),
    decreases vals.len(),
{
    if vals.len() > 0 {
        lemma_rest_positive(vals);
        lemma_steps_grow(sum, vals[0]);
        lemma_overshoot(goal, sum + vals[0], vals.drop_first());
        lemma_overshoot(goal, sum * vals[0], vals.drop_first());
        lemma_overshoot(goal, concat_value(sum, vals[0]), vals.drop_first());
    }
}

/// For positive values, dropping partial results above the goal loses no
/// solution: the search holds exactly when some choice of operators reaches
/// the goal.
pub proof fn lemma_solvable_exact(goal: int, sum: int, vals: Seq<int>)
    requires
        goal >= 0,
        sum >= 0,
        all_positive(vals),
    ensures
        solvable_one(goal, sum, vals) == reaches_one(goal, sum, vals),
        solvable_two(goal, sum, vals) == reaches_two(goal, sum, vals),
    decreases vals.len(),
{
    if vals.len() > 0 {
        if sum > goal {
            lemma_overshoot(goal, sum, vals);
        } else {
            lemma_rest_positive(vals);
            lemma_steps_grow(sum, vals[0]);
            lemma_solvable_exact(goal, sum + vals[0], vals.drop_first());
            lemma_solvable_exact(goal, sum * vals[0], vals.drop_first());
            lemma_solvable_exact(goal, concat_value(sum, vals[0]), vals.drop_first());
        }
    }
}

/// Each line's numbers: a test value, then its operands.
pub open spec fn equations(s: Seq<char>) -> Seq<Seq<int>> {
    lines_of(s).map_values(|l: Seq<char>| numbers(l))
}

/// Every line holds at least one number, and each fits in `u64`.
pub open spec fn well_formed_input(s: Seq<char>) -> bool {
    forall|i: int|
        0 <= i < lines_of(s).len() ==> numbers_fit(#[trigger] lines_of(s)[i], u64::MAX as int)
            && numbers(lines_of(s)[i]).len() >= 1
}

pub open spec fn goal_sum(eqs: Seq<Seq<int>>) -> int
    decreases eqs.len(),
{
    if eqs.len() == 0 {
        0
    } else {
        goal_sum(eqs.drop_last()) + eqs.last()[0]
    }
}

pub open spec fn total_one(eqs: Seq<Seq<int>>) -> int
    decreases eqs.len(),
{
    if eqs.len() == 0 {
        0
    } else {
        total_one(eqs.drop_last()) + if solvable_one(eqs.last()[0], 0, eqs.last().drop_first()) {
            eqs.last()[0]
        } else {
            0
        }
    }
}

pub open spec fn total_two(eqs: Seq<Seq<int>>) -> int
    decreases eqs.len(),
{
    if eqs.len() == 0 {
        0
    } else {
        total_two(eqs.drop_last()) + if solvable_two(eqs.last()[0], 0, eqs.last().drop_first()) {
            eqs.last()[0]
        } else {
            0
        }
    }
}

proof fn lemma_goal_sum_prefix(eqs: Seq<Seq<int>>, i: int)
    requires
        0 <= i <= eqs.len(),
        forall|k: int| 0 <= k < eqs.len() ==> (#[trigger] eqs[k])[0] >= 0,
    ensures
        goal_sum(eqs.take(i)) <= goal_sum(eqs),
    decreases eqs.len(),
{
    if i < eqs.len() {
        lemma_goal_sum_prefix(eqs.drop_last(), i);
        assert(eqs.drop_last().take(i) =~= eqs.take(i));
        assert(eqs.last() == eqs[eqs.len() - 1]);
    } else {
        assert(eqs.take(i) =~= eqs);
    }
}

pub fn add(a: u64, b: u64) -> (r: u64)
    requires
        a + b <= u64::MAX,
    ensures
        r == a + b,
{
    a + b
}

pub fn multiply(a: u64, b: u64) -> (r: u64)
    requires
        a * b <= u64::MAX,
    ensures
        r == a * b,
{
    a * b
}

fn checked_concat(a: u64, b: u64) -> (r: Option<u64>)
    ensures
        r == (if concat_value(a as int, b as int) <= u64::MAX {
            Some(concat_value(a as int, b as int) as u64)
        } else {
            None
        }),
{
    let mut p: u128 = 10;
    let mut t: u64 = b;
    proof {
        assert(pow10(1) == 10) by {
            assert(pow10(0) == 1);
        }
    }
    while t >= 10
        invariant
            ndigits(t as nat) >= 1,
            p * pow10((ndigits(t as nat) - 1) as nat) == pow10(ndigits(b as nat)),
            p * t <= 10 * b,
            p >= 10,
            p <= 10 * (b as int) + 10,
        decreases t,
    {
        let ghost n = ndigits(t as nat);
        let ghost m = ndigits((t / 10) as nat);
        assert(n == 1 + m);
        assert(m >= 1) by {
            if t / 10 >= 10 {
            }
        }
        let ghost q = pow10((m - 1) as nat);
        assert(pow10(m) == 10 * q);
        assert(p * pow10(m) == (p * 10) * q) by (nonlinear_arith)
            requires
                pow10(m) == 10 * q,
        ;
        let ghost pi = p as int;
        let ghost ti = t as int;
        assert((pi * 10) * (ti / 10) <= pi * ti) by (nonlinear_arith)
            requires
                pi >= 0,
                ti >= 10,
        ;
        assert(pi * 10 <= (pi * 10) * (ti / 10)) by (nonlinear_arith)
            requires
                pi >= 0,
                ti >= 10,
        ;
        p = p * 10;
        t = t / 10;
    }
    proof {
        assert(ndigits(t as nat) == 1);
        assert(pow10(0) == 1);
        assert(((ndigits(t as nat) - 1) as nat) == 0);
        assert(pow10((ndigits(t as nat) - 1) as nat) == 1);
        assert(p * 1 == p);
        assert(p == pow10(ndigits(b as nat)));
    }
    let big = (a as u128).checked_mul(p);
    match big {
        Some(x) => {
            assert(x == a * pow10(ndigits(b as nat)));
            if x <= u64::MAX as u128 - b as u128 {
                Some((x + b as u128) as u64)
            } else {
                None
            }
        },
        None => {
            assert(a * p > u64::MAX) by (nonlinear_arith)
                requires
                    a * p > u128::MAX,
            ;
            None
        },
    }
}

/// The digits of `b` written after those of `a`, read as one number.
pub fn concat(a: u64, b: u64) -> (r: u64)
    requires
        concat_value(a as int, b as int) <= u64::MAX,
    ensures
        r == concat_value(a as int, b as int),
{
    match checked_concat(a, b) {
        Some(v) => v,
        None => 0,
    }
}

fn rest_of(values: &Vec<u64>) -> (r: Vec<u64>)
    requires
        values@.len() > 0,
    ensures
        r@ == values@.drop_first(),
{
    let mut r: Vec<u64> = Vec::new();
    let mut j: usize = 1;
    while j < values.len()
        invariant
            1 <= j <= values@.len(),
            r@ == values@.subrange(1, j as int),
        decreases values@.len() - j,
    {
        r.push(values[j]);
        j = j + 1;
        assert(r@ =~= values@.subrange(1, j as int));
    }
    assert(values@.subrange(1, j as int) =~= values@.drop_first());
    r
}

proof fn lemma_over_goal(goal: int, sum: int, vals: Seq<int>)
    requires
        sum > goal,
    ensures
        !solvable_one(goal, sum, vals),
        !solvable_two(goal, sum, vals),
{
}

pub fn is_solvable_one(goal: u64, sum: u64, values: &Vec<u64>) -> (r: bool)
    ensures
        r == solvable_one(goal as int, sum as int, u64s(values@)),
    decreases values@.len(),
{
    if values.len() == 0 || sum > goal {
        return goal == sum;
    }
    let remaining_vals = rest_of(values);
    let cur_val = values[0];
    assert(u64s(values@).drop_first() =~= u64s(remaining_vals@));
    let by_add = match sum.checked_add(cur_val) {
        Some(s) => is_solvable_one(goal, s, &remaining_vals),
        None => {
            proof {
                lemma_over_goal(goal as int, sum + cur_val, u64s(remaining_vals@));
            }
            false
        },
    };
    if by_add {
        return true;
    }
    match sum.checked_mul(cur_val) {
        Some(s) => is_solvable_one(goal, s, &remaining_vals),
        None => {
            proof {
                lemma_over_goal(goal as int, sum * cur_val, u64s(remaining_vals@));
            }
            false
        },
    }
}

pub fn has_solution_one(eq: &(u64, Vec<u64>)) -> (r: bool)
    ensures
        r == solvable_one(eq.0 as int, 0, u64s(eq.1@)),
{
    is_solvable_one(eq.0, 0, &eq.1)
}

pub fn is_solvable_two(goal: u64, sum: u64, values: &Vec<u64>) -> (r: bool)
    ensures
        r == solvable_two(goal as int, sum as int, u64s(values@)),
    decreases values@.len(),
{
    if values.len() == 0 || sum > goal {
        return goal == sum;
    }
    let remaining_vals = rest_of(values);
    let cur_val = values[0];
    assert(u64s(values@).drop_first() =~= u64s(remaining_vals@));
    let by_add = match sum.checked_add(cur_val) {
        Some(s) => is_solvable_two(goal, s, &remaining_vals),
        None => {
            proof {
                lemma_over_goal(goal as int, sum + cur_val, u64s(remaining_vals@));
            }
            false
        },
    };
    if by_add {
        return true;
    }
    let by_mul = match sum.checked_mul(cur_val) {
        Some(s) => is_solvable_two(goal, s, &remaining_vals),
        None => {
            proof {
                lemma_over_goal(goal as int, sum * cur_val, u64s(remaining_vals@));
            }
            false
        },
    };
    if by_mul {
        return true;
    }
    match checked_concat(sum, cur_val) {
        Some(s) => is_solvable_two(goal, s, &remaining_vals),
        None => {
            proof {
                lemma_over_goal(
                    goal as int,
                    concat_value(sum as int, cur_val as int),
                    u64s(remaining_vals@),
                );
            }
            false
        },
    }
}

pub fn has_solution_two(eq: &(u64, Vec<u64>)) -> (r: bool)
    ensures
        r == solvable_two(eq.0 as int, 0, u64s(eq.1@)),
{
    is_solvable_two(eq.0, 0, &eq.1)
}


fn equation_of(cs: &Vec<char>) -> (r: (u64, Vec<u64>))
    requires
        numbers_fit(cs@, u64::MAX as int),
        numbers(cs@).len() >= 1,
    ensures
        r.0 == numbers(cs@)[0],
        u64s(r.1@) == numbers(cs@).drop_first(),
{
    let nums = read_u64s(cs);
    assert(nums@[0] as int == u64s(nums@)[0]);
    let rest = rest_of(&nums);
    assert(u64s(rest@) =~= u64s(nums@).drop_first());
    (nums[0], rest)
}

/// A line's test value and its operands: its first number and the rest.
pub fn parse_line(line: &str) -> (r: (u64, Vec<u64>))
    requires
        numbers_fit(line@, u64::MAX as int),
        numbers(line@).len() >= 1,
    ensures
        r.0 == numbers(line@)[0],
        u64s(r.1@) == numbers(line@).drop_first(),
{
    let cs = chars_of(line);
    equation_of(&cs)
}

/// One equation per line.
pub fn parse_input(input: &str) -> (r: Vec<(u64, Vec<u64>)>)
    requires
        well_formed_input(input@),
    ensures
        r@.len() == equations(input@).len(),
        forall|i: int|
            0 <= i < r@.len() ==> (#[trigger] r@[i]).0 == equations(input@)[i][0] && u64s(r@[i].1@)
                == equations(input@)[i].drop_first(),
{
    let lines = split_lines(input);
    let mut r: Vec<(u64, Vec<u64>)> = Vec::new();
    let mut i: usize = 0;
    while i < lines.len()
        invariant
            lines@.map_values(|l: Vec<char>| l@) == lines_of(input@),
            well_formed_input(input@),
            i <= lines@.len(),
            r@.len() == i,
            forall|k: int|
                0 <= k < i ==> (#[trigger] r@[k]).0 == equations(input@)[k][0] && u64s(r@[k].1@)
                    == equations(input@)[k].drop_first(),
        decreases lines@.len() - i,
    {
        assert(lines_of(input@)[i as int] == lines@[i as int]@);
        let e = equation_of(&lines[i]);
        r.push(e);
        i = i + 1;
    }
    r
}

/// The sum of the test values of the equations that `+` and `*` can satisfy.
pub fn part_one(input: &str) -> (r: u64)
    requires
        well_formed_input(input@),
        goal_sum(equations(input@)) <= u64::MAX,
    ensures
        r == total_one(equations(input@)),
{
    let eqs = parse_input(input);
    let ghost es = equations(input@);
    let mut acc: u64 = 0;
    let mut i: usize = 0;
    while i < eqs.len()
        invariant
            eqs@.len() == es.len(),
            es == equations(input@),
            goal_sum(es) <= u64::MAX,
            forall|k: int|
                0 <= k < eqs@.len() ==> (#[trigger] eqs@[k]).0 == es[k][0] && u64s(eqs@[k].1@)
                    == es[k].drop_first(),
            i <= eqs@.len(),
            acc == total_one(es.take(i as int)),
            0 <= total_one(es.take(i as int)) <= goal_sum(es.take(i as int)),
        decreases eqs@.len() - i,
    {
        proof {
            assert(es.take(i + 1).drop_last() =~= es.take(i as int));
            assert(es.take(i + 1).last() == es[i as int]);
            assert forall|k: int| 0 <= k < es.len() implies (#[trigger] es[k])[0] >= 0 by {
                assert(eqs@[k].0 == es[k][0]);
            }
            lemma_goal_sum_prefix(es, i + 1);
        }
        let sol = has_solution_one(&eqs[i]);
        if sol {
            acc = acc + eqs[i].0;
        }
        i = i + 1;
    }
    assert(es.take(i as int) =~= es);
    acc
}

/// The sum of the test values of the equations that `+`, `*` and
/// concatenation can satisfy.
pub fn part_two(input: &str) -> (r: u64)
    requires
        well_formed_input(input@),
        goal_sum(equations(input@)) <= u64::MAX,
    ensures
        r == total_two(equations(input@)),
{
    let eqs = parse_input(input);
    let ghost es = equations(input@);
    let mut acc: u64 = 0;
    let mut i: usize = 0;
    while i < eqs.len()
        invariant
            eqs@.len() == es.len(),
            es == equations(input@),
            goal_sum(es) <= u64::MAX,
            forall|k: int|
                0 <= k < eqs@.len() ==> (#[trigger] eqs@[k]).0 == es[k][0] && u64s(eqs@[k].1@)
                    == es[k].drop_first(),
            i <= eqs@.len(),
            acc == total_two(es.take(i as int)),
            0 <= total_two(es.take(i as int)) <= goal_sum(es.take(i as int)),
        decreases eqs@.len() - i,
    {
        proof {
            assert(es.take(i + 1).drop_last() =~= es.take(i as int));
            assert(es.take(i + 1).last() == es[i as int]);
            assert forall|k: int| 0 <= k < es.len() implies (#[trigger] es[k])[0] >= 0 by {
                assert(eqs@[k].0 == es[k][0]);
            }
            lemma_goal_sum_prefix(es, i + 1);
        }
        let sol = has_solution_two(&eqs[i]);
        if sol {
            acc = acc + eqs[i].0;
        }
        i = i + 1;
    }
    assert(es.take(i as int) =~= es);
    acc
}

} // verus!
