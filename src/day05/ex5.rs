use vstd::prelude::*;

use crate::text::{chars_of, lines_of, numbers, numbers_fit, read_u32s, split_lines, u32s};

verus! {

broadcast use vstd::seq::Seq::lemma_filter_push;

pub type Rule = (u32, u32);

/// `u` breaks a rule: some page stands at or after one that must follow it.
pub open spec fn violates(u: Seq<u32>, rules: Seq<Rule>) -> bool {
    exists|i: int, j: int| 0 <= i <= j < u.len() && rules.contains((#[trigger] u[j], #[trigger] u[i]))
}

/// The rules that still hold `v` back: their first page is in the update and
/// not yet placed.
pub open spec fn pending(v: u32, rules: Seq<Rule>, u: Seq<u32>, placed: Seq<u32>) -> Seq<Rule> {
    rules.filter(|r: Rule| r.1 == v && u.contains(r.0) && !placed.contains(r.0))
}

/// The pages among the first `k` of `u` that one round places.
pub open spec fn ready(u: Seq<u32>, rules: Seq<Rule>, placed: Seq<u32>, k: int) -> Seq<u32> {
    u.take(k).filter(|v: u32| !placed.contains(v) && pending(v, rules, u, placed).len() == 0)
}

/// One round: each page of `u` not yet placed and held back by no rule is
/// appended, in the order of `u`.
pub open spec fn round(u: Seq<u32>, rules: Seq<Rule>, placed: Seq<u32>) -> Seq<u32> {
    placed + ready(u, rules, placed, u.len() as int)
}

/// Rounds from `placed` on, until every page is placed or a round places none.
pub open spec fn reorder(u: Seq<u32>, rules: Seq<Rule>, placed: Seq<u32>) -> Seq<u32>
    decreases u.len() - placed.len(),
{
    if placed.len() >= u.len() {
        placed
    } else {
        let next = round(u, rules, placed);
        if next.len() <= placed.len() {
            placed
        } else if next.len() >= u.len() {
            next
        } else {
            reorder(u, rules, next)
        }
    }
}

/// Every page placed is in the update, is placed once, and comes after each
/// page of the update that a rule puts before it.
pub open spec fn placed_in_order(u: Seq<u32>, rules: Seq<Rule>, placed: Seq<u32>) -> bool {
    &&& placed.no_duplicates()
    &&& forall|i: int| 0 <= i < placed.len() ==> u.contains(#[trigger] placed[i])
    &&& forall|i: int, x: u32|
        0 <= i < placed.len() && #[trigger] rules.contains((x, placed[i])) && u.contains(x) ==> exists|k: int|
            0 <= k < i && placed[k] == x
}

proof fn lemma_filter_no_duplicates(s: Seq<u32>, p: spec_fn(u32) -> bool)
    requires
        s.no_duplicates(),
    ensures
        s.filter(p).no_duplicates(),
    decreases s.len(),
{
    broadcast use vstd::seq_lib::group_filter_ensures;

    if s.len() > 0 {
        let d = s.drop_last();
        assert(s =~= d.push(s.last()));
        assert(d.no_duplicates());
        lemma_filter_no_duplicates(d, p);
        if p(s.last()) {
            if d.filter(p).contains(s.last()) {
                d.lemma_filter_contains_rev(p, s.last());
                let k = choose|k: int| 0 <= k < d.len() && d[k] == s.last();
                assert(s[k] == s[s.len() - 1]);
            }
        }
    }
}

proof fn lemma_round_in_order(u: Seq<u32>, rules: Seq<Rule>, placed: Seq<u32>)
    requires
        u.no_duplicates(),
        placed_in_order(u, rules, placed),
    ensures
        placed_in_order(u, rules, round(u, rules, placed)),
{
    broadcast use vstd::seq_lib::group_filter_ensures;

    let pred = |v: u32| !placed.contains(v) && pending(v, rules, u, placed).len() == 0;
    assert(u.take(u.len() as int) =~= u);
    let r = ready(u, rules, placed, u.len() as int);
    assert(r == u.filter(pred));
    let next = round(u, rules, placed);
    lemma_filter_no_duplicates(u, pred);
    assert forall|i: int| 0 <= i < r.len() implies u.contains(#[trigger] r[i]) by {
        assert(r.contains(r[i]));
        u.lemma_filter_contains_rev(pred, r[i]);
    }
    assert forall|i: int, j: int| 0 <= i < placed.len() && 0 <= j < r.len() implies placed[i] != r[j] by {
        assert(pred(r[j]));
        assert(placed.contains(placed[i]));
    }
    vstd::seq_lib::lemma_no_dup_in_concat(placed, r);
    assert forall|i: int| 0 <= i < next.len() implies u.contains(#[trigger] next[i]) by {
        if i >= placed.len() {
            assert(next[i] == r[i - placed.len()]);
        } else {
            assert(next[i] == placed[i]);
        }
    }
    assert forall|i: int, x: u32|
        0 <= i < next.len() && #[trigger] rules.contains((x, next[i])) && u.contains(x) implies exists|k: int|
        0 <= k < i && next[k] == x by {
        if i < placed.len() {
            assert(next[i] == placed[i]);
            let k = choose|k: int| 0 <= k < i && placed[k] == x;
            assert(next[k] == x);
        } else {
            let v = next[i];
            assert(v == r[i - placed.len()]);
            assert(pred(v));
            let t = choose|t: int| 0 <= t < rules.len() && rules[t] == (x, v);
            if !placed.contains(x) {
                assert(pending(v, rules, u, placed).contains(rules[t]));
            }
            let k = choose|k: int| 0 <= k < placed.len() && placed[k] == x;
            assert(next[k] == x);
        }
    }
}

proof fn lemma_reorder_in_order(u: Seq<u32>, rules: Seq<Rule>, placed: Seq<u32>)
    requires
        u.no_duplicates(),
        placed_in_order(u, rules, placed),
    ensures
        placed_in_order(u, rules, reorder(u, rules, placed)),
    decreases u.len() - placed.len(),
{
    if placed.len() < u.len() {
        lemma_round_in_order(u, rules, placed);
        let next = round(u, rules, placed);
        if next.len() > placed.len() && next.len() < u.len() {
            lemma_reorder_in_order(u, rules, next);
        }
    }
}

/// Reordering an update without repeated pages, where no rule puts a page
/// before itself, gives distinct pages of the update that break no rule;
/// when it places as many pages as the update holds, it is a permutation of
/// the update.
pub proof fn lemma_reorder_correct(u: Seq<u32>, rules: Seq<Rule>)
    requires
        u.no_duplicates(),
        forall|x: u32| !rules.contains((x, x)),
    ensures
        reorder(u, rules, Seq::empty()).no_duplicates(),
        reorder(u, rules, Seq::empty()).to_set().subset_of(u.to_set()),
        !violates(reorder(u, rules, Seq::empty()), rules),
        reorder(u, rules, Seq::empty()).len() == u.len() ==> reorder(u, rules, Seq::empty()).to_set()
            == u.to_set(),
{
    let e = Seq::<u32>::empty();
    assert(placed_in_order(u, rules, e));
    lemma_reorder_in_order(u, rules, e);
    let r = reorder(u, rules, e);
    assert forall|x: u32| r.to_set().contains(x) implies u.to_set().contains(x) by {
        let i = choose|i: int| 0 <= i < r.len() && r[i] == x;
        assert(u.contains(r[i]));
    }
    if violates(r, rules) {
        let (i, j) = choose|i: int, j: int| 0 <= i <= j < r.len() && rules.contains((#[trigger] r[j], #[trigger] r[i]));
        assert(u.contains(r[j]));
        let k = choose|k: int| 0 <= k < i && r[k] == r[j];
        assert(k != j);
    }
    if r.len() == u.len() {
        r.unique_seq_to_set();
        u.unique_seq_to_set();
        vstd::seq_lib::seq_to_set_is_finite(u);
        vstd::set_lib::lemma_subset_equality(r.to_set(), u.to_set());
    }
}

proof fn lemma_placed_bound(u: Seq<u32>, rules: Seq<Rule>, placed: Seq<u32>)
    requires
        u.no_duplicates(),
        placed_in_order(u, rules, placed),
    ensures
        placed.len() <= u.len(),
        placed.len() < u.len() ==> exists|w: u32| u.contains(w) && !placed.contains(w),
{
    placed.unique_seq_to_set();
    u.unique_seq_to_set();
    vstd::seq_lib::seq_to_set_is_finite(u);
    assert(placed.to_set().subset_of(u.to_set())) by {
        assert forall|x: u32| placed.to_set().contains(x) implies u.to_set().contains(x) by {
            let i = choose|i: int| 0 <= i < placed.len() && placed[i] == x;
            assert(u.contains(placed[i]));
        }
    }
    vstd::set_lib::lemma_len_subset(placed.to_set(), u.to_set());
    if placed.len() < u.len() && !(exists|w: u32| u.contains(w) && !placed.contains(w)) {
        assert(u.to_set().subset_of(placed.to_set()));
        vstd::seq_lib::seq_to_set_is_finite(placed);
        vstd::set_lib::lemma_len_subset(u.to_set(), placed.to_set());
    }
}

/// The first index from `k` on at which `t` holds a page not yet placed.
proof fn first_unplaced(t: Seq<u32>, placed: Seq<u32>, k: int) -> (m: int)
    requires
        0 <= k <= t.len(),
        exists|j: int| k <= j < t.len() && !placed.contains(t[j]),
    ensures
        k <= m < t.len(),
        !placed.contains(t[m]),
        forall|j: int| k <= j < m ==> placed.contains(#[trigger] t[j]),
    decreases t.len() - k,
{
    if !placed.contains(t[k]) {
        k
    } else {
        first_unplaced(t, placed, k + 1)
    }
}

proof fn lemma_round_progress(u: Seq<u32>, rules: Seq<Rule>, placed: Seq<u32>, t: Seq<u32>)
    requires
        u.no_duplicates(),
        placed_in_order(u, rules, placed),
        placed.len() < u.len(),
        t.to_set() == u.to_set(),
        !violates(t, rules),
    ensures
        round(u, rules, placed).len() > placed.len(),
{
    broadcast use vstd::seq_lib::group_filter_ensures;

    lemma_placed_bound(u, rules, placed);
    let w = choose|w: u32| u.contains(w) && !placed.contains(w);
    assert(u.to_set().contains(w));
    assert(t.to_set().contains(w));
    let jw = choose|j: int| 0 <= j < t.len() && t[j] == w;
    let m = first_unplaced(t, placed, 0);
    let v = t[m];
    assert(t.to_set().contains(v));
    assert(u.contains(v));
    let pend = pending(v, rules, u, placed);
    if pend.len() > 0 {
        let q = pend[0];
        assert(pend.contains(q));
        broadcast use vstd::seq::Seq::lemma_filter_contains_rev;

        assert(q.1 == v && u.contains(q.0) && !placed.contains(q.0));
        assert(u.to_set().contains(q.0));
        assert(t.to_set().contains(q.0));
        let a = choose|a: int| 0 <= a < t.len() && t[a] == q.0;
        assert(rules.contains((t[a], t[m])));
        if a >= m {
            assert(violates(t, rules));
        } else {
            assert(placed.contains(t[a]));
        }
    }
    assert(u.take(u.len() as int) =~= u);
    let iv = choose|i: int| 0 <= i < u.len() && u[i] == v;
    assert(ready(u, rules, placed, u.len() as int).contains(u[iv]));
}

proof fn lemma_reorder_complete(u: Seq<u32>, rules: Seq<Rule>, placed: Seq<u32>, t: Seq<u32>)
    requires
        u.no_duplicates(),
        placed_in_order(u, rules, placed),
        t.to_set() == u.to_set(),
        !violates(t, rules),
    ensures
        reorder(u, rules, placed).len() == u.len(),
    decreases u.len() - placed.len(),
{
    lemma_placed_bound(u, rules, placed);
    if placed.len() < u.len() {
        lemma_round_progress(u, rules, placed, t);
        lemma_round_in_order(u, rules, placed);
        let next = round(u, rules, placed);
        lemma_placed_bound(u, rules, next);
        if next.len() < u.len() {
            lemma_reorder_complete(u, rules, next, t);
        }
    }
}

/// Where some order of the update's pages breaks no rule, reordering places
/// every page.
pub proof fn lemma_reorder_complete_when_orderable(u: Seq<u32>, rules: Seq<Rule>, t: Seq<u32>)
    requires
        u.no_duplicates(),
        t.to_set() == u.to_set(),
        !violates(t, rules),
    ensures
        reorder(u, rules, Seq::empty()).len() == u.len(),
{
    assert(placed_in_order(u, rules, Seq::<u32>::empty()));
    lemma_reorder_complete(u, rules, Seq::empty(), t);
}

/// The middle page, or nothing for an empty list.
pub open spec fn middle(v: Seq<u32>) -> int {
    if v.len() == 0 {
        0
    } else {
        v[(v.len() / 2) as int] as int
    }
}

pub open spec fn rule_lines(s: Seq<char>) -> Seq<Seq<char>> {
    lines_of(s).filter(|l: Seq<char>| l.contains('|'))
}

pub open spec fn update_lines(s: Seq<char>) -> Seq<Seq<char>> {
    lines_of(s).filter(|l: Seq<char>| l.contains(','))
}

/// Every rule line holds two numbers and every number fits in `u32`.
pub open spec fn well_formed_input(s: Seq<char>) -> bool {
    &&& forall|i: int|
        0 <= i < rule_lines(s).len() ==> numbers_fit(#[trigger] rule_lines(s)[i], u32::MAX as int)
            && numbers(rule_lines(s)[i]).len() >= 2
    &&& forall|i: int|
        0 <= i < update_lines(s).len() ==> numbers_fit(#[trigger] update_lines(s)[i], u32::MAX as int)
}

pub open spec fn rules_of(s: Seq<char>) -> Seq<Rule> {
    rule_lines(s).map_values(|l: Seq<char>| (numbers(l)[0] as u32, numbers(l)[1] as u32))
}

pub open spec fn updates_of(s: Seq<char>) -> Seq<Seq<u32>> {
    update_lines(s).map_values(|l: Seq<char>| numbers(l).map_values(|x: int| x as u32))
}

/// The middle pages of the correct updates, summed.
pub open spec fn total_correct(us: Seq<Seq<u32>>, rules: Seq<Rule>) -> int
    decreases us.len(),
{
    if us.len() == 0 {
        0
    } else {
        total_correct(us.drop_last(), rules) + if !violates(us.last(), rules) {
            middle(us.last())
        } else {
            0
        }
    }
}

/// The middle pages of the incorrect updates once reordered, summed.
pub open spec fn total_fixed(us: Seq<Seq<u32>>, rules: Seq<Rule>) -> int
    decreases us.len(),
{
    if us.len() == 0 {
        0
    } else {
        total_fixed(us.drop_last(), rules) + if violates(us.last(), rules) {
            middle(reorder(us.last(), rules, Seq::empty()))
        } else {
            0
        }
    }
}

pub fn parse_rule(line: &str) -> (r: Vec<u32>)
    requires
        numbers_fit(line@, u32::MAX as int),
    ensures
        u32s(r@) == numbers(line@),
{
    let cs = chars_of(line);
    read_u32s(&cs)
}

pub fn parse_update(line: &str) -> (r: Vec<u32>)
    requires
        numbers_fit(line@, u32::MAX as int),
    ensures
        u32s(r@) == numbers(line@),
{
    let cs = chars_of(line);
    read_u32s(&cs)
}

fn has_char(l: &Vec<char>, c: char) -> (r: bool)
    ensures
        r == l@.contains(c),
{
    let mut i: usize = 0;
    while i < l.len()
        invariant
            i <= l@.len(),
            forall|k: int| 0 <= k < i ==> l@[k] != c,
        decreases l@.len() - i,
    {
        if l[i] == c {
            return true;
        }
        i = i + 1;
    }
    false
}

/// The lines of `input` that hold `c`.
fn lines_with(input: &str, c: char) -> (r: Vec<Vec<char>>)
    ensures
        r@.map_values(|l: Vec<char>| l@) == lines_of(input@).filter(|l: Seq<char>| l.contains(c)),
{
    let lines = split_lines(input);
    let ghost ls = lines_of(input@);
    let mut r: Vec<Vec<char>> = Vec::new();
    let mut i: usize = 0;
    while i < lines.len()
        invariant
            lines@.map_values(|l: Vec<char>| l@) == ls,
            i <= lines@.len(),
            r@.map_values(|l: Vec<char>| l@) == ls.take(i as int).filter(|l: Seq<char>| l.contains(c)),
        decreases lines@.len() - i,
    {
        assert(ls.take(i + 1).drop_last() =~= ls.take(i as int));
        assert(ls[i as int] == lines@[i as int]@);
        proof {
            ls.take(i as int).lemma_filter_push(ls[i as int], |l: Seq<char>| l.contains(c));
            assert(ls.take(i + 1) =~= ls.take(i as int).push(ls[i as int]));
        }
        if has_char(&lines[i], c) {
            let ghost before = r@;
            r.push(copy_chars(&lines[i]));
            assert(r@.map_values(|l: Vec<char>| l@) =~= before.map_values(|l: Vec<char>| l@).push(
                ls[i as int],
            ));
        }
        i = i + 1;
    }
    assert(ls.take(i as int) =~= ls);
    r
}

fn copy_chars(l: &Vec<char>) -> (r: Vec<char>)
    ensures
        r@ == l@,
{
    let mut r: Vec<char> = Vec::new();
    let mut j: usize = 0;
    while j < l.len()
        invariant
            j <= l@.len(),
            r@ == l@.take(j as int),
        decreases l@.len() - j,
    {
        r.push(l[j]);
        j = j + 1;
        assert(r@ =~= l@.take(j as int));
    }
    assert(l@.take(j as int) =~= l@);
    r
}


/// The rules: the two numbers of each line that holds `|`.
pub fn parse_input_rules(input: &str) -> (r: Vec<Rule>)
    requires
        well_formed_input(input@),
    ensures
        r@ == rules_of(input@),
{
    let lines = lines_with(input, '|');
    let ghost ls = rule_lines(input@);
    let mut r: Vec<Rule> = Vec::new();
    let mut i: usize = 0;
    while i < lines.len()
        invariant
            lines@.map_values(|l: Vec<char>| l@) == ls,
            ls == rule_lines(input@),
            well_formed_input(input@),
            i <= lines@.len(),
            r@ == rules_of(input@).take(i as int),
        decreases lines@.len() - i,
    {
        assert(ls[i as int] == lines@[i as int]@);
        let rule = read_u32s(&lines[i]);
        assert(rule@[0] as int == u32s(rule@)[0] && rule@[1] as int == u32s(rule@)[1]);
        r.push((rule[0], rule[1]));
        i = i + 1;
        assert(r@ =~= rules_of(input@).take(i as int));
    }
    assert(rules_of(input@).take(i as int) =~= rules_of(input@));
    r
}

/// The updates: the numbers of each line that holds `,`.
pub fn parse_input_updates(input: &str) -> (r: Vec<Vec<u32>>)
    requires
        well_formed_input(input@),
    ensures
        r@.map_values(|u: Vec<u32>| u@) == updates_of(input@),
{
    let lines = lines_with(input, ',');
    let ghost ls = update_lines(input@);
    let mut r: Vec<Vec<u32>> = Vec::new();
    let mut i: usize = 0;
    while i < lines.len()
        invariant
            lines@.map_values(|l: Vec<char>| l@) == ls,
            ls == update_lines(input@),
            well_formed_input(input@),
            i <= lines@.len(),
            r@.map_values(|u: Vec<u32>| u@) == updates_of(input@).take(i as int),
        decreases lines@.len() - i,
    {
        assert(ls[i as int] == lines@[i as int]@);
        let u = read_u32s(&lines[i]);
        assert(u@ =~= numbers(ls[i as int]).map_values(|x: int| x as u32)) by {
            assert forall|k: int| 0 <= k < u@.len() implies u@[k] == numbers(ls[i as int])[k] as u32 by {
                assert(u32s(u@)[k] == u@[k] as int);
            }
        }
        let ghost before = r@;
        r.push(u);
        assert(r@.map_values(|u: Vec<u32>| u@) =~= before.map_values(|u: Vec<u32>| u@).push(
            updates_of(input@)[i as int],
        ));
        i = i + 1;
        assert(r@.map_values(|u: Vec<u32>| u@) =~= updates_of(input@).take(i as int));
    }
    assert(updates_of(input@).take(i as int) =~= updates_of(input@));
    r
}

fn has_rule(rules: &Vec<Rule>, a: u32, b: u32) -> (r: bool)
    ensures
        r == rules@.contains((a, b)),
{
    let mut i: usize = 0;
    while i < rules.len()
        invariant
            i <= rules@.len(),
            forall|k: int| 0 <= k < i ==> rules@[k] != (a, b),
        decreases rules@.len() - i,
    {
        if rules[i].0 == a && rules[i].1 == b {
            assert(rules@[i as int] == (a, b));
            return true;
        }
        i = i + 1;
    }
    false
}

fn has_page(v: &Vec<u32>, x: u32) -> (r: bool)
    ensures
        r == v@.contains(x),
{
    let mut i: usize = 0;
    while i < v.len()
        invariant
            i <= v@.len(),
            forall|k: int| 0 <= k < i ==> v@[k] != x,
        decreases v@.len() - i,
    {
        if v[i] == x {
            return true;
        }
        i = i + 1;
    }
    false
}

/// Whether the update keeps every rule.
pub fn is_correct(update: &Vec<u32>, rules: &Vec<Rule>) -> (r: bool)
    ensures
        r == !violates(update@, rules@),
{
    let mut first: usize = 0;
    while first < update.len()
        invariant
            first <= update@.len(),
            forall|i: int, j: int| 0 <= i < first && i <= j < update@.len() ==> !rules@.contains((#[trigger] update@[j], #[trigger] update@[i])),
        decreases update@.len() - first,
    {
        let mut second: usize = first;
        while second < update.len()
            invariant
                first < update@.len(),
                first <= second <= update@.len(),
                forall|i: int, j: int| 0 <= i < first && i <= j < update@.len() ==> !rules@.contains((#[trigger] update@[j], #[trigger] update@[i])),
                forall|j: int| first <= j < second ==> !rules@.contains((#[trigger] update@[j], update@[first as int])),
            decreases update@.len() - second,
        {
            if has_rule(rules, update[second], update[first]) {
                return false;
            }
            second = second + 1;
        }
        first = first + 1;
    }
    true
}

/// How many rules still hold `val` back.
pub fn calc_deps(val: &u32, rules: &Vec<Rule>, update: &Vec<u32>, result: &Vec<u32>) -> (r: usize)
    ensures
        r == pending(*val, rules@, update@, result@).len(),
{
    let mut n: usize = 0;
    let mut i: usize = 0;
    while i < rules.len()
        invariant
            i <= rules@.len(),
            n == pending(*val, rules@.take(i as int), update@, result@).len(),
            n <= i,
        decreases rules@.len() - i,
    {
        let (a, b) = rules[i];
        proof {
            assert(rules@.take(i + 1) =~= rules@.take(i as int).push(rules@[i as int]));
        }
        if b == *val && has_page(update, a) && !has_page(result, a) {
            n = n + 1;
        }
        i = i + 1;
    }
    assert(rules@.take(i as int) =~= rules@);
    n
}

/// Places the pages round by round: each round appends, in update order,
/// every page not yet placed that no rule holds back.
pub fn fix_ordering(update: &Vec<u32>, rules: &Vec<Rule>) -> (r: Vec<u32>)
    ensures
        r@ == reorder(update@, rules@, Seq::empty()),
{
    let mut result: Vec<u32> = Vec::new();
    while result.len() < update.len()
        invariant
            reorder(update@, rules@, result@) == reorder(update@, rules@, Seq::empty()),
        ensures
            result@ == reorder(update@, rules@, Seq::empty()),
        decreases update@.len() - result@.len(),
    {
        let ghost placed = result@;
        let mut without_deps: Vec<u32> = Vec::new();
        let mut k: usize = 0;
        while k < update.len()
            invariant
                result@ == placed,
                k <= update@.len(),
                without_deps@ == ready(update@, rules@, placed, k as int),
            decreases update@.len() - k,
        {
            let val = update[k];
            proof {
                assert(update@.take(k + 1) =~= update@.take(k as int).push(val));
            }
            if !has_page(&result, val) && calc_deps(&val, rules, update, &result) == 0 {
                without_deps.push(val);
            }
            k = k + 1;
        }
        if without_deps.len() == 0 {
            assert(round(update@, rules@, placed) =~= placed);
            assert(reorder(update@, rules@, placed) == placed);
            break;
        }
        result.append(&mut without_deps);
        assert(result@ == round(update@, rules@, placed));
        if result.len() >= update.len() {
            assert(reorder(update@, rules@, placed) == result@);
            break;
        }
    }
    result
}

fn middle_of(v: &Vec<u32>) -> (r: u32)
    ensures
        r == middle(v@),
{
    if v.len() == 0 {
        0
    } else {
        v[v.len() / 2]
    }
}

proof fn lemma_total_correct_prefix(us: Seq<Seq<u32>>, rules: Seq<Rule>, i: int)
    requires
        0 <= i <= us.len(),
    ensures
        0 <= total_correct(us.take(i), rules) <= total_correct(us, rules),
    decreases us.len(),
{
    if i < us.len() {
        lemma_total_correct_prefix(us.drop_last(), rules, i);
        assert(us.drop_last().take(i) =~= us.take(i));
    } else {
        assert(us.take(i) =~= us);
        if us.len() > 0 {
            lemma_total_correct_prefix(us.drop_last(), rules, i - 1);
            assert(us.drop_last().take(i - 1) =~= us.drop_last());
        }
    }
}

proof fn lemma_total_fixed_prefix(us: Seq<Seq<u32>>, rules: Seq<Rule>, i: int)
    requires
        0 <= i <= us.len(),
    ensures
        0 <= total_fixed(us.take(i), rules) <= total_fixed(us, rules),
    decreases us.len(),
{
    if i < us.len() {
        lemma_total_fixed_prefix(us.drop_last(), rules, i);
        assert(us.drop_last().take(i) =~= us.take(i));
    } else {
        assert(us.take(i) =~= us);
        if us.len() > 0 {
            lemma_total_fixed_prefix(us.drop_last(), rules, i - 1);
            assert(us.drop_last().take(i - 1) =~= us.drop_last());
        }
    }
}

/// The middle pages of the updates that keep every rule, summed.
pub fn part_one(input: &str) -> (r: u32)
    requires
        well_formed_input(input@),
        total_correct(updates_of(input@), rules_of(input@)) <= u32::MAX,
    ensures
        r == total_correct(updates_of(input@), rules_of(input@)),
{
    let rules = parse_input_rules(input);
    let updates = parse_input_updates(input);
    let ghost us = updates_of(input@);
    let mut acc: u32 = 0;
    let mut i: usize = 0;
    while i < updates.len()
        invariant
            updates@.map_values(|u: Vec<u32>| u@) == us,
            rules@ == rules_of(input@),
            us == updates_of(input@),
            total_correct(us, rules@) <= u32::MAX,
            i <= updates@.len(),
            acc == total_correct(us.take(i as int), rules@),
        decreases updates@.len() - i,
    {
        proof {
            assert(us.take(i + 1).drop_last() =~= us.take(i as int));
            assert(us[i as int] == updates@[i as int]@);
            lemma_total_correct_prefix(us, rules@, i + 1);
        }
        if is_correct(&updates[i], &rules) {
            acc = acc + middle_of(&updates[i]);
        }
        i = i + 1;
    }
    assert(us.take(i as int) =~= us);
    acc
}

/// The middle pages of the updates that break a rule, once reordered, summed.
pub fn part_two(input: &str) -> (r: u32)
    requires
        well_formed_input(input@),
        total_fixed(updates_of(input@), rules_of(input@)) <= u32::MAX,
    ensures
        r == total_fixed(updates_of(input@), rules_of(input@)),
{
    let rules = parse_input_rules(input);
    let updates = parse_input_updates(input);
    let ghost us = updates_of(input@);
    let mut acc: u32 = 0;
    let mut i: usize = 0;
    while i < updates.len()
        invariant
            updates@.map_values(|u: Vec<u32>| u@) == us,
            rules@ == rules_of(input@),
            us == updates_of(input@),
            total_fixed(us, rules@) <= u32::MAX,
            i <= updates@.len(),
            acc == total_fixed(us.take(i as int), rules@),
        decreases updates@.len() - i,
    {
        proof {
            assert(us.take(i + 1).drop_last() =~= us.take(i as int));
            assert(us[i as int] == updates@[i as int]@);
            lemma_total_fixed_prefix(us, rules@, i + 1);
        }
        if !is_correct(&updates[i], &rules) {
            let fixed = fix_ordering(&updates[i], &rules);
            acc = acc + middle_of(&fixed);
        }
        i = i + 1;
    }
    assert(us.take(i as int) =~= us);
    acc
}

} // verus!
