use vstd::prelude::*;

use crate::text::{chars_of, digit_value, is_digit};
use vstd::string::StringExecFns;

verus! {

/// The multiplication instructions the scanner looks for.
pub const MUL_PATTERN: &'static str = r"mul\(([0-9]{1,3}),([0-9]{1,3})\)";

/// The stretches of text that start right after a `do()` and end right
/// before the next `don't()`.
pub const ENABLED_PATTERN: &'static str = r"(?s)(?<=do\(\))(.*?)(?=don't\(\))";

/// The text of capture groups 1 and 2 of each successive non-overlapping
/// match of `pattern` in `text`; nothing where the pattern does not compile
/// or a match lacks one of the two groups.
pub uninterp spec fn regex_pairs(pattern: Seq<char>, text: Seq<char>) -> Option<Seq<(Seq<char>, Seq<char>)>>;

/// The text of each successive non-overlapping match of the backtracking
/// `pattern` in `text`; nothing where the pattern does not compile or a
/// search fails.
pub uninterp spec fn fancy_matches(pattern: Seq<char>, text: Seq<char>) -> Option<Seq<Seq<char>>>;

pub open spec fn pair_views(v: Seq<(String, String)>) -> Seq<(Seq<char>, Seq<char>)> {
    v.map_values(|p: (String, String)| (p.0@, p.1@))
}

pub open spec fn string_views(v: Seq<String>) -> Seq<Seq<char>> {
    v.map_values(|s: String| s@)
}

/// Relies on regex::Regex::new and Regex::captures_iter: the text of groups 1
/// and 2 of each match, in order.
#[verifier::external_body]
fn capture_pairs(pattern: &str, text: &str) -> (r: Option<Vec<(String, String)>>)
    ensures
        r matches Some(v) ==> regex_pairs(pattern@, text@) == Some(pair_views(v@)),
        r is None ==> regex_pairs(pattern@, text@) is None,
{
    let re = regex::Regex::new(pattern).ok()?;
    re.captures_iter(text)
        .map(|c| Some((c.get(1)?.as_str().to_string(), c.get(2)?.as_str().to_string())))
        .collect()
}

/// Relies on fancy_regex::Regex::new and Regex::find_iter: the text of each
/// match, in order.
#[verifier::external_body]
pub(crate) fn fancy_find_all(pattern: &str, text: &str) -> (r: Option<Vec<String>>)
    ensures
        r matches Some(v) ==> fancy_matches(pattern@, text@) == Some(string_views(v@)),
        r is None ==> fancy_matches(pattern@, text@) is None,
{
    let re = fancy_regex::Regex::new(pattern).ok()?;
    re.find_iter(text).map(|m| m.ok().map(|m| m.as_str().to_string())).collect()
}

/// A short operand: one to three decimal digits.
pub open spec fn is_operand(s: Seq<char>) -> bool {
    1 <= s.len() <= 3 && forall|i: int| 0 <= i < s.len() ==> is_digit(#[trigger] s[i])
}

pub open spec fn decimal(s: Seq<char>) -> int
    decreases s.len(),
{
    if s.len() == 0 {
        0
    } else {
        decimal(s.drop_last()) * 10 + digit_value(s.last())
    }
}

/// The products of the operand pairs, summed; nothing where an operand is
/// not one to three digits.
pub open spec fn product_sum(ps: Seq<(Seq<char>, Seq<char>)>) -> Option<int>
    decreases ps.len(),
{
    if ps.len() == 0 {
        Some(0)
    } else {
        match product_sum(ps.drop_last()) {
            None => None,
            Some(t) => if is_operand(ps.last().0) && is_operand(ps.last().1) {
                Some(t + decimal(ps.last().0) * decimal(ps.last().1))
            } else {
                None
            },
        }
    }
}

/// The total of the instructions: nothing where there is none, an operand is
/// malformed or the total exceeds `u32`.
pub open spec fn mul_total(ps: Option<Seq<(Seq<char>, Seq<char>)>>) -> Option<int> {
    match ps {
        None => None,
        Some(p) => match product_sum(p) {
            Some(t) => if p.len() > 0 && t <= u32::MAX {
                Some(t)
            } else {
                None
            },
            None => None,
        },
    }
}

/// The totals of the enabled stretches, summed: nothing where a stretch has
/// no total, there is no stretch, or the sum exceeds `u32`.
pub open spec fn enabled_sum(segs: Seq<Seq<char>>) -> Option<int>
    decreases segs.len(),
{
    if segs.len() == 0 {
        Some(0)
    } else {
        match (enabled_sum(segs.drop_last()), mul_total(regex_pairs(MUL_PATTERN@, segs.last()))) {
            (Some(a), Some(b)) => Some(a + b),
            _ => None,
        }
    }
}

pub open spec fn enabled_total(segs: Option<Seq<Seq<char>>>) -> Option<int> {
    match segs {
        None => None,
        Some(s) => match enabled_sum(s) {
            Some(t) => if s.len() > 0 && t <= u32::MAX {
                Some(t)
            } else {
                None
            },
            None => None,
        },
    }
}

proof fn lemma_decimal_short(s: Seq<char>)
    requires
        forall|i: int| 0 <= i < s.len() ==> is_digit(#[trigger] s[i]),
    ensures
        0 <= decimal(s),
        s.len() <= 1 ==> decimal(s) < 10,
        s.len() <= 2 ==> decimal(s) < 100,
        s.len() <= 3 ==> decimal(s) < 1000,
    decreases s.len(),
{
    if s.len() > 0 {
        let d = s.drop_last();
        assert forall|i: int| 0 <= i < d.len() implies is_digit(#[trigger] d[i]) by {
            assert(d[i] == s[i]);
        }
        lemma_decimal_short(d);
        assert(is_digit(s[s.len() - 1]));
    }
}

proof fn lemma_product_sum_nonneg(ps: Seq<(Seq<char>, Seq<char>)>)
    ensures
        product_sum(ps) matches Some(t) ==> t >= 0,
    decreases ps.len(),
{
    if ps.len() > 0 {
        lemma_product_sum_nonneg(ps.drop_last());
        let last = ps.last();
        if is_operand(last.0) && is_operand(last.1) {
            lemma_decimal_short(last.0);
            lemma_decimal_short(last.1);
            assert(decimal(last.0) * decimal(last.1) >= 0) by (nonlinear_arith)
                requires
                    decimal(last.0) >= 0,
                    decimal(last.1) >= 0,
            ;
        }
    }
}

/// The value of a short operand.
fn operand_value(s: &String) -> (r: Option<u32>)
    ensures
        r matches Some(v) ==> is_operand(s@) && v == decimal(s@),
        r is None ==> !is_operand(s@),
{
    let cs = chars_of(s.as_str());
    if cs.len() == 0 || cs.len() > 3 {
        return None;
    }
    let mut v: u32 = 0;
    let mut i: usize = 0;
    while i < cs.len()
        invariant
            cs@ == s@,
            1 <= cs@.len() <= 3,
            i <= cs@.len(),
            forall|k: int| 0 <= k < i ==> is_digit(#[trigger] cs@[k]),
            v == decimal(cs@.take(i as int)),
            v < 1000,
        decreases cs@.len() - i,
    {
        let c = cs[i];
        if !('0' <= c && c <= '9') {
            return None;
        }
        proof {
            assert(cs@.take(i + 1).drop_last() =~= cs@.take(i as int));
            assert forall|k: int| 0 <= k < i + 1 implies is_digit(#[trigger] cs@.take(i + 1)[k]) by {}
            lemma_decimal_short(cs@.take(i + 1));
        }
        v = v * 10 + (c as u32 - '0' as u32);
        i = i + 1;
    }
    assert(cs@.take(i as int) =~= cs@);
    Some(v)
}

/// Sums the products of operand pairs, as found by the instruction pattern.
pub fn sum_products(pairs: &Vec<(String, String)>) -> (r: Option<u32>)
    ensures
        r matches Some(v) ==> mul_total(Some(pair_views(pairs@))) == Some(v as int),
        r is None ==> mul_total(Some(pair_views(pairs@))) is None,
{
    let ghost ps = pair_views(pairs@);
    let mut total: u32 = 0;
    let mut i: usize = 0;
    while i < pairs.len()
        invariant
            ps == pair_views(pairs@),
            i <= pairs@.len(),
            product_sum(ps.take(i as int)) == Some(total as int),
        decreases pairs@.len() - i,
    {
        proof {
            assert(ps.take(i + 1).drop_last() =~= ps.take(i as int));
        }
        let a = operand_value(&pairs[i].0);
        let b = operand_value(&pairs[i].1);
        match (a, b) {
            (Some(x), Some(y)) => {
                proof {
                    lemma_decimal_short(pairs@[i as int].0@);
                    lemma_decimal_short(pairs@[i as int].1@);
                    assert(x * y <= 999 * 999) by (nonlinear_arith)
                        requires
                            x < 1000,
                            y < 1000,
                    ;
                }
                let p = x * y;
                match total.checked_add(p) {
                    Some(t) => total = t,
                    None => {
                        proof {
                            lemma_product_sum_grows(ps, i + 1);
                        }
                        return None;
                    },
                }
            },
            _ => {
                proof {
                    lemma_product_sum_none(ps, i + 1);
                }
                return None;
            },
        }
        i = i + 1;
    }
    assert(ps.take(i as int) =~= ps);
    if pairs.len() == 0 {
        None
    } else {
        Some(total)
    }
}

proof fn lemma_product_sum_none(ps: Seq<(Seq<char>, Seq<char>)>, i: int)
    requires
        0 <= i <= ps.len(),
        product_sum(ps.take(i)) is None,
    ensures
        product_sum(ps) is None,
    decreases ps.len() - i,
{
    if i < ps.len() {
        assert(ps.take(i + 1).drop_last() =~= ps.take(i));
        lemma_product_sum_none(ps, i + 1);
    } else {
        assert(ps.take(i) =~= ps);
    }
}

proof fn lemma_product_sum_grows(ps: Seq<(Seq<char>, Seq<char>)>, i: int)
    requires
        0 <= i <= ps.len(),
        product_sum(ps.take(i)) matches Some(t) && t > u32::MAX,
    ensures
        match product_sum(ps) {
            Some(t) => t > u32::MAX,
            None => true,
        },
    decreases ps.len() - i,
{
    if i < ps.len() {
        assert(ps.take(i + 1).drop_last() =~= ps.take(i));
        let last = ps.take(i + 1).last();
        if is_operand(last.0) && is_operand(last.1) {
            lemma_decimal_short(last.0);
            lemma_decimal_short(last.1);
            assert(decimal(last.0) * decimal(last.1) >= 0) by (nonlinear_arith)
                requires
                    decimal(last.0) >= 0,
                    decimal(last.1) >= 0,
            ;
            lemma_product_sum_grows(ps, i + 1);
        } else {
            lemma_product_sum_none(ps, i + 1);
        }
    } else {
        assert(ps.take(i) =~= ps);
    }
}

/// The summed products of the `mul(a,b)` instructions in the text; nothing
/// where there is none or the total exceeds `u32`.
pub fn part_one(input: &str) -> (r: Option<u32>)
    ensures
        r matches Some(v) ==> mul_total(regex_pairs(MUL_PATTERN@, input@)) == Some(v as int),
        r is None ==> mul_total(regex_pairs(MUL_PATTERN@, input@)) is None,
{
    match capture_pairs(MUL_PATTERN, input) {
        Some(pairs) => sum_products(&pairs),
        None => None,
    }
}

/// Sums the instruction totals of the enabled stretches.
pub fn sum_enabled(segments: &Vec<String>) -> (r: Option<u32>)
    ensures
        r matches Some(v) ==> enabled_total(Some(string_views(segments@))) == Some(v as int),
        r is None ==> enabled_total(Some(string_views(segments@))) is None,
{
    let ghost ss = string_views(segments@);
    let mut total: u32 = 0;
    let mut i: usize = 0;
    while i < segments.len()
        invariant
            ss == string_views(segments@),
            i <= segments@.len(),
            enabled_sum(ss.take(i as int)) == Some(total as int),
        decreases segments@.len() - i,
    {
        proof {
            assert(ss.take(i + 1).drop_last() =~= ss.take(i as int));
            assert(ss.take(i + 1).last() == segments@[i as int]@);
        }
        match part_one(segments[i].as_str()) {
            Some(v) => match total.checked_add(v) {
                Some(t) => total = t,
                None => {
                    proof {
                        lemma_enabled_sum_grows(ss, i + 1);
                    }
                    return None;
                },
            },
            None => {
                proof {
                    lemma_enabled_sum_none(ss, i + 1);
                }
                return None;
            },
        }
        i = i + 1;
    }
    assert(ss.take(i as int) =~= ss);
    if segments.len() == 0 {
        None
    } else {
        Some(total)
    }
}

proof fn lemma_enabled_sum_none(ss: Seq<Seq<char>>, i: int)
    requires
        0 <= i <= ss.len(),
        enabled_sum(ss.take(i)) is None,
    ensures
        enabled_sum(ss) is None,
    decreases ss.len() - i,
{
    if i < ss.len() {
        assert(ss.take(i + 1).drop_last() =~= ss.take(i));
        lemma_enabled_sum_none(ss, i + 1);
    } else {
        assert(ss.take(i) =~= ss);
    }
}

proof fn lemma_enabled_sum_grows(ss: Seq<Seq<char>>, i: int)
    requires
        0 <= i <= ss.len(),
        enabled_sum(ss.take(i)) matches Some(t) && t > u32::MAX,
    ensures
        match enabled_sum(ss) {
            Some(t) => t > u32::MAX,
            None => true,
        },
    decreases ss.len() - i,
{
    if i < ss.len() {
        assert(ss.take(i + 1).drop_last() =~= ss.take(i));
        let m = mul_total(regex_pairs(MUL_PATTERN@, ss.take(i + 1).last()));
        match m {
            Some(b) => {
                match regex_pairs(MUL_PATTERN@, ss.take(i + 1).last()) {
                    Some(p) => lemma_product_sum_nonneg(p),
                    None => {},
                }
                lemma_enabled_sum_grows(ss, i + 1);
            },
            None => lemma_enabled_sum_none(ss, i + 1),
        }
    } else {
        assert(ss.take(i) =~= ss);
    }
}

/// As `part_one`, counting only instructions after a `do()` and before the
/// next `don't()`; the text counts as starting with `do()`.
pub fn part_two(input: &str) -> (r: Option<u32>)
    ensures
        r matches Some(v) ==> enabled_total(fancy_matches(ENABLED_PATTERN@, seq!['d', 'o', '(', ')'] + input@)) == Some(v as int),
        r is None ==> enabled_total(fancy_matches(ENABLED_PATTERN@, seq!['d', 'o', '(', ')'] + input@)) is None,
{
    let text = String::from_str("do()").concat(input);
    proof {
        reveal_strlit("do()");
        assert(text@ =~= seq!['d', 'o', '(', ')'] + input@);
    }
    match fancy_find_all(ENABLED_PATTERN, text.as_str()) {
        Some(segments) => sum_enabled(&segments),
        None => None,
    }
}

} // verus!
