use vstd::prelude::*;
use vstd::std_specs::iter::IteratorSpec;

verus! {

broadcast use vstd::string::next_postcondition;

/// The characters of `s`, in order.
pub fn chars_of(s: &str) -> (r: Vec<char>)
    ensures
        r@ == s@,
{
    let mut it = s.chars();
    proof {
        vstd::string::axiom_spec_iter(s);
    }
    let mut out: Vec<char> = Vec::new();
    loop
        invariant
            it.obeys_prophetic_iter_laws(),
            out@ + it.remaining() == s@,
        ensures
            out@ == s@,
        decreases s@.len() - out@.len(),
    {
        match it.next() {
            Some(c) => out.push(c),
            None => {
                assert(out@ =~= s@);
                break;
            },
        }
    }
    out
}


/// The pieces of `s` between newline characters, read left to right.
pub open spec fn split_newlines(s: Seq<char>) -> Seq<Seq<char>>
    decreases s.len(),
{
    if s.len() == 0 {
        seq![Seq::empty()]
    } else {
        let prev = split_newlines(s.drop_last());
        if s.last() == '\n' {
            prev.push(Seq::empty())
        } else {
            prev.update(prev.len() - 1, prev.last().push(s.last()))
        }
    }
}

/// A line without the carriage return that may end it.
pub open spec fn strip_cr(l: Seq<char>) -> Seq<char> {
    if l.len() > 0 && l.last() == '\r' {
        l.drop_last()
    } else {
        l
    }
}

/// The lines of a text: split at each newline, with a carriage return just
/// before a newline removed, and a final empty piece dropped.
pub open spec fn lines_of(s: Seq<char>) -> Seq<Seq<char>> {
    let p = split_newlines(s);
    let ended = p.drop_last().map_values(|l: Seq<char>| strip_cr(l));
    if p.last().len() == 0 {
        ended
    } else {
        ended.push(p.last())
    }
}

proof fn lemma_split_nonempty(s: Seq<char>)
    ensures
        split_newlines(s).len() >= 1,
    decreases s.len(),
{
    if s.len() > 0 {
        lemma_split_nonempty(s.drop_last());
    }
}

/// The number of characters over all the lines.
pub open spec fn total_len(ls: Seq<Seq<char>>) -> int
    decreases ls.len(),
{
    if ls.len() == 0 {
        0
    } else {
        total_len(ls.drop_last()) + ls.last().len()
    }
}

proof fn lemma_split_total(s: Seq<char>)
    ensures
        total_len(split_newlines(s)) + split_newlines(s).len() - 1 == s.len(),
        split_newlines(s).len() >= 1,
    decreases s.len(),
{
    if s.len() == 0 {
        let e: Seq<Seq<char>> = seq![Seq::empty()];
        assert(e.drop_last() =~= Seq::<Seq<char>>::empty());
        assert(total_len(Seq::<Seq<char>>::empty()) == 0);
        assert(e.last().len() == 0);
        assert(total_len(e) == 0);
    } else {
        let prev = split_newlines(s.drop_last());
        lemma_split_total(s.drop_last());
        if s.last() == '\n' {
            assert(prev.push(Seq::empty()).drop_last() =~= prev);
            assert(total_len(prev.push(Seq::empty())) == total_len(prev));
        } else {
            let u = prev.update(prev.len() - 1, prev.last().push(s.last()));
            assert(u.drop_last() =~= prev.drop_last());
            assert(u.last() == prev.last().push(s.last()));
            assert(total_len(u) == total_len(prev) + 1);
        }
    }
}

proof fn lemma_total_strip(ls: Seq<Seq<char>>)
    ensures
        total_len(ls.map_values(|l: Seq<char>| strip_cr(l))) <= total_len(ls),
    decreases ls.len(),
{
    if ls.len() > 0 {
        lemma_total_strip(ls.drop_last());
        assert(ls.map_values(|l: Seq<char>| strip_cr(l)).drop_last() =~= ls.drop_last().map_values(
            |l: Seq<char>| strip_cr(l),
        ));
    }
}

proof fn lemma_total_nonneg(ls: Seq<Seq<char>>)
    ensures
        total_len(ls) >= 0,
        forall|i: int| 0 <= i < ls.len() ==> #[trigger] ls[i].len() <= total_len(ls),
    decreases ls.len(),
{
    if ls.len() > 0 {
        lemma_total_nonneg(ls.drop_last());
        assert forall|i: int| 0 <= i < ls.len() implies #[trigger] ls[i].len() <= total_len(ls) by {
            if i < ls.len() - 1 {
                assert(ls[i] == ls.drop_last()[i]);
            }
        }
    }
}

/// A text's lines hold no more characters than the text, and there is at
/// most one line more than there are characters.
pub proof fn lemma_lines_size(s: Seq<char>)
    ensures
        total_len(lines_of(s)) <= s.len(),
        lines_of(s).len() <= s.len() + 1,
        forall|i: int| 0 <= i < lines_of(s).len() ==> #[trigger] lines_of(s)[i].len() <= s.len(),
{
    let p = split_newlines(s);
    lemma_split_total(s);
    let ended = p.drop_last().map_values(|l: Seq<char>| strip_cr(l));
    lemma_total_nonneg(p);
    lemma_total_nonneg(p.drop_last());
    lemma_total_strip(p.drop_last());
    assert(ended.push(p.last()).drop_last() =~= ended);
    assert(total_len(p) == total_len(p.drop_last()) + p.last().len());
    lemma_total_nonneg(lines_of(s));
}

fn strip_cr_vec(l: Vec<char>) -> (r: Vec<char>)
    ensures
        r@ == strip_cr(l@),
{
    let mut l = l;
    if l.len() > 0 && l[l.len() - 1] == '\r' {
        l.pop();
    }
    l
}

/// The lines of `s`, each as its characters.
pub fn split_lines(s: &str) -> (r: Vec<Vec<char>>)
    ensures
        r@.map_values(|l: Vec<char>| l@) == lines_of(s@),
{
    let cs = chars_of(s);
    let mut done: Vec<Vec<char>> = Vec::new();
    let mut cur: Vec<char> = Vec::new();
    let mut i: usize = 0;
    while i < cs.len()
        invariant
            cs@ == s@,
            i <= cs.len(),
            split_newlines(cs@.take(i as int)).len() >= 1,
            done@.map_values(|l: Vec<char>| l@) == split_newlines(cs@.take(i as int)).drop_last().map_values(
                |l: Seq<char>| strip_cr(l),
            ),
            cur@ == split_newlines(cs@.take(i as int)).last(),
        decreases cs.len() - i,
    {
        let c = cs[i];
        let ghost p = split_newlines(cs@.take(i as int));
        proof {
            assert(cs@.take(i + 1).drop_last() =~= cs@.take(i as int));
            lemma_split_nonempty(cs@.take(i + 1));
        }
        if c == '\n' {
            let ghost before = done@;
            let line = strip_cr_vec(cur);
            done.push(line);
            cur = Vec::new();
            assert(cs@.take(i + 1).last() == c);
            assert(split_newlines(cs@.take(i + 1)) == p.push(Seq::empty()));
            assert(p.push(Seq::empty()).drop_last() =~= p);
            assert(p.map_values(|l: Seq<char>| strip_cr(l)) =~= p.drop_last().map_values(
                |l: Seq<char>| strip_cr(l),
            ).push(strip_cr(p.last())));
            assert(done@.map_values(|l: Vec<char>| l@) =~= before.map_values(|l: Vec<char>| l@).push(
                strip_cr(p.last()),
            ));
            assert(done@.map_values(|l: Vec<char>| l@) =~= split_newlines(cs@.take(i + 1)).drop_last().map_values(
                |l: Seq<char>| strip_cr(l),
            ));
        } else {
            cur.push(c);
            assert(p.update(p.len() - 1, p.last().push(c)).drop_last() =~= p.drop_last());
        }
        i = i + 1;
    }
    assert(cs@.take(i as int) =~= s@);
    if cur.len() > 0 {
        let ghost before = done@;
        done.push(cur);
        assert(done@.map_values(|l: Vec<char>| l@) =~= before.map_values(|l: Vec<char>| l@).push(
            split_newlines(s@).last(),
        ));
    }
    done
}



pub open spec fn is_digit(c: char) -> bool {
    '0' <= c <= '9'
}

pub open spec fn digit_value(c: char) -> int {
    c as int - '0' as int
}

/// Reads `s` left to right: the numbers finished so far, and the value of a
/// run of digits still open at the end.
pub open spec fn scan(s: Seq<char>) -> (Seq<int>, Option<int>)
    decreases s.len(),
{
    if s.len() == 0 {
        (Seq::empty(), None)
    } else {
        let (done, cur) = scan(s.drop_last());
        if is_digit(s.last()) {
            (done, Some(
                match cur {
                    Some(v) => v,
                    None => 0,
                } * 10 + digit_value(s.last()),
            ))
        } else {
            (
                match cur {
                    Some(v) => done.push(v),
                    None => done,
                },
                None,
            )
        }
    }
}

/// The decimal numbers in `s`, in order: each maximal run of digits, read in
/// base ten. Every other character separates numbers.
pub open spec fn numbers(s: Seq<char>) -> Seq<int> {
    let (done, cur) = scan(s);
    match cur {
        Some(v) => done.push(v),
        None => done,
    }
}

proof fn lemma_scan_nonneg(s: Seq<char>)
    ensures
        scan(s).1 matches Some(v) ==> v >= 0,
        forall|k: int| 0 <= k < scan(s).0.len() ==> #[trigger] scan(s).0[k] >= 0,
    decreases s.len(),
{
    if s.len() > 0 {
        lemma_scan_nonneg(s.drop_last());
    }
}

proof fn lemma_scan_prefix(s: Seq<char>, i: int)
    requires
        0 <= i <= s.len(),
    ensures
        scan(s.take(i)).0.len() <= numbers(s).len(),
        forall|k: int| 0 <= k < scan(s.take(i)).0.len() ==> #[trigger] scan(s.take(i)).0[k] == numbers(s)[k],
        scan(s.take(i)).1 matches Some(c) ==> scan(s.take(i)).0.len() < numbers(s).len() && c <= numbers(s)[scan(s.take(i)).0.len() as int],
    decreases s.len() - i,
{
    if i == s.len() {
        assert(s.take(i) =~= s);
    } else {
        lemma_scan_prefix(s, i + 1);
        let t = s.take(i);
        let t1 = s.take(i + 1);
        assert(t1.drop_last() =~= t);
        assert(t1.last() == s[i]);
        lemma_scan_nonneg(t);
        let (done, cur) = scan(t);
        if is_digit(s[i]) {
            assert(scan(t1).0 == done);
        } else {
            match cur {
                Some(v) => {
                    assert(scan(t1).0 == done.push(v));
                    assert(scan(t1).0[done.len() as int] == v);
                    assert forall|k: int| 0 <= k < done.len() implies #[trigger] done[k] == numbers(s)[k] by {
                        assert(scan(t1).0[k] == done[k]);
                    }
                },
                None => {
                    assert(scan(t1).0 == done);
                },
            }
        }
    }
}

/// The decimal numbers of `s`, where each is at most `max`.
pub fn read_numbers(s: &Vec<char>, max: u64) -> (r: Vec<u64>)
    requires
        forall|k: int| 0 <= k < numbers(s@).len() ==> #[trigger] numbers(s@)[k] <= max,
    ensures
        r@.len() == numbers(s@).len(),
        forall|k: int| 0 <= k < r@.len() ==> #[trigger] r@[k] as int == numbers(s@)[k],
{
    let mut done: Vec<u64> = Vec::new();
    let mut cur: Option<u64> = None;
    let mut i: usize = 0;
    while i < s.len()
        invariant
            i <= s@.len(),
            forall|k: int| 0 <= k < numbers(s@).len() ==> #[trigger] numbers(s@)[k] <= max,
            done@.len() == scan(s@.take(i as int)).0.len(),
            forall|k: int| 0 <= k < done@.len() ==> #[trigger] done@[k] as int == scan(s@.take(i as int)).0[k],
            match cur {
                Some(c) => scan(s@.take(i as int)).1 == Some(c as int),
                None => scan(s@.take(i as int)).1 is None,
            },
        decreases s@.len() - i,
    {
        let ch = s[i];
        proof {
            assert(s@.take(i + 1).drop_last() =~= s@.take(i as int));
            lemma_scan_prefix(s@, i + 1);
            lemma_scan_nonneg(s@.take(i as int));
        }
        if '0' <= ch && ch <= '9' {
            let d = (ch as u32 - '0' as u32) as u64;
            let base: u64 = match cur {
                Some(c) => c,
                None => 0,
            };
            cur = Some(base * 10 + d);
        } else {
            match cur {
                Some(c) => {
                    done.push(c);
                },
                None => {},
            }
            cur = None;
        }
        i = i + 1;
    }
    assert(s@.take(i as int) =~= s@);
    match cur {
        Some(c) => {
            done.push(c);
        },
        None => {},
    }
    done
}


/// All the numbers of `s` are at most `max`.
pub open spec fn numbers_fit(s: Seq<char>, max: int) -> bool {
    forall|k: int| 0 <= k < numbers(s).len() ==> #[trigger] numbers(s)[k] <= max
}

pub open spec fn u32s(v: Seq<u32>) -> Seq<int> {
    v.map_values(|x: u32| x as int)
}

pub open spec fn u64s(v: Seq<u64>) -> Seq<int> {
    v.map_values(|x: u64| x as int)
}

/// The decimal numbers of `s`, each at most `u32::MAX`.
pub fn read_u32s(s: &Vec<char>) -> (r: Vec<u32>)
    requires
        numbers_fit(s@, u32::MAX as int),
    ensures
        u32s(r@) == numbers(s@),
{
    let v = read_numbers(s, u32::MAX as u64);
    let mut r: Vec<u32> = Vec::new();
    let mut i: usize = 0;
    while i < v.len()
        invariant
            i <= v@.len() == numbers(s@).len(),
            numbers_fit(s@, u32::MAX as int),
            forall|k: int| 0 <= k < v@.len() ==> #[trigger] v@[k] as int == numbers(s@)[k],
            u32s(r@) == numbers(s@).take(i as int),
        decreases v@.len() - i,
    {
        let x = v[i];
        assert(numbers(s@)[i as int] <= u32::MAX);
        assert(x as int == numbers(s@)[i as int]);
        let ghost before = r@;
        r.push(x as u32);
        assert(u32s(r@) =~= u32s(before).push(x as int));
        i = i + 1;
        assert(u32s(r@) =~= numbers(s@).take(i as int));
    }
    assert(numbers(s@).take(i as int) =~= numbers(s@));
    r
}

/// The decimal numbers of `s`, each at most `u64::MAX`.
pub fn read_u64s(s: &Vec<char>) -> (r: Vec<u64>)
    requires
        numbers_fit(s@, u64::MAX as int),
    ensures
        u64s(r@) == numbers(s@),
{
    let v = read_numbers(s, u64::MAX);
    assert(u64s(v@) =~= numbers(s@));
    v
}

} // verus!
