use vstd::prelude::*;

use crate::day01::ex1::{column, distance_sum, min_len, pair_lines, parse_input_tuple, similarity};
use crate::text::u32s;

verus! {

/// The first and the second number of each line, as two lists.
pub fn parse_input(input: &str) -> (r: (Vec<u32>, Vec<u32>))
    requires
        pair_lines(input@),
    ensures
        u32s(r.0@) == column(input@, 0),
        u32s(r.1@) == column(input@, 1),
{
    parse_input_tuple(input)
}

/// The summed distance of the pairs at equal indices.
pub fn part1(left: &Vec<u32>, right: &Vec<u32>) -> (r: u32)
    requires
        distance_sum(left@, right@, min_len(left@, right@)) <= u32::MAX,
    ensures
        r == distance_sum(left@, right@, min_len(left@, right@)),
{
    crate::day01::ex1::part1(left, right)
}

/// Each value of `left` times how often it occurs in `right`, summed.
pub fn part2(left: &Vec<u32>, right: &Vec<u32>) -> (r: u32)
    requires
        right@.len() <= u32::MAX,
        similarity(left@, right@, left@.len() as int) <= u32::MAX,
    ensures
        r == similarity(left@, right@, left@.len() as int),
{
    crate::day01::ex1::part2(left, right)
}

} // verus!
