use vstd::prelude::*;

use crate::elapsed::Elapsed;

use vstd::arithmetic::power::pow;

verus! {

/// What was measured on one connection, or on a group of them: the bytes
/// moved, the time spent moving them, and how many streams took part.
#[derive(Debug)]
pub struct Rate {
    pub local: String,
    pub peer: String,
    pub bytes: u64,
    pub elapsed: Elapsed,
    pub threads: usize,
}

/// The number of display units: bits/s, Kbits/s, Mbits/s, Gbits/s, Tbits/s
/// and Pbits/s.
pub const UNIT_COUNT: usize = 6;

/// `1024` to the power `i`: the size of display unit `i`.
pub open spec fn unit_scale(i: nat) -> nat
    decreases i,
{
    if i == 0 {
        1
    } else {
        1024 * unit_scale((i - 1) as nat)
    }
}

/// Searching down from unit `i`, the first unit whose size the rate reaches;
/// unit 0 when none above it is reached.
pub open spec fn unit_search(rate: nat, i: nat) -> nat
    decreases i,
{
    if i == 0 {
        0
    } else if unit_scale(i) <= rate {
        i
    } else {
        unit_search(rate, (i - 1) as nat)
    }
}

/// The display unit of a rate: the largest unit of which the rate holds at
/// least one whole, or unit 0.
pub open spec fn unit_for(rate: nat) -> nat {
    unit_search(rate, 5)
}

/// Display unit `i` is `1024` to the power `i`.
pub proof fn lemma_unit_scale_is_power(i: nat)
    ensures
        unit_scale(i) == pow(1024, i),
    decreases i,
{
    reveal(pow);
    if i > 0 {
        lemma_unit_scale_is_power((i - 1) as nat);
    }
}

/// The display unit of a rate is the largest of the six units, sized by the
/// powers of 1024, of which the rate holds at least one whole: the rate
/// reaches its size and, below the largest unit, stays under the next one.
/// A rate of nothing is shown in the first unit.
pub proof fn lemma_unit_is_largest_whole(rate: nat)
    ensures
        unit_for(rate) < 6,
        rate >= 1 ==> pow(1024, unit_for(rate)) <= rate,
        unit_for(rate) < 5 ==> rate < pow(1024, unit_for(rate) + 1),
        rate == 0 ==> unit_for(rate) == 0,
{
    reveal_with_fuel(pow, 7);
    reveal_with_fuel(unit_scale, 7);
    reveal_with_fuel(unit_search, 7);
    lemma_unit_scale_is_power(0);
    lemma_unit_scale_is_power(1);
    lemma_unit_scale_is_power(2);
    lemma_unit_scale_is_power(3);
    lemma_unit_scale_is_power(4);
    lemma_unit_scale_is_power(5);
    assert(pow(1024, 1) == 1024);
    assert(pow(1024, 2) == 1_048_576);
    assert(pow(1024, 3) == 1_073_741_824);
    assert(pow(1024, 4) == 1_099_511_627_776);
    assert(pow(1024, 5) == 1_125_899_906_842_624);
}

/// The size of display unit `i`, for `i` below [`UNIT_COUNT`].
pub fn unit_size(i: usize) -> (r: u64)
    requires
        i < UNIT_COUNT,
    ensures
        r == unit_scale(i as nat),
        r == pow(1024, i as nat),
{
    proof {
        reveal_with_fuel(unit_scale, 6);
        lemma_unit_scale_is_power(i as nat);
    }
    if i == 0 {
        1
    } else if i == 1 {
        1024
    } else if i == 2 {
        1_048_576
    } else if i == 3 {
        1_073_741_824
    } else if i == 4 {
        1_099_511_627_776
    } else {
        1_125_899_906_842_624
    }
}

/// The display unit for a rate in whole bits per second: searching from the
/// largest unit down, the first one of which the rate holds a whole.
pub fn unit_index(rate: u64) -> (r: usize)
    ensures
        r == unit_for(rate as nat),
        r < UNIT_COUNT,
        rate >= 1 ==> unit_scale(r as nat) <= rate,
        r < 5 ==> rate < unit_scale((r + 1) as nat),
        rate >= 1 ==> pow(1024, r as nat) <= rate,
        r < 5 ==> rate < pow(1024, (r + 1) as nat),
{
    proof {
        lemma_unit_is_largest_whole(rate as nat);
        reveal_with_fuel(unit_scale, 6);
        reveal_with_fuel(unit_search, 6);
    }
    let mut i: usize = 5;
    while i > 0
        invariant
            i <= 5,
            unit_search(rate as nat, 5) == unit_search(rate as nat, i as nat),
            forall|j: nat| i < j <= 5 ==> rate < #[trigger] unit_scale(j),
        decreases i,
    {
        proof {
            reveal_with_fuel(unit_scale, 6);
            reveal_with_fuel(unit_search, 6);
        }
        let size = unit_size(i);
        let wholes = rate / size;
        assert(wholes != 0 <==> size <= rate) by (nonlinear_arith)
            requires
                size > 0,
                wholes == rate / size,
        ;
        if wholes != 0 {
            proof {
                lemma_unit_is_largest_whole(rate as nat);
            }
            return i;
        }
        i = i - 1;
    }
    0
}

/// The prefix that names display unit `i`.
pub fn unit_prefix(i: usize) -> (r: &'static str)
    requires
        i < UNIT_COUNT,
    ensures
        i == 0 ==> r@ == ""@,
        i == 1 ==> r@ == "K"@,
        i == 2 ==> r@ == "M"@,
        i == 3 ==> r@ == "G"@,
        i == 4 ==> r@ == "T"@,
        i == 5 ==> r@ == "P"@,
{
    if i == 0 {
        ""
    } else if i == 1 {
        "K"
    } else if i == 2 {
        "M"
    } else if i == 3 {
        "G"
    } else if i == 4 {
        "T"
    } else {
        "P"
    }
}

} // verus!
