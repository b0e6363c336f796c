//! Splitting an amount of work as evenly as possible over a number of machines.

use vstd::prelude::*;

verus! {

/// The share of machine `i` when `amount` is split over `machine_num` machines:
/// the quotient, plus one for each of the first `amount % machine_num` machines.
pub open spec fn share(amount: int, machine_num: int, i: int) -> int {
    amount / machine_num + if i < amount % machine_num { 1int } else { 0int }
}

/// The shares of all `machine_num` machines, in machine order.
pub open spec fn shares(amount: int, machine_num: nat) -> Seq<int> {
    Seq::new(machine_num, |i: int| share(amount, machine_num as int, i))
}

/// The sum of a sequence of integers.
pub open spec fn sum(s: Seq<int>) -> int
    decreases s.len(),
{
    if s.len() == 0 {
        0
    } else {
        sum(s.drop_last()) + s.last()
    }
}

/// A sequence of machine integers read as mathematical integers.
pub open spec fn as_ints(v: Seq<u32>) -> Seq<int> {
    v.map_values(|x: u32| x as int)
}

/// Taking one more element of a sequence adds that element to the sum.
pub proof fn lemma_sum_take_step(s: Seq<int>, k: int)
    requires
        0 <= k < s.len(),
    ensures
        sum(s.take(k + 1)) == sum(s.take(k)) + s[k],
{
    assert(s.take(k + 1).drop_last() =~= s.take(k));
}

/// Over a sequence of non-negative integers, a prefix sums to at most the
/// prefix one longer.
pub proof fn lemma_sum_prefix_monotone(s: Seq<int>, j: int, k: int)
    requires
        0 <= j <= k <= s.len(),
        forall|i: int| 0 <= i < s.len() ==> s[i] >= 0,
    ensures
        sum(s.take(j)) <= sum(s.take(k)),
    decreases k - j,
{
    if j < k {
        lemma_sum_prefix_monotone(s, j, k - 1);
        lemma_sum_take_step(s, k - 1);
    }
}

/// The first `k` shares add up to `k` quotients plus one for each of the
/// first `k` machines that gets an extra unit.
proof fn lemma_shares_prefix_sum(amount: int, m: nat, k: int)
    requires
        m > 0,
        0 <= k <= m,
    ensures
        sum(shares(amount, m).take(k)) == k * (amount / m as int) + if k < amount % m as int {
            k
        } else {
            amount % m as int
        },
    decreases k,
{
    let s = shares(amount, m);
    if k == 0 {
        assert(s.take(0) =~= Seq::<int>::empty());
    } else {
        lemma_shares_prefix_sum(amount, m, k - 1);
        lemma_sum_take_step(s, k - 1);
        assert(k * (amount / m as int) == (k - 1) * (amount / m as int) + amount / m as int)
            by (nonlinear_arith);
    }
}

/// Law: the shares of a split add up to the amount that was split, so no
/// unit of work is lost or invented.
pub proof fn lemma_shares_sum(amount: int, machine_num: nat)
    requires
        machine_num > 0,
    ensures
        sum(shares(amount, machine_num)) == amount,
{
    let s = shares(amount, machine_num);
    lemma_shares_prefix_sum(amount, machine_num, machine_num as int);
    assert(s.take(machine_num as int) =~= s);
    vstd::arithmetic::div_mod::lemma_fundamental_div_mod(amount, machine_num as int);
}

/// Law: a split is as even as it can be and front-loaded: a machine never gets
/// less than a machine after it, and never more than one unit more.
pub proof fn lemma_shares_balanced(amount: int, machine_num: nat, i: int, j: int)
    requires
        machine_num > 0,
        0 <= i <= j < machine_num,
    ensures
        shares(amount, machine_num)[j] <= shares(amount, machine_num)[i],
        shares(amount, machine_num)[i] <= shares(amount, machine_num)[j] + 1,
        shares(amount, machine_num)[i] >= amount / machine_num as int,
{
}

proof fn lemma_base_below_max(amount: int, m: int)
    requires
        0 <= amount <= u32::MAX,
        m > 0,
        amount % m > 0,
    ensures
        amount / m < u32::MAX,
{
    vstd::arithmetic::div_mod::lemma_fundamental_div_mod(amount, m);
    assert(amount / m < u32::MAX) by (nonlinear_arith)
        requires
            amount == m * (amount / m) + amount % m,
            amount % m > 0,
            amount % m < m,
            amount <= u32::MAX,
            m > 0,
            amount / m >= 0,
    ;
}

/// Splits `AMOUNT` units of work over `machine_num` machines: every machine
/// gets `AMOUNT / machine_num`, and the first `AMOUNT % machine_num` machines
/// get one unit more. The shares add up to `AMOUNT`.
pub fn calculate_requirement<const AMOUNT: u32>(machine_num: usize) -> (r: Vec<u32>)
    requires
        machine_num > 0,
    ensures
        r.len() == machine_num,
        forall|i: int| 0 <= i < machine_num ==> r[i] == share(AMOUNT as int, machine_num as int, i),
        as_ints(r@) == shares(AMOUNT as int, machine_num as nat),
        sum(as_ints(r@)) == AMOUNT,
{
    let base: u32 = (AMOUNT as usize / machine_num) as u32;
    let extra: usize = AMOUNT as usize % machine_num;
    let mut v: Vec<u32> = Vec::new();
    let mut i: usize = 0;
    while i < machine_num
        invariant
            i <= machine_num,
            v.len() == i,
            base == AMOUNT as int / machine_num as int,
            extra == AMOUNT as int % machine_num as int,
            forall|j: int| 0 <= j < i ==> v[j] == share(AMOUNT as int, machine_num as int, j),
        decreases machine_num - i,
    {
        if i < extra {
            proof {
                lemma_base_below_max(AMOUNT as int, machine_num as int);
            }
            v.push(base + 1);
        } else {
            v.push(base);
        }
        i = i + 1;
    }
    assert(as_ints(v@) =~= shares(AMOUNT as int, machine_num as nat));
    proof {
        lemma_shares_sum(AMOUNT as int, machine_num as nat);
    }
    v
}

} // verus!
