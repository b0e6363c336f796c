//! One round of parallel production over a row of machines: what each machine
//! is handed, when the row is done, and what is collected back from it.
//!
//! Machine `i` of a round is paired with entry `i` of the round's arrangement
//! (its share of recipe cycles, see `calculate_requirement`); a machine or a
//! share without a partner takes no part in the round.

use vstd::prelude::*;
use crate::requirement::{as_ints, sum, shares, lemma_sum_take_step, lemma_shares_sum, lemma_sum_prefix_monotone};

verus! {

/// Each entry of `s` multiplied by `factor`.
pub open spec fn scale(s: Seq<int>, factor: int) -> Seq<int> {
    Seq::new(s.len(), |i: int| s[i] * factor)
}

/// The number of machines that take part in a round: machines and shares are
/// paired in order, and the shorter list ends the pairing.
pub open spec fn paired_len(outputs: Seq<u32>, arrangement: Seq<u32>) -> int {
    if outputs.len() <= arrangement.len() {
        outputs.len() as int
    } else {
        arrangement.len() as int
    }
}

/// Machine `i` holds at least the output of its share of recipe cycles.
pub open spec fn machine_done(outputs: Seq<u32>, arrangement: Seq<u32>, factor: int, i: int) -> bool {
    outputs[i] >= arrangement[i] * factor
}

/// Every machine among the first `k` of the round is done.
pub open spec fn done_before(outputs: Seq<u32>, arrangement: Seq<u32>, factor: int, k: int) -> bool {
    forall|j: int| 0 <= j < k ==> machine_done(outputs, arrangement, factor, j)
}

/// Every machine that takes part in the round is done.
pub open spec fn all_done(outputs: Seq<u32>, arrangement: Seq<u32>, factor: int) -> bool {
    done_before(outputs, arrangement, factor, paired_len(outputs, arrangement))
}

/// What is taken from each machine at the end of a round: its whole due
/// (share times output factor) where it holds that much, and nothing where it
/// holds less.
pub open spec fn taken(outputs: Seq<u32>, arrangement: Seq<u32>, factor: int) -> Seq<int> {
    Seq::new(
        paired_len(outputs, arrangement) as nat,
        |i: int|
            if machine_done(outputs, arrangement, factor, i) {
                arrangement[i] * factor
            } else {
                0
            },
    )
}

/// Whether every amount of a round can be counted in a `u32`: the dues of all
/// machines (each share times `factor`) add up to at most `u32::MAX`.
pub fn dues_fit(arrangement: &Vec<u32>, factor: u32) -> (b: bool)
    ensures
        b == (sum(scale(as_ints(arrangement@), factor as int)) <= u32::MAX),
{
    let ghost p = scale(as_ints(arrangement@), factor as int);
    proof {
        lemma_scale_nonneg(as_ints(arrangement@), factor as int);
    }
    let mut total: u64 = 0;
    let mut i: usize = 0;
    while i < arrangement.len()
        invariant
            p == scale(as_ints(arrangement@), factor as int),
            p.len() == arrangement.len(),
            forall|j: int| 0 <= j < p.len() ==> p[j] >= 0,
            i <= arrangement.len(),
            total == sum(p.take(i as int)),
            total <= u32::MAX,
        decreases arrangement.len() - i,
    {
        proof {
            lemma_sum_take_step(p, i as int);
            assert(arrangement[i as int] * factor <= 0xffff_fffe_0000_0001u64) by (nonlinear_arith)
                requires
                    arrangement[i as int] <= u32::MAX,
                    factor <= u32::MAX,
            ;
        }
        let due: u64 = arrangement[i] as u64 * factor as u64;
        if total + due > u32::MAX as u64 {
            proof {
                lemma_sum_prefix_monotone(p, i + 1, p.len() as int);
                assert(p.take(p.len() as int) =~= p);
            }
            return false;
        }
        total = total + due;
        i = i + 1;
    }
    assert(p.take(p.len() as int) =~= p);
    true
}

/// The entries of a scaled sequence of non-negative integers are
/// non-negative.
proof fn lemma_scale_nonneg(s: Seq<int>, factor: int)
    requires
        factor >= 0,
        forall|i: int| 0 <= i < s.len() ==> s[i] >= 0,
    ensures
        forall|i: int| 0 <= i < s.len() ==> #[trigger] scale(s, factor)[i] >= 0,
{
    assert forall|i: int| 0 <= i < s.len() implies #[trigger] scale(s, factor)[i] >= 0 by {
        assert(s[i] * factor >= 0) by (nonlinear_arith)
            requires
                s[i] >= 0,
                factor >= 0,
        ;
    }
}

/// Law: when the dues of a round fit in a `u32`, so does every single due, and
/// so does whatever total is collected at the end of the round, whatever the
/// machines hold.
pub proof fn lemma_dues_fit_bounds(outputs: Seq<u32>, arrangement: Seq<u32>, factor: nat)
    requires
        sum(scale(as_ints(arrangement), factor as int)) <= u32::MAX,
    ensures
        forall|i: int| 0 <= i < arrangement.len() ==> arrangement[i] * factor <= u32::MAX,
        sum(taken(outputs, arrangement, factor as int)) <= u32::MAX,
{
    let p = scale(as_ints(arrangement), factor as int);
    lemma_scale_nonneg(as_ints(arrangement), factor as int);
    assert forall|i: int| 0 <= i < arrangement.len() implies arrangement[i] * factor
        <= u32::MAX by {
        lemma_sum_take_step(p, i);
        lemma_sum_prefix_monotone(p, 0, i);
        lemma_sum_prefix_monotone(p, i + 1, p.len() as int);
        assert(p.take(p.len() as int) =~= p);
        assert(p.take(0) =~= Seq::<int>::empty());
    }
    let n = paired_len(outputs, arrangement);
    let t = taken(outputs, arrangement, factor as int);
    let q = p.take(n);
    assert forall|i: int| 0 <= i < t.len() implies t[i] <= q[i] by {}
    lemma_sum_pointwise_le(t, q);
    lemma_sum_prefix_monotone(p, n, p.len() as int);
    assert(p.take(p.len() as int) =~= p);
}

/// The amounts handed to the machines of a round: each share of recipe cycles
/// times the amount of input one cycle consumes.
pub fn input_portions(arrangement: &Vec<u32>, factor: u32) -> (r: Vec<u32>)
    requires
        forall|i: int| 0 <= i < arrangement.len() ==> arrangement[i] * factor <= u32::MAX,
    ensures
        r.len() == arrangement.len(),
        forall|i: int| 0 <= i < r.len() ==> r[i] == arrangement[i] * factor,
        as_ints(r@) == scale(as_ints(arrangement@), factor as int),
{
    let mut r: Vec<u32> = Vec::new();
    let mut i: usize = 0;
    while i < arrangement.len()
        invariant
            i <= arrangement.len(),
            r.len() == i,
            forall|j: int| 0 <= j < arrangement.len() ==> arrangement[j] * factor <= u32::MAX,
            forall|j: int| 0 <= j < i ==> r[j] == arrangement[j] * factor,
        decreases arrangement.len() - i,
    {
        let portion: u32 = arrangement[i] * factor;
        r.push(portion);
        i = i + 1;
    }
    assert(as_ints(r@) =~= scale(as_ints(arrangement@), factor as int));
    r
}

/// Whether every machine of the round holds its due output: machine `i` is
/// done when its output amount `outputs[i]` is at least its share
/// `arrangement[i]` times the output of one cycle.
pub fn outputs_ready(outputs: &Vec<u32>, arrangement: &Vec<u32>, factor: u32) -> (b: bool)
    requires
        forall|i: int|
            0 <= i < paired_len(outputs@, arrangement@) && done_before(
                outputs@,
                arrangement@,
                factor as int,
                i,
            ) ==> arrangement[i] * factor <= u32::MAX,
    ensures
        b == all_done(outputs@, arrangement@, factor as int),
        b <==> forall|i: int|
            0 <= i < paired_len(outputs@, arrangement@) ==> outputs[i] >= arrangement[i] * factor,
{
    let n: usize = if outputs.len() <= arrangement.len() {
        outputs.len()
    } else {
        arrangement.len()
    };
    let mut i: usize = 0;
    while i < n
        invariant
            n == paired_len(outputs@, arrangement@),
            i <= n,
            done_before(outputs@, arrangement@, factor as int, i as int),
            forall|k: int|
                0 <= k < n && done_before(outputs@, arrangement@, factor as int, k)
                    ==> arrangement[k] * factor <= u32::MAX,
        decreases n - i,
    {
        let due: u32 = arrangement[i] * factor;
        if outputs[i] < due {
            assert(!machine_done(outputs@, arrangement@, factor as int, i as int));
            proof {
                lemma_all_done_iff_every_due_held(outputs@, arrangement@, factor as int);
            }
            return false;
        }
        i = i + 1;
    }
    proof {
        lemma_all_done_iff_every_due_held(outputs@, arrangement@, factor as int);
    }
    true
}

/// What to take from each machine at the end of a round, and the total: a
/// machine that holds its due gives exactly its due, any other gives nothing.
pub fn collection_plan(outputs: &Vec<u32>, arrangement: &Vec<u32>, factor: u32) -> (r: (
    Vec<u32>,
    u32,
))
    requires
        forall|i: int|
            0 <= i < paired_len(outputs@, arrangement@) ==> arrangement[i] * factor <= u32::MAX,
        sum(taken(outputs@, arrangement@, factor as int)) <= u32::MAX,
    ensures
        r.0.len() == paired_len(outputs@, arrangement@),
        forall|i: int|
            0 <= i < r.0.len() ==> r.0[i] == if outputs[i] >= arrangement[i] * factor {
                arrangement[i] * factor
            } else {
                0
            },
        as_ints(r.0@) == taken(outputs@, arrangement@, factor as int),
        r.1 == sum(taken(outputs@, arrangement@, factor as int)),
        r.1 == sum(as_ints(r.0@)),
        forall|i: int| 0 <= i < r.0.len() ==> r.0[i] <= outputs[i],
{
    let ghost t = taken(outputs@, arrangement@, factor as int);
    let n: usize = if outputs.len() <= arrangement.len() {
        outputs.len()
    } else {
        arrangement.len()
    };
    proof {
        lemma_taken_prefix_bounded(t, n as int);
    }
    let mut plan: Vec<u32> = Vec::new();
    let mut total: u32 = 0;
    let mut i: usize = 0;
    while i < n
        invariant
            n == paired_len(outputs@, arrangement@),
            t == taken(outputs@, arrangement@, factor as int),
            t.len() == n,
            i <= n,
            plan.len() == i,
            forall|j: int| 0 <= j < i ==> plan[j] == t[j],
            forall|j: int| 0 <= j < i ==> plan[j] <= outputs[j],
            total == sum(t.take(i as int)),
            forall|j: int| 0 <= j <= n ==> #[trigger] sum(t.take(j)) <= sum(t),
            sum(t) <= u32::MAX,
            forall|j: int| 0 <= j < n ==> arrangement[j] * factor <= u32::MAX,
        decreases n - i,
    {
        let due: u32 = arrangement[i] * factor;
        let give: u32 = if outputs[i] >= due {
            due
        } else {
            0
        };
        proof {
            lemma_sum_take_step(t, i as int);
            assert(sum(t.take(i + 1)) <= sum(t));
        }
        plan.push(give);
        total = total + give;
        i = i + 1;
    }
    assert(t.take(n as int) =~= t);
    assert(as_ints(plan@) =~= t);
    assert forall|i: int| 0 <= i < plan.len() implies plan[i] == if outputs[i] >= arrangement[i]
        * factor {
        arrangement[i] * factor
    } else {
        0
    } by {
        assert(plan[i] == t[i]);
    }
    (plan, total)
}

/// Every entry of `t` is non-negative, so each prefix sums to at most the
/// whole.
proof fn lemma_taken_prefix_bounded(t: Seq<int>, n: int)
    requires
        n == t.len(),
        forall|i: int| 0 <= i < n ==> t[i] >= 0,
    ensures
        forall|j: int| 0 <= j <= n ==> #[trigger] sum(t.take(j)) <= sum(t),
{
    assert forall|j: int| 0 <= j <= n implies #[trigger] sum(t.take(j)) <= sum(t) by {
        lemma_sum_prefix_monotone(t, j, n);
        assert(t.take(n) =~= t);
    }
}

/// Multiplying every entry by `factor` multiplies the sum by `factor`.
pub proof fn lemma_sum_scale(s: Seq<int>, factor: int)
    ensures
        sum(scale(s, factor)) == sum(s) * factor,
    decreases s.len(),
{
    if s.len() > 0 {
        lemma_sum_scale(s.drop_last(), factor);
        assert(scale(s, factor).drop_last() =~= scale(s.drop_last(), factor));
        assert((sum(s.drop_last()) + s.last()) * factor == sum(s.drop_last()) * factor + s.last()
            * factor) by (nonlinear_arith);
    }
}

/// Entrywise at most means at most in sum, and strictly less in sum where
/// some entry is strictly less.
pub proof fn lemma_sum_pointwise_le(a: Seq<int>, b: Seq<int>)
    requires
        a.len() == b.len(),
        forall|i: int| 0 <= i < a.len() ==> a[i] <= b[i],
    ensures
        sum(a) <= sum(b),
        (exists|i: int| 0 <= i < a.len() && a[i] < b[i]) ==> sum(a) < sum(b),
    decreases a.len(),
{
    if a.len() > 0 {
        lemma_sum_pointwise_le(a.drop_last(), b.drop_last());
        if exists|i: int| 0 <= i < a.len() && a[i] < b[i] {
            let i = choose|i: int| 0 <= i < a.len() && a[i] < b[i];
            if i < a.len() - 1 {
                assert(a.drop_last()[i] < b.drop_last()[i]);
            }
        }
    }
}

/// Law: the portions of a round, handed out one machine after another from a
/// pool of `amount` cycles' worth of input, never run short and empty the pool
/// exactly.
pub proof fn lemma_portions_cover_pool(amount: nat, machine_num: nat, factor: nat)
    requires
        machine_num > 0,
    ensures
        sum(scale(shares(amount as int, machine_num), factor as int)) == amount * factor,
        forall|k: int|
            0 <= k < machine_num ==> sum(
                scale(shares(amount as int, machine_num), factor as int).take(k),
            ) + #[trigger] scale(shares(amount as int, machine_num), factor as int)[k] <= amount
                * factor,
{
    let p = scale(shares(amount as int, machine_num), factor as int);
    lemma_shares_sum(amount as int, machine_num);
    lemma_sum_scale(shares(amount as int, machine_num), factor as int);
    assert forall|i: int| 0 <= i < p.len() implies p[i] >= 0 by {
        assert(shares(amount as int, machine_num)[i] >= 0);
        assert(shares(amount as int, machine_num)[i] * factor >= 0) by (nonlinear_arith)
            requires
                shares(amount as int, machine_num)[i] >= 0,
                factor >= 0,
        ;
    }
    assert forall|k: int| 0 <= k < machine_num implies sum(p.take(k)) + #[trigger] p[k] <= amount
        * factor by {
        lemma_sum_take_step(p, k);
        lemma_sum_prefix_monotone(p, k + 1, p.len() as int);
        assert(p.take(p.len() as int) =~= p);
    }
}

/// Law: at the end of a round whose shares split `amount` cycles, the total
/// collected is never more than `amount` cycles' worth of output, and it is
/// exactly that much if and only if every machine is done. So the round's
/// full output can be bundled exactly when the row is ready.
pub proof fn lemma_collection_complete_iff_done(
    outputs: Seq<u32>,
    arrangement: Seq<u32>,
    amount: nat,
    factor: nat,
)
    requires
        arrangement.len() > 0,
        outputs.len() == arrangement.len(),
        as_ints(arrangement) == shares(amount as int, arrangement.len()),
    ensures
        sum(taken(outputs, arrangement, factor as int)) <= amount * factor,
        sum(taken(outputs, arrangement, factor as int)) == amount * factor <==> all_done(
            outputs,
            arrangement,
            factor as int,
        ),
{
    let m = arrangement.len();
    let t = taken(outputs, arrangement, factor as int);
    let p = scale(as_ints(arrangement), factor as int);
    lemma_shares_sum(amount as int, m);
    lemma_sum_scale(as_ints(arrangement), factor as int);
    assert forall|i: int| 0 <= i < t.len() implies t[i] <= p[i] by {
        assert(arrangement[i] * factor >= 0) by (nonlinear_arith)
            requires
                arrangement[i] >= 0,
                factor >= 0,
        ;
    }
    lemma_sum_pointwise_le(t, p);
    if all_done(outputs, arrangement, factor as int) {
        assert(t =~= p);
    } else {
        let i = choose|i: int|
            0 <= i < m && !machine_done(outputs, arrangement, factor as int, i);
        assert(t[i] < p[i]);
    }
}

/// Law: a machine counts as done exactly when it holds at least its share of
/// cycles times the output of one cycle; holding the due is enough, and
/// nothing less is.
pub proof fn lemma_done_iff_holds_due(outputs: Seq<u32>, arrangement: Seq<u32>, factor: int, i: int)
    ensures
        machine_done(outputs, arrangement, factor, i) <==> outputs[i] >= arrangement[i] * factor,
{
}

/// Law: a round is done exactly when every paired machine holds at least its
/// due; in particular, when every machine holds exactly its due the round is
/// done.
pub proof fn lemma_all_done_iff_every_due_held(outputs: Seq<u32>, arrangement: Seq<u32>, factor: int)
    ensures
        all_done(outputs, arrangement, factor) <==> forall|i: int|
            0 <= i < paired_len(outputs, arrangement) ==> outputs[i] >= arrangement[i] * factor,
{
    let n = paired_len(outputs, arrangement);
    if all_done(outputs, arrangement, factor) {
        assert forall|i: int| 0 <= i < n implies outputs[i] >= arrangement[i] * factor by {
            assert(machine_done(outputs, arrangement, factor, i));
        }
    }
    if forall|i: int| 0 <= i < n ==> outputs[i] >= arrangement[i] * factor {
        assert forall|j: int| 0 <= j < n implies machine_done(outputs, arrangement, factor, j) by {
            assert(outputs[j] >= arrangement[j] * factor);
        }
    }
}

/// Law: from a machine that holds at least its due, collection takes exactly
/// its due; from one that holds less, it takes nothing; and a round where every
/// machine holds its due yields the sum of all dues.
pub proof fn lemma_taken_is_exact_due(outputs: Seq<u32>, arrangement: Seq<u32>, factor: int)
    ensures
        taken(outputs, arrangement, factor).len() == paired_len(outputs, arrangement),
        forall|i: int|
            0 <= i < paired_len(outputs, arrangement) && outputs[i] >= arrangement[i] * factor
                ==> #[trigger] taken(outputs, arrangement, factor)[i] == arrangement[i] * factor,
        forall|i: int|
            0 <= i < paired_len(outputs, arrangement) && outputs[i] < arrangement[i] * factor
                ==> #[trigger] taken(outputs, arrangement, factor)[i] == 0,
        (forall|i: int|
            0 <= i < paired_len(outputs, arrangement) ==> outputs[i] >= arrangement[i] * factor)
            ==> sum(taken(outputs, arrangement, factor)) == sum(
            scale(as_ints(arrangement), factor).take(paired_len(outputs, arrangement)),
        ),
{
    let n = paired_len(outputs, arrangement);
    if forall|i: int| 0 <= i < n ==> outputs[i] >= arrangement[i] * factor {
        assert(taken(outputs, arrangement, factor) =~= scale(as_ints(arrangement), factor).take(n));
    }
}

/// Law: a round pairs as many machines as the shorter of the two lists holds:
/// with as many shares as machines, every machine takes part.
pub proof fn lemma_paired_len_is_shorter(outputs: Seq<u32>, arrangement: Seq<u32>)
    ensures
        paired_len(outputs, arrangement) <= outputs.len(),
        paired_len(outputs, arrangement) <= arrangement.len(),
        paired_len(outputs, arrangement) == outputs.len() || paired_len(outputs, arrangement)
            == arrangement.len(),
        outputs.len() == arrangement.len() ==> paired_len(outputs, arrangement) == outputs.len(),
{
}

} // verus!
