//! The decisions of the mining and bootstrapping routines: how ore is gained,
//! when another furnace is worth building, and which field a new miner goes to.

use vstd::prelude::*;

verus! {

/// Amount of iron ore a territory must hold before another iron furnace is
/// built while bootstrapping miners.
pub const IRON_BUILD_FUR: u32 = 10;

/// What to do next when a bundle of ore is wanted from a territory.
#[derive(Debug, Clone, Copy, PartialEq, Eq, Structural)]
pub enum MineStep {
    /// The territory has no miners: mine the whole bundle by hand.
    HandMine,
    /// Miners are working but have not yet gathered enough: let time pass.
    Wait,
    /// The territory holds at least the wanted amount: take the bundle.
    Take,
}

/// The next step towards a bundle of `wanted` ore from a territory with
/// `num_miners` miners that currently holds `available` ore.
pub fn mine_step(num_miners: u32, available: u32, wanted: u32) -> (s: MineStep)
    ensures
        num_miners == 0 ==> s == MineStep::HandMine,
        num_miners > 0 && available >= wanted ==> s == MineStep::Take,
        num_miners > 0 && available < wanted ==> s == MineStep::Wait,
{
    if num_miners == 0 {
        MineStep::HandMine
    } else if available >= wanted {
        MineStep::Take
    } else {
        MineStep::Wait
    }
}

/// Whether to build one more iron furnace before the next miner: the iron
/// territory must hold at least `IRON_BUILD_FUR` ore and the row of furnaces
/// must be shorter than `max_furnace`.
pub fn should_build_furnace(iron_ore: u32, furnace_count: usize, max_furnace: usize) -> (b: bool)
    ensures
        b == (iron_ore >= IRON_BUILD_FUR && furnace_count < max_furnace),
{
    iron_ore >= IRON_BUILD_FUR && furnace_count < max_furnace
}

/// The two ore fields a miner can be placed on.
#[derive(Debug, Clone, Copy, PartialEq, Eq, Structural)]
pub enum OreField {
    Copper,
    Iron,
}

/// Where the `i`-th new miner is placed: miners alternate between the fields,
/// starting with copper.
pub open spec fn destination(i: int) -> OreField {
    if i % 2 == 0 {
        OreField::Copper
    } else {
        OreField::Iron
    }
}

/// The field that the `i`-th new miner is placed on.
pub fn miner_destination(i: u32) -> (f: OreField)
    ensures
        f == destination(i as int),
        i % 2 == 0 ==> f == OreField::Copper,
        i % 2 == 1 ==> f == OreField::Iron,
{
    if i % 2 == 0 {
        OreField::Copper
    } else {
        OreField::Iron
    }
}

/// How many of the first `n` new miners are placed on `field`.
pub open spec fn placed_on(n: nat, field: OreField) -> nat
    decreases n,
{
    if n == 0 {
        0
    } else {
        placed_on((n - 1) as nat, field) + if destination(n - 1) == field {
            1nat
        } else {
            0nat
        }
    }
}

/// Law: of the first `n` new miners, `(n + 1) / 2` go to copper and `n / 2`
/// to iron, so of `2 * k` miners each field gets exactly `k`, and no field
/// ever gets more than `k` along the way.
pub proof fn lemma_miners_alternate(n: nat, k: nat)
    ensures
        placed_on(n, OreField::Copper) == (n + 1) / 2,
        placed_on(n, OreField::Iron) == n / 2,
        n <= 2 * k ==> placed_on(n, OreField::Copper) <= k && placed_on(n, OreField::Iron) <= k,
        n == 2 * k ==> placed_on(n, OreField::Copper) == k && placed_on(n, OreField::Iron) == k,
    decreases n,
{
    if n > 0 {
        lemma_miners_alternate((n - 1) as nat, k);
    }
}

} // verus!
