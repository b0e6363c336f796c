use rustorio_game::mining::{
    miner_destination, mine_step, should_build_furnace, MineStep, OreField, IRON_BUILD_FUR,
};

#[test]
fn without_miners_ore_is_mined_by_hand() {
    assert_eq!(mine_step(0, 0, 10), MineStep::HandMine);
    assert_eq!(mine_step(0, 500, 10), MineStep::HandMine);
}

#[test]
fn with_miners_wait_until_enough_ore() {
    assert_eq!(mine_step(3, 9, 10), MineStep::Wait);
    assert_eq!(mine_step(3, 10, 10), MineStep::Take);
    assert_eq!(mine_step(1, 11, 10), MineStep::Take);
}

#[test]
fn furnaces_are_built_while_ore_and_room_remain() {
    assert_eq!(IRON_BUILD_FUR, 10);
    assert!(should_build_furnace(10, 1, 10));
    assert!(!should_build_furnace(9, 1, 10));
    assert!(!should_build_furnace(100, 10, 10));
    assert!(!should_build_furnace(100, 11, 10));
}

#[test]
fn miners_alternate_starting_with_copper() {
    assert_eq!(miner_destination(0), OreField::Copper);
    assert_eq!(miner_destination(1), OreField::Iron);
    assert_eq!(miner_destination(2), OreField::Copper);
    assert_eq!(miner_destination(u32::MAX), OreField::Iron);
}

#[test]
fn each_field_gets_half_of_an_even_number_of_miners() {
    let max_miner: u32 = 20;
    let copper = (0..2 * max_miner)
        .filter(|&i| miner_destination(i) == OreField::Copper)
        .count();
    let iron = (0..2 * max_miner)
        .filter(|&i| miner_destination(i) == OreField::Iron)
        .count();
    assert_eq!(copper, 20);
    assert_eq!(iron, 20);
}
