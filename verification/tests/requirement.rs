use rustorio_game::calculate_requirement;

#[test]
fn splits_evenly_when_divisible() {
    assert_eq!(calculate_requirement::<12>(4), vec![3, 3, 3, 3]);
}

#[test]
fn front_machines_take_the_remainder() {
    assert_eq!(calculate_requirement::<10>(3), vec![4, 3, 3]);
    assert_eq!(calculate_requirement::<11>(4), vec![3, 3, 3, 2]);
}

#[test]
fn fewer_units_than_machines() {
    assert_eq!(calculate_requirement::<2>(5), vec![1, 1, 0, 0, 0]);
    assert_eq!(calculate_requirement::<0>(3), vec![0, 0, 0]);
}

#[test]
fn single_machine_takes_everything() {
    assert_eq!(calculate_requirement::<7>(1), vec![7]);
    assert_eq!(calculate_requirement::<{ u32::MAX }>(1), vec![u32::MAX]);
}

#[test]
fn largest_amount_over_two_machines() {
    assert_eq!(
        calculate_requirement::<{ u32::MAX }>(2),
        vec![u32::MAX / 2 + 1, u32::MAX / 2]
    );
}

#[test]
fn shares_add_up_to_the_amount() {
    let r = calculate_requirement::<1000>(7);
    assert_eq!(r.iter().map(|&x| x as u64).sum::<u64>(), 1000);
    let r = calculate_requirement::<{ u32::MAX }>(3);
    assert_eq!(r.iter().map(|&x| x as u64).sum::<u64>(), u32::MAX as u64);
}

#[test]
fn shares_are_balanced_and_front_loaded() {
    let r = calculate_requirement::<23>(6);
    assert_eq!(r, vec![4, 4, 4, 4, 4, 3]);
    for i in 0..r.len() {
        for j in i..r.len() {
            assert!(r[j] <= r[i]);
            assert!(r[i] <= r[j] + 1);
            assert!(r[i] >= 23 / 6);
        }
    }
}
