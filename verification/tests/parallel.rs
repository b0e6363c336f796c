use rustorio_game::calculate_requirement;
use rustorio_game::parallel::{collection_plan, dues_fit, input_portions, outputs_ready};

#[test]
fn portions_scale_each_share() {
    assert_eq!(input_portions(&vec![4, 3, 3], 5), vec![20, 15, 15]);
    assert_eq!(input_portions(&vec![2, 1], 1), vec![2, 1]);
    assert_eq!(input_portions(&vec![], 3), Vec::<u32>::new());
}

#[test]
fn portions_empty_the_pool_without_running_short() {
    // Ten cycles over three machines, two units of input per cycle.
    let arrangement = calculate_requirement::<10>(3);
    let portions = input_portions(&arrangement, 2);
    let mut pool: u32 = 10 * 2;
    for p in portions {
        assert!(p <= pool);
        pool -= p;
    }
    assert_eq!(pool, 0);
}

#[test]
fn ready_only_when_every_machine_holds_its_due() {
    let arrangement = vec![4, 3, 3];
    assert!(outputs_ready(&vec![8, 6, 6], &arrangement, 2));
    assert!(outputs_ready(&vec![9, 7, 100], &arrangement, 2));
    assert!(!outputs_ready(&vec![8, 5, 6], &arrangement, 2));
    assert!(!outputs_ready(&vec![0, 0, 0], &arrangement, 2));
}

#[test]
fn ready_pairs_machines_and_shares_in_order() {
    // The shorter list ends the pairing.
    assert!(outputs_ready(&vec![4], &vec![4, 3, 3], 1));
    assert!(outputs_ready(&vec![4, 3, 0], &vec![4, 3], 1));
    assert!(outputs_ready(&vec![], &vec![1], 1));
}

#[test]
fn collection_takes_exactly_the_due() {
    let (plan, total) = collection_plan(&vec![9, 6, 7], &vec![4, 3, 3], 2);
    assert_eq!(plan, vec![8, 6, 6]);
    assert_eq!(total, 20);
}

#[test]
fn collection_skips_machines_that_are_short() {
    let (plan, total) = collection_plan(&vec![9, 5, 7], &vec![4, 3, 3], 2);
    assert_eq!(plan, vec![8, 0, 6]);
    assert_eq!(total, 14);
}

#[test]
fn collection_is_complete_exactly_when_ready() {
    let arrangement = calculate_requirement::<5>(2);
    let done = vec![3, 2];
    let short = vec![3, 1];
    assert!(outputs_ready(&done, &arrangement, 1));
    assert_eq!(collection_plan(&done, &arrangement, 1).1, 5);
    assert!(!outputs_ready(&short, &arrangement, 1));
    assert!(collection_plan(&short, &arrangement, 1).1 < 5);
}

#[test]
fn dues_fit_when_their_sum_fits_a_u32() {
    assert!(dues_fit(&vec![4, 3, 3], 2));
    assert!(dues_fit(&vec![], u32::MAX));
    assert!(dues_fit(&vec![u32::MAX], 1));
    assert!(!dues_fit(&vec![u32::MAX, 1], 1));
    assert!(dues_fit(&vec![1, 0], u32::MAX - 1));
    assert!(!dues_fit(&vec![2], u32::MAX));
    assert!(dues_fit(&vec![2], u32::MAX / 2));
    assert!(!dues_fit(&vec![u32::MAX, u32::MAX], u32::MAX));
}

#[test]
fn fitting_dues_bound_every_collection() {
    let arrangement = calculate_requirement::<{ u32::MAX }>(3);
    assert!(dues_fit(&arrangement, 1));
    assert!(!dues_fit(&arrangement, 2));
    let (plan, total) = collection_plan(&vec![u32::MAX, u32::MAX, u32::MAX], &arrangement, 1);
    assert_eq!(plan, arrangement);
    assert_eq!(total, u32::MAX);
}
