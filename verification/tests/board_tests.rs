use hanoi_solver::hanoi_solver::Hanoi;

#[test]
fn should_create_gameboard_with_three_disk() {
    // GIVEN a number of disks
    let disk_amount = 3;

    // WHEN we create an hanoi tower
    let hanoi = Hanoi::new(disk_amount);

    // THEN the hanoi tower should have the following model
    assert_eq!(&vec![2, 1, 0], hanoi.rod(0));
    assert_eq!(&vec![] as &Vec<u32>, hanoi.rod(1));
    assert_eq!(&vec![] as &Vec<u32>, hanoi.rod(2));
}

#[test]
fn should_create_gameboard_with_five_disk() {
    // GIVEN a number of disks
    let disk_amount = 5;

    // WHEN we create an hanoi tower
    let hanoi = Hanoi::new(disk_amount);

    // THEN the hanoi tower should have the following model
    assert_eq!(&vec![4, 3, 2, 1, 0], hanoi.rod(0));
    assert_eq!(&vec![] as &Vec<u32>, hanoi.rod(1));
    assert_eq!(&vec![] as &Vec<u32>, hanoi.rod(2));
}

#[test]
fn shouldmove_disk_from_rod_1_to_rod_2() {
    // GIVEN a hanoi tower with 3 disks
    let mut hanoi = Hanoi::new(3);

    // WHEN we move a disk from rod 1 to rod 2
    let operation_result = hanoi.move_disk(0, 1);

    // THEN the hanoi tower should have the following model
    assert!(operation_result.is_ok());
    assert_eq!(&vec![2, 1], hanoi.rod(0));
    assert_eq!(&vec![0], hanoi.rod(1));
    assert_eq!(&vec![] as &Vec<u32>, hanoi.rod(2));
}

#[test]
fn should_not_move_from_rod_2_to_rod_1() {
    // GIVEN a hanoi tower with 3 disks
    let mut hanoi = Hanoi::new(3);

    // WHEN we move a disk from rod 2 to rod 1
    let operation_result = hanoi.move_disk(1, 0);

    // THEN the hanoi tower should have the following model
    assert!(operation_result.is_err());
    assert_eq!(&vec![2, 1, 0], hanoi.rod(0));
    assert_eq!(&vec![] as &Vec<u32>, hanoi.rod(1));
    assert_eq!(&vec![] as &Vec<u32>, hanoi.rod(2));
}

#[test]
fn should_not_move_big_disk_on_small_disk() {
    // GIVEN a hanoi tower with 3 disks
    let mut hanoi = Hanoi::new(3);

    // WHEN we move a disk from rod 1 to rod 2
    let operation_result = hanoi.move_disk(0, 1);

    // THEN the hanoi tower should have the following model
    assert!(operation_result.is_ok());
    assert_eq!(&vec![2, 1], hanoi.rod(0));
    assert_eq!(&vec![0], hanoi.rod(1));
    assert_eq!(&vec![] as &Vec<u32>, hanoi.rod(2));

    // WHEN we move a disk from rod 1 to rod 2
    let operation_result = hanoi.move_disk(0, 1);

    // THEN the hanoi tower should have the following model
    assert!(operation_result.is_err());
    assert_eq!(&vec![2, 1], hanoi.rod(0));
    assert_eq!(&vec![0], hanoi.rod(1));
    assert_eq!(&vec![] as &Vec<u32>, hanoi.rod(2));
}

#[test]
fn should_solve_the_hanoi_towers_with_three_disks() {
    // GIVEN a hanoi tower with 3 disks
    let disks_amount = 3;
    let mut hanoi = Hanoi::new(disks_amount);

    // WHEN we solve the hanoi tower
    let operation_result = hanoi.solve_recursive(disks_amount, 0, 2, 1);

    // THEN the hanoi tower should have the following model
    assert!(operation_result.is_ok());
    assert_eq!(&vec![] as &Vec<u32>, hanoi.rod(0));
    assert_eq!(&vec![] as &Vec<u32>, hanoi.rod(1));
    assert_eq!(&vec![2, 1, 0], hanoi.rod(2));
}

#[test]
fn should_solve_the_hanoi_towers_with_five_disks() {
    // GIVEN a hanoi tower with 5 disks
    let disks_amount = 5;
    let mut hanoi = Hanoi::new(disks_amount);

    // WHEN we solve the hanoi tower
    let operation_result = hanoi.solve_recursive(disks_amount, 0, 2, 1);

    // THEN the hanoi tower should have the following model
    assert!(operation_result.is_ok());
    assert_eq!(&vec![] as &Vec<u32>, hanoi.rod(0));
    assert_eq!(&vec![] as &Vec<u32>, hanoi.rod(1));
    assert_eq!(&vec![4, 3, 2, 1, 0], hanoi.rod(2));
}

#[test]
fn should_display_raw_hanoi_towers_with_3_disks() {
    // GIVEN a hanoi towers
    let hanoi = Hanoi::new(3);

    // WHEN we display the hanoi towers
    let display = hanoi.render();

    // THEN the hanoi towers should be displayed as
    println!("{}", display);
    assert_eq!("\n    |    \t    |    \t    |    \n   [=]   \t    |    \t    |    \n  [===]  \t    |    \t    |    \n [=====] \t    |    \t    |    \n----+----\t----+----\t----+----", display);
}

#[test]
fn should_display_raw_hanoi_towers_with_five_disks() {
    // GIVEN a hanoi towers
    let hanoi = Hanoi::new(5);

    // WHEN we display the hanoi towers
    let display = hanoi.render();

    // THEN the hanoi towers should be displayed as
    println!("{}", display);
    assert_eq!("\n      |      \t      |      \t      |      \n     [=]     \t      |      \t      |      \n    [===]    \t      |      \t      |      \n   [=====]   \t      |      \t      |      \n  [=======]  \t      |      \t      |      \n [=========] \t      |      \t      |      \n------+------\t------+------\t------+------", display);
}
