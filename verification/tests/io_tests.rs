use std::io::Cursor;

use hanoi_solver::io::{get_disk_amount_from_user_input, get_disk_command_line_parameter};

#[test]
fn should_get_command_line_parameter() {
    // GIVEN a command line parameter
    let args = vec!["3".to_string()];

    // WHEN we parse the command line parameter
    let disk_amount = get_disk_command_line_parameter(&args);

    // THEN the disk amount should be 3
    assert!(disk_amount.is_ok());
    assert_eq!(Ok(Some(3)), disk_amount);
}

#[test]
fn should_return_error_because_of_parsing() {
    // GIVEN a command line parameter
    let args = vec!["3az".to_string()];

    // WHEN we parse the command line parameter
    let disk_amount = get_disk_command_line_parameter(&args);

    // THEN the parse failure should name the rejected argument
    assert!(disk_amount.is_err());
    assert_eq!(Err("Invalid disk amount: 3az".to_string()), disk_amount);
}

#[test]
fn should_return_empty_option() {
    // GIVEN no command line parameter
    let args = vec![];

    // WHEN we parse the command line parameter
    let disk_amount = get_disk_command_line_parameter(&args);

    // THEN there should be no disk amount
    assert!(disk_amount.is_ok());
    assert_eq!(Ok(None), disk_amount);
}

#[test]
fn should_get_disk_amount_from_user_input() {
    // GIVEN a user input
    let input = "3\n";
    let mut cursor = Cursor::new(input);

    // WHEN we read the disk amount from user input
    let disk_amount = get_disk_amount_from_user_input(&mut cursor);

    // THEN the disk amount should be 3
    assert!(disk_amount.is_ok());
    assert_eq!(Ok(Some(3)), disk_amount);
}

#[test]
fn should_get_error_because_of_parsing() {
    // GIVEN a user input
    let input = "3az\n";
    let mut cursor = Cursor::new(input);

    // WHEN we read the disk amount from user input
    let disk_amount = get_disk_amount_from_user_input(&mut cursor);

    // THEN the parse failure should be reported
    assert!(disk_amount.is_err());
    assert_eq!(
        Err("invalid digit found in string".to_string()),
        disk_amount
    );
}

#[test]
fn should_return_empty_option_from_user_input() {
    // GIVEN a user input
    let input = "\n";
    let mut cursor = Cursor::new(input);

    // WHEN we read the disk amount from user input
    let disk_amount = get_disk_amount_from_user_input(&mut cursor);

    // THEN there should be no disk amount
    assert!(disk_amount.is_ok());
    assert_eq!(Ok(None), disk_amount);
}
