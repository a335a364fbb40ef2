use std::io::Cursor;

use hanoi_solver::hanoi_solver::{Hanoi, HanoiSolver, MoveError};
use hanoi_solver::io::{
    get_disk_amount_from_user_input, get_disk_command_line_parameter, parse_u32,
    parse_user_input_line, trim, ParseNumberError,
};

#[test]
fn empty_board_is_created_and_solved_without_moves() {
    let mut hanoi = Hanoi::new(0);
    assert_eq!(&vec![] as &Vec<u32>, hanoi.rod(0));
    assert_eq!(&vec![] as &Vec<u32>, hanoi.rod(1));
    assert_eq!(&vec![] as &Vec<u32>, hanoi.rod(2));
    assert_eq!(Ok(()), hanoi.solve());
    assert_eq!(&vec![] as &Vec<u32>, hanoi.rod(2));
}

#[test]
fn solve_through_the_trait_moves_every_disk_to_the_last_rod() {
    let mut hanoi = Hanoi::new(4);
    assert_eq!(Ok(()), hanoi.solve());
    assert_eq!(&vec![] as &Vec<u32>, hanoi.rod(0));
    assert_eq!(&vec![] as &Vec<u32>, hanoi.rod(1));
    assert_eq!(&vec![3, 2, 1, 0], hanoi.rod(2));
}

#[test]
fn optimal_move_count_follows_the_closed_form() {
    assert_eq!(Some(0), Hanoi::optimal_move_count(0));
    assert_eq!(Some(1), Hanoi::optimal_move_count(1));
    assert_eq!(Some(7), Hanoi::optimal_move_count(3));
    assert_eq!(Some(31), Hanoi::optimal_move_count(5));
    assert_eq!(Some(u64::MAX / 2), Hanoi::optimal_move_count(63));
    assert_eq!(None, Hanoi::optimal_move_count(64));
    assert_eq!(None, Hanoi::optimal_move_count(u32::MAX));
}

#[test]
fn moving_from_an_empty_rod_names_the_rod() {
    let mut hanoi = Hanoi::new(3);
    let rejected = hanoi.move_disk(1, 0);
    assert_eq!(Err(MoveError::EmptySource { rod: 1 }), rejected);
    assert_eq!(&vec![2, 1, 0], hanoi.rod(0));
    assert_eq!(&vec![] as &Vec<u32>, hanoi.rod(1));
    assert_eq!(&vec![] as &Vec<u32>, hanoi.rod(2));
}

#[test]
fn illegal_placement_names_both_disks() {
    let mut hanoi = Hanoi::new(3);
    assert_eq!(Ok(()), hanoi.move_disk(0, 2));
    let rejected = hanoi.move_disk(0, 2);
    assert_eq!(Err(MoveError::IllegalPlacement { disk: 1, top: 0 }), rejected);
    assert_eq!(&vec![2, 1], hanoi.rod(0));
    assert_eq!(&vec![0], hanoi.rod(2));
}

#[test]
fn repeating_a_rejected_move_changes_nothing_and_gives_the_same_error() {
    let mut hanoi = Hanoi::new(3);
    assert_eq!(Ok(()), hanoi.move_disk(0, 1));
    let first = hanoi.move_disk(0, 1);
    let rods_after_first = (hanoi.rod(0).clone(), hanoi.rod(1).clone(), hanoi.rod(2).clone());
    let second = hanoi.move_disk(0, 1);
    let rods_after_second = (hanoi.rod(0).clone(), hanoi.rod(1).clone(), hanoi.rod(2).clone());
    assert_eq!(first, second);
    assert_eq!(Err(MoveError::IllegalPlacement { disk: 1, top: 0 }), second);
    assert_eq!(rods_after_first, rods_after_second);
    assert_eq!((vec![2, 1], vec![0], vec![]), rods_after_second);
}

#[test]
fn a_legal_move_transfers_exactly_the_top_disk() {
    let mut hanoi = Hanoi::new(3);
    assert_eq!(Ok(()), hanoi.move_disk(0, 2));
    assert_eq!(Ok(()), hanoi.move_disk(0, 1));
    // a smaller disk comes to rest on a larger, non-empty destination
    assert_eq!(Ok(()), hanoi.move_disk(2, 1));
    assert_eq!(&vec![2], hanoi.rod(0));
    assert_eq!(&vec![1, 0], hanoi.rod(1));
    assert_eq!(&vec![] as &Vec<u32>, hanoi.rod(2));
}

#[test]
fn moving_a_disk_back_onto_its_own_rod_is_a_no_op() {
    let mut hanoi = Hanoi::new(2);
    assert_eq!(Ok(()), hanoi.move_disk(0, 0));
    assert_eq!(&vec![1, 0], hanoi.rod(0));
    assert_eq!(Err(MoveError::EmptySource { rod: 1 }), hanoi.move_disk(1, 1));
}

#[test]
fn error_messages_match_the_command_line_wording() {
    let empty = MoveError::EmptySource { rod: 1 };
    assert_eq!("No disk to move from tower 1", empty.message());
    let illegal = MoveError::IllegalPlacement { disk: 1, top: 0 };
    assert_eq!("Disk 1 is bigger than disk 0", illegal.message());
    let wide = MoveError::IllegalPlacement { disk: 210, top: 35 };
    assert_eq!("Disk 210 is bigger than disk 35", wide.message());
}

#[test]
fn rendering_one_disk_gives_the_exact_grid() {
    let hanoi = Hanoi::new(1);
    assert_eq!(
        "\n  |  \t  |  \t  |  \n [=] \t  |  \t  |  \n--+--\t--+--\t--+--",
        hanoi.render()
    );
}

#[test]
fn rendering_zero_disks_gives_header_and_footer_only() {
    let hanoi = Hanoi::new(0);
    assert_eq!("\n | \t | \t | \n-+-\t-+-\t-+-", hanoi.render());
}

#[test]
fn command_line_parameter_accepts_the_formats_of_the_standard_parser() {
    assert_eq!(
        Ok(Some(3)),
        get_disk_command_line_parameter(&["+3".to_string()])
    );
    assert_eq!(
        Ok(Some(4294967295)),
        get_disk_command_line_parameter(&["4294967295".to_string()])
    );
    assert_eq!(
        Ok(Some(7)),
        get_disk_command_line_parameter(&["007".to_string()])
    );
    assert_eq!(
        Ok(Some(3)),
        get_disk_command_line_parameter(&["3".to_string(), "junk".to_string()])
    );
}

#[test]
fn command_line_parameter_rejections_name_the_argument() {
    assert_eq!(
        Err("Invalid disk amount: 4294967296".to_string()),
        get_disk_command_line_parameter(&["4294967296".to_string()])
    );
    assert_eq!(
        Err("Invalid disk amount: -3".to_string()),
        get_disk_command_line_parameter(&["-3".to_string()])
    );
    assert_eq!(
        Err("Invalid disk amount: ".to_string()),
        get_disk_command_line_parameter(&["".to_string()])
    );
    assert_eq!(
        Err("Invalid disk amount: +".to_string()),
        get_disk_command_line_parameter(&["+".to_string()])
    );
}

#[test]
fn user_input_is_trimmed_before_parsing() {
    let mut cursor = Cursor::new("  7  \n");
    assert_eq!(Ok(Some(7)), get_disk_amount_from_user_input(&mut cursor));
    let mut blank = Cursor::new("   \n");
    assert_eq!(Ok(None), get_disk_amount_from_user_input(&mut blank));
}

#[test]
fn user_input_overflow_is_reported_with_the_standard_wording() {
    let mut cursor = Cursor::new("4294967296\n");
    assert_eq!(
        Err("number too large to fit in target type".to_string()),
        get_disk_amount_from_user_input(&mut cursor)
    );
}

#[test]
fn parse_user_input_line_handles_a_line_without_a_reader() {
    assert_eq!(Ok(Some(5)), parse_user_input_line("+5\n"));
    assert_eq!(Ok(None), parse_user_input_line(""));
    assert_eq!(
        Err("invalid digit found in string".to_string()),
        parse_user_input_line("12a\n")
    );
}

#[test]
fn trim_strips_exactly_the_surrounding_whitespace() {
    assert_eq!("a b", trim("  a b\t\n"));
    assert_eq!("", trim("   "));
    assert_eq!("x", trim("x"));
    assert_eq!("", trim(""));
}

#[test]
fn parse_u32_matches_the_standard_parser_case_by_case() {
    assert_eq!(Ok(7), parse_u32("007"));
    assert_eq!(Ok(0), parse_u32("0"));
    assert_eq!(Ok(4294967295), parse_u32("4294967295"));
    assert_eq!(Err(ParseNumberError::Overflow), parse_u32("4294967296"));
    assert_eq!(Err(ParseNumberError::Empty), parse_u32(""));
    assert_eq!(Err(ParseNumberError::InvalidDigit), parse_u32("+"));
    assert_eq!(Err(ParseNumberError::InvalidDigit), parse_u32("12a"));
    assert_eq!(Err(ParseNumberError::InvalidDigit), parse_u32(" 3"));
    // the standard parser reports the overflow before it reaches the stray
    // letter, because it scans left to right
    assert_eq!(
        Err(ParseNumberError::Overflow),
        parse_u32("99999999999999999999x")
    );
}
