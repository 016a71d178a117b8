use notes::menu::{
    parse_body_input, parse_menu_choice, parse_removal_input, BodyInput, MenuChoice, RemovalInput,
};
use notes::numeral::{parse_u32, to_dec};
use notes::text::trim;

#[test]
fn trim_strips_both_ends() {
    assert_eq!(trim("  hello  "), "hello");
    assert_eq!(trim("hello"), "hello");
    assert_eq!(trim(""), "");
    assert_eq!(trim(" \t\r\n "), "");
    assert_eq!(trim("\u{3000}wide\u{3000}"), "wide");
    assert_eq!(trim("  inner  space  "), "inner  space");
}

#[test]
fn to_dec_renders_decimals() {
    assert_eq!(to_dec(0), "0");
    assert_eq!(to_dec(7), "7");
    assert_eq!(to_dec(42), "42");
    assert_eq!(to_dec(1000), "1000");
    assert_eq!(to_dec(u32::MAX), "4294967295");
}

#[test]
fn parse_u32_reads_digit_strings() {
    assert_eq!(parse_u32("0"), Some(0));
    assert_eq!(parse_u32("42"), Some(42));
    assert_eq!(parse_u32("007"), Some(7));
    assert_eq!(parse_u32("4294967295"), Some(u32::MAX));
}

#[test]
fn parse_u32_rejects_non_numerals() {
    assert_eq!(parse_u32(""), None);
    assert_eq!(parse_u32("12a"), None);
    assert_eq!(parse_u32("-1"), None);
    assert_eq!(parse_u32("1 2"), None);
    assert_eq!(parse_u32("4294967296"), None);
    assert_eq!(parse_u32("99999999999999999999"), None);
}

#[test]
fn menu_choice_follows_the_menu() {
    assert_eq!(parse_menu_choice("1"), MenuChoice::AddNote);
    assert_eq!(parse_menu_choice(" 2 "), MenuChoice::RemoveNote);
    assert_eq!(parse_menu_choice("3\n"), MenuChoice::ViewNotes);
    assert_eq!(parse_menu_choice("4"), MenuChoice::Quit);
    assert_eq!(parse_menu_choice("04"), MenuChoice::Quit);
    assert_eq!(parse_menu_choice("5"), MenuChoice::Invalid);
    assert_eq!(parse_menu_choice("0"), MenuChoice::Invalid);
    assert_eq!(parse_menu_choice(""), MenuChoice::Invalid);
    assert_eq!(parse_menu_choice("add"), MenuChoice::Invalid);
}

#[test]
fn body_prompt_distinguishes_cancel_blank_and_text() {
    assert!(matches!(parse_body_input("q"), BodyInput::Cancelled));
    assert!(matches!(parse_body_input(" Q \n"), BodyInput::Cancelled));
    assert!(matches!(parse_body_input(""), BodyInput::Blank));
    assert!(matches!(parse_body_input("   \t"), BodyInput::Blank));
    match parse_body_input("  Buy milk \n") {
        BodyInput::Body(b) => assert_eq!(b, "Buy milk"),
        other => panic!("expected a body, got {:?}", other),
    }
    match parse_body_input("qq") {
        BodyInput::Body(b) => assert_eq!(b, "qq"),
        other => panic!("expected a body, got {:?}", other),
    }
}

#[test]
fn removal_prompt_distinguishes_cancel_numbers_and_noise() {
    assert_eq!(parse_removal_input("q\n"), RemovalInput::Cancelled);
    assert_eq!(parse_removal_input("Q"), RemovalInput::Cancelled);
    assert_eq!(parse_removal_input(" 3 "), RemovalInput::Chosen(3));
    assert_eq!(parse_removal_input("1"), RemovalInput::Chosen(1));
    assert_eq!(parse_removal_input(""), RemovalInput::NotNumeric);
    assert_eq!(parse_removal_input("abc"), RemovalInput::NotNumeric);
    assert_eq!(parse_removal_input("1.5"), RemovalInput::NotNumeric);
    assert_eq!(parse_removal_input("4294967296"), RemovalInput::NotNumeric);
}
