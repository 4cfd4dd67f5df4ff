use solver::remove_whitespace;
use solver::split_equation;
use solver::text::{chars_of, is_whitespace_char, squeezed, string_of};
use solver::EquationError;

#[test]
fn remove_whitespace_drops_blanks_and_keeps_order() {
    let mut s = String::from(" 5 * X^0 + 4 * X^1 - 9.3 * X^2 = 1 * X^0 ");
    remove_whitespace(&mut s);
    assert_eq!(s, "5*X^0+4*X^1-9.3*X^2=1*X^0");
}

#[test]
fn remove_whitespace_drops_tabs_newlines_and_wide_spaces() {
    let mut s = String::from("1\t*\nX\r^\u{a0}2\u{3000}=\u{2003}0\u{85}*X^0");
    remove_whitespace(&mut s);
    assert_eq!(s, "1*X^2=0*X^0");
}

#[test]
fn remove_whitespace_of_blank_input_is_empty() {
    let mut s = String::from(" \t \n ");
    remove_whitespace(&mut s);
    assert_eq!(s, "");
    let mut e = String::new();
    remove_whitespace(&mut e);
    assert_eq!(e, "");
}

#[test]
fn remove_whitespace_keeps_other_characters() {
    let mut s = String::from("a b\u{200b}c é 越");
    remove_whitespace(&mut s);
    assert_eq!(s, "ab\u{200b}cé越");
}

#[test]
fn whitespace_test_agrees_with_the_standard_library_on_every_character() {
    let mut code: u32 = 0;
    while code <= 0x10FFFF {
        if let Some(c) = char::from_u32(code) {
            assert_eq!(is_whitespace_char(c), c.is_whitespace(), "U+{:04X}", code);
        }
        code += 1;
    }
}

#[test]
fn characters_and_strings_convert_both_ways() {
    let v = chars_of("4*X^0 = é");
    assert_eq!(v, vec!['4', '*', 'X', '^', '0', ' ', '=', ' ', 'é']);
    assert_eq!(string_of(&v), "4*X^0 = é");
    assert_eq!(string_of(&Vec::new()), "");
    assert_eq!(squeezed(&v), vec!['4', '*', 'X', '^', '0', '=', 'é']);
}

#[test]
fn split_equation_cuts_at_the_separator() {
    let (left, right) = split_equation("5*X^0=1*X^0").unwrap();
    assert_eq!(left, "5*X^0");
    assert_eq!(right, "1*X^0");
}

#[test]
fn split_equation_allows_empty_sides() {
    assert_eq!(split_equation("=").unwrap(), (String::new(), String::new()));
    assert_eq!(split_equation("=0*X^0").unwrap(), (String::new(), String::from("0*X^0")));
    assert_eq!(split_equation("1*X^1=").unwrap(), (String::from("1*X^1"), String::new()));
}

#[test]
fn split_equation_removes_white_space_first() {
    let (left, right) = split_equation(" 5 * X^0 + 4 * X^1\t= 1 * X^0\n").unwrap();
    assert_eq!(left, "5*X^0+4*X^1");
    assert_eq!(right, "1*X^0");
    assert_eq!(split_equation(" = ").unwrap(), (String::new(), String::new()));
    assert_eq!(split_equation(" \t "), Err(EquationError::MissingSeparator));
}

#[test]
fn split_equation_without_separator_fails() {
    assert_eq!(split_equation("5*X^0"), Err(EquationError::MissingSeparator));
    assert_eq!(split_equation(""), Err(EquationError::MissingSeparator));
}

#[test]
fn split_equation_cuts_at_the_first_of_several_separators() {
    let (left, right) = split_equation("1*X^0=2*X^0=3*X^0").unwrap();
    assert_eq!(left, "1*X^0");
    assert_eq!(right, "2*X^0=3*X^0");
}
