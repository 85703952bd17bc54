use markov_text::menu::{main_menu_choice, order_choice, OrderChoice, ProgramState};
use markov_text::order::{check_order, get_order_from_user, ModelError};
use markov_text::text::{strip_line_endings, to_chars, to_text, trim, unit_count};

fn order_of(line: &str) -> usize {
    get_order_from_user(&line.to_string())
}

#[test]
fn a_number_is_read_as_the_order() {
    assert_eq!(order_of("3"), 3);
    assert_eq!(order_of("3\n"), 3);
    assert_eq!(order_of("  12\t\r\n"), 12);
    assert_eq!(order_of("007"), 7);
    assert_eq!(order_of("0"), 0);
    assert_eq!(order_of("1234567890"), 1234567890);
}

#[test]
fn a_plus_sign_may_lead_the_number() {
    assert_eq!(order_of("+7"), 7);
    assert_eq!(order_of(" +42 "), 42);
    assert_eq!(order_of("+"), 0);
    assert_eq!(order_of("++7"), 0);
    assert_eq!(order_of("7+"), 0);
    assert_eq!(order_of("+ 7"), 0);
}

#[test]
fn anything_else_gives_zero() {
    assert_eq!(order_of(""), 0);
    assert_eq!(order_of("   "), 0);
    assert_eq!(order_of("abc"), 0);
    assert_eq!(order_of("-1"), 0);
    assert_eq!(order_of("1.5"), 0);
    assert_eq!(order_of("1 2"), 0);
    assert_eq!(order_of("12a"), 0);
    assert_eq!(order_of("restart"), 0);
    assert_eq!(order_of("٣"), 0);
}

#[test]
fn a_number_too_large_gives_zero() {
    assert_eq!(order_of(&usize::MAX.to_string()), usize::MAX);
    assert_eq!(order_of(&format!("{}0", usize::MAX)), 0);
    assert_eq!(order_of(&(usize::MAX as u128 + 1).to_string()), 0);
    assert_eq!(order_of("99999999999999999999999999999999999999999999"), 0);
    assert_eq!(order_of(&format!("000{}", usize::MAX)), usize::MAX);
}

#[test]
fn the_order_is_read_as_the_standard_library_reads_it() {
    for line in ["5", " 5 ", "+5", "-5", "", "x", "5x", "00", "18446744073709551616", "\u{a0}8\u{3000}", "\u{2003}9", "\u{200b}9"] {
        let expected: usize = line.trim().parse().unwrap_or(0);
        assert_eq!(order_of(line), expected);
    }
}

#[test]
fn white_space_of_every_kind_is_trimmed() {
    assert_eq!(trim("  a b \t\n"), "a b");
    assert_eq!(trim("\u{a0}\u{1680}\u{2000}\u{200a}\u{2028}\u{2029}\u{202f}\u{205f}\u{3000}x\u{85}\u{b}\u{c}"), "x");
    assert_eq!(trim("\u{200b}x"), "\u{200b}x");
    assert_eq!(trim(""), "");
    assert_eq!(trim(" \n "), "");
    assert_eq!(trim("x"), "x");
}

#[test]
fn trimming_is_that_of_the_standard_library() {
    let mut code: u32 = 0;
    while code < 0x3100 {
        if let Some(c) = char::from_u32(code) {
            let text = format!("{}a{}", c, c);
            assert_eq!(trim(&text), text.trim());
        }
        code += 1;
    }
}

#[test]
fn line_endings_are_taken_from_both_ends() {
    assert_eq!(strip_line_endings("abc\n"), "abc");
    assert_eq!(strip_line_endings("abc\r\n"), "abc");
    assert_eq!(strip_line_endings("\r\nabc \n\r"), "abc ");
    assert_eq!(strip_line_endings(" a\nb "), " a\nb ");
    assert_eq!(strip_line_endings("\n\r\n"), "");
    assert_eq!(strip_line_endings(""), "");
}

#[test]
fn text_goes_to_characters_and_back() {
    let chars = to_chars("héllo");
    assert_eq!(chars, vec!['h', 'é', 'l', 'l', 'o']);
    assert_eq!(to_text(&chars, 0, 5), "héllo");
    assert_eq!(to_text(&chars, 1, 3), "él");
    assert_eq!(to_text(&chars, 2, 2), "");
    assert_eq!(unit_count("héllo"), 5);
    assert_eq!(unit_count(""), 0);
}

#[test]
fn orders_are_checked_against_the_sample_length() {
    assert_eq!(check_order(0, 0), Err(ModelError::EmptySample));
    assert_eq!(check_order(0, 3), Err(ModelError::EmptySample));
    assert_eq!(check_order(5, 0), Err(ModelError::InvalidOrder));
    assert_eq!(check_order(5, 5), Err(ModelError::InvalidOrder));
    assert_eq!(check_order(5, 6), Err(ModelError::InvalidOrder));
    assert_eq!(check_order(1, 1), Err(ModelError::InvalidOrder));
    assert_eq!(check_order(5, 1), Ok(()));
    assert_eq!(check_order(5, 4), Ok(()));
    assert_eq!(check_order(usize::MAX, usize::MAX - 1), Ok(()));
}

#[test]
fn errors_have_messages() {
    assert_eq!(ModelError::EmptySample.message(), "the sample text is empty");
    assert_eq!(
        ModelError::InvalidOrder.message(),
        "the order must be at least 1 and smaller than the sample length"
    );
}

#[test]
fn the_main_menu_takes_four_choices() {
    let mut printing: bool = false;
    assert_eq!(main_menu_choice("1\n", &mut printing), ProgramState::ConsoleInput);
    assert_eq!(main_menu_choice(" 2 \r\n", &mut printing), ProgramState::FileInput);
    assert_eq!(main_menu_choice("4", &mut printing), ProgramState::Terminate);
    assert!(!printing);
    assert_eq!(main_menu_choice("3\n", &mut printing), ProgramState::MainMenu);
    assert!(printing);
    assert_eq!(main_menu_choice("3", &mut printing), ProgramState::MainMenu);
    assert!(!printing);
}

#[test]
fn the_main_menu_stays_on_anything_else() {
    let mut printing: bool = true;
    for line in ["", "\n", "5", "0", "11", "1 1", "one", "+1", "01"] {
        assert_eq!(main_menu_choice(line, &mut printing), ProgramState::MainMenu);
        assert!(printing);
    }
}

#[test]
fn the_prompt_takes_a_valid_order() {
    assert_eq!(
        order_choice("abab", &"2\n".to_string()),
        OrderChoice::Generate { order: 2, length: 4 }
    );
    assert_eq!(
        order_choice("abcdefgh", &" 3".to_string()),
        OrderChoice::Generate { order: 3, length: 6 }
    );
    assert_eq!(
        order_choice("abcdefgh", &"7".to_string()),
        OrderChoice::Generate { order: 7, length: 7 }
    );
    assert_eq!(
        order_choice("héllo", &"1".to_string()),
        OrderChoice::Generate { order: 1, length: 5 }
    );
}

#[test]
fn the_prompt_refuses_other_orders() {
    assert_eq!(order_choice("abab", &"4".to_string()), OrderChoice::Refused(ModelError::InvalidOrder));
    assert_eq!(order_choice("abab", &"0".to_string()), OrderChoice::Refused(ModelError::InvalidOrder));
    assert_eq!(order_choice("abab", &"two".to_string()), OrderChoice::Refused(ModelError::InvalidOrder));
    assert_eq!(order_choice("abab", &"".to_string()), OrderChoice::Refused(ModelError::InvalidOrder));
    assert_eq!(order_choice("héllo", &"5".to_string()), OrderChoice::Refused(ModelError::InvalidOrder));
    assert_eq!(order_choice("", &"1".to_string()), OrderChoice::Refused(ModelError::EmptySample));
    assert_eq!(order_choice("", &"x".to_string()), OrderChoice::Refused(ModelError::EmptySample));
}

#[test]
fn the_prompt_goes_back_on_restart() {
    assert_eq!(order_choice("abab", &"restart\n".to_string()), OrderChoice::Restart);
    assert_eq!(order_choice("", &"  restart  ".to_string()), OrderChoice::Restart);
    assert_eq!(
        order_choice("abab", &"Restart".to_string()),
        OrderChoice::Refused(ModelError::InvalidOrder)
    );
    assert_eq!(
        order_choice("abab", &"restarts".to_string()),
        OrderChoice::Refused(ModelError::InvalidOrder)
    );
}
