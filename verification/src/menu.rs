//! The decisions of the interactive program: what a line of input means at
//! the main menu and at the prompt for the order. Reading and printing are
//! left to the caller.

use crate::order::{check_order, get_order_from_user, order_from_line, checked_order, ModelError};
use crate::text::{strip_bounds, to_chars, trimmed, unit_count};
use vstd::prelude::*;

verus! {

/// Where the program stands.
#[derive(Clone, Copy, Debug, PartialEq, Eq, Structural)]
pub enum ProgramState {
    /// The main menu is shown and a choice is awaited.
    MainMenu,
    /// The sample is to be read from the console.
    ConsoleInput,
    /// The sample is to be read from a file.
    FileInput,
    /// A sample is there; orders are asked for and text is generated.
    GenerateText,
    /// The program ends.
    Terminate,
}

/// What a line means at the prompt for the order.
#[derive(Clone, Copy, Debug, PartialEq, Eq, Structural)]
pub enum OrderChoice {
    /// Back to the main menu.
    Restart,
    /// The line asks for no order that the sample admits; ask again.
    Refused(ModelError),
    /// Generate `length` characters with groupings of `order` characters.
    Generate { order: usize, length: usize },
}

/// The state that follows the main menu on the choice `choice`; the menu
/// stays for the third choice and for anything that is no choice.
pub open spec fn menu_target(choice: Seq<char>) -> ProgramState {
    if choice == "1"@ {
        ProgramState::ConsoleInput
    } else if choice == "2"@ {
        ProgramState::FileInput
    } else if choice == "4"@ {
        ProgramState::Terminate
    } else {
        ProgramState::MainMenu
    }
}

/// The length of the text that is generated for a sample of `sample_len`
/// characters: as many whole groupings as the sample holds.
pub open spec fn default_length(sample_len: nat, order: nat) -> nat {
    if order == 0 {
        0
    } else {
        (sample_len / order) * order
    }
}

/// What the line `line` means at the prompt for the order, for the sample
/// `sample`.
pub open spec fn order_choice_of(sample: Seq<char>, line: Seq<char>) -> OrderChoice {
    if trimmed(line) == "restart"@ {
        OrderChoice::Restart
    } else {
        match checked_order(sample.len(), order_from_line(line)) {
            Err(error) => OrderChoice::Refused(error),
            Ok(()) => OrderChoice::Generate {
                order: order_from_line(line) as usize,
                length: default_length(sample.len(), order_from_line(line)) as usize,
            },
        }
    }
}

/// Whether `line`, without the white space around it, is `word`.
fn line_is(line: &str, word: &str) -> (same: bool)
    ensures
        same == (trimmed(line@) == word@),
{
    let chars = to_chars(line);
    let (from, to) = strip_bounds(&chars, false);
    let letters = to_chars(word);
    if to - from != letters.len() {
        return false;
    }
    let ghost rest = chars@.subrange(from as int, to as int);
    let mut i: usize = 0;
    while i < letters.len()
        invariant
            i <= letters.len(),
            from + letters.len() == to <= chars.len(),
            rest == chars@.subrange(from as int, to as int),
            rest == trimmed(line@),
            letters@ == word@,
            forall|j: int| 0 <= j < i ==> rest[j] == letters[j],
        decreases letters.len() - i,
    {
        if chars[from + i] != letters[i] {
            return false;
        }
        i += 1;
    }
    assert(rest =~= letters@);
    true
}

/// The step of the main menu on the line `user_input`: the first choice
/// leads to the console, the second to a file, the fourth ends the program;
/// the third switches the printing of the table on or off, and the menu
/// stays, as it does for any other line.
pub fn main_menu_choice(user_input: &str, enable_state_table_printing: &mut bool) -> (next:
    ProgramState)
    ensures
        next == menu_target(trimmed(user_input@)),
        *final(enable_state_table_printing) == (if trimmed(user_input@) == "3"@ {
            !*old(enable_state_table_printing)
        } else {
            *old(enable_state_table_printing)
        }),
{
    proof {
        reveal_strlit("1");
        reveal_strlit("2");
        reveal_strlit("3");
        reveal_strlit("4");
        assert("1"@[0] == '1' && "2"@[0] == '2' && "3"@[0] == '3' && "4"@[0] == '4');
    }
    if line_is(user_input, "1") {
        ProgramState::ConsoleInput
    } else if line_is(user_input, "2") {
        ProgramState::FileInput
    } else if line_is(user_input, "3") {
        *enable_state_table_printing = !*enable_state_table_printing;
        ProgramState::MainMenu
    } else if line_is(user_input, "4") {
        ProgramState::Terminate
    } else {
        ProgramState::MainMenu
    }
}

/// The step at the prompt for the order, for the sample `sample_text` and
/// the line `user_input`: the word `restart` leads back to the main menu;
/// an order that the sample admits is taken, with the length of the text to
/// generate; any other line is refused, with the reason.
pub fn order_choice(sample_text: &str, user_input: &String) -> (choice: OrderChoice)
    ensures
        choice == order_choice_of(sample_text@, user_input@),
{
    if line_is(user_input.as_str(), "restart") {
        return OrderChoice::Restart;
    }
    let order = get_order_from_user(user_input);
    let sample_len = unit_count(sample_text);
    match check_order(sample_len, order) {
        Err(error) => OrderChoice::Refused(error),
        Ok(()) => {
            let groupings = sample_len / order;
            assert(groupings * order <= sample_len) by (nonlinear_arith)
                requires
                    order > 0,
                    groupings == sample_len / order,
            ;
            OrderChoice::Generate { order, length: groupings * order }
        },
    }
}

} // verus!
