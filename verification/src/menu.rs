//! What a line of user input means: the menu selection, the body prompt,
//! and the removal-id prompt. Reading lines is I/O and stays with the
//! caller; these functions only decide, and say exactly what they decide.

use vstd::prelude::*;
use vstd::string::StringExecFns;

use crate::numeral::{all_dec_digits, dec_val, parse_u32};
use crate::text::{is_blank, lemma_blank_iff_trim_empty, trim, trim_spec};

verus! {

/// One selection from the interactive menu.
#[derive(Clone, Copy, Debug, PartialEq, Eq, Structural)]
pub enum MenuChoice {
    AddNote,
    RemoveNote,
    ViewNotes,
    Quit,
    Invalid,
}

/// The trimmed line read as a decimal numeral selects menu entries 1-4;
/// every other line is an invalid selection.
pub open spec fn menu_choice_of(s: Seq<char>) -> MenuChoice {
    let t = trim_spec(s);
    if t.len() == 0 || !all_dec_digits(t) {
        MenuChoice::Invalid
    } else if dec_val(t) == 1 {
        MenuChoice::AddNote
    } else if dec_val(t) == 2 {
        MenuChoice::RemoveNote
    } else if dec_val(t) == 3 {
        MenuChoice::ViewNotes
    } else if dec_val(t) == 4 {
        MenuChoice::Quit
    } else {
        MenuChoice::Invalid
    }
}

pub fn parse_menu_choice(line: &str) -> (c: MenuChoice)
    ensures
        c == menu_choice_of(line@),
{
    let t = trim(line);
    match parse_u32(t) {
        Some(v) => {
            if v == 1 {
                MenuChoice::AddNote
            } else if v == 2 {
                MenuChoice::RemoveNote
            } else if v == 3 {
                MenuChoice::ViewNotes
            } else if v == 4 {
                MenuChoice::Quit
            } else {
                MenuChoice::Invalid
            }
        },
        None => MenuChoice::Invalid,
    }
}

/// The cancel token of the prompts: the line's trimmed text is `q` or `Q`.
pub open spec fn is_cancel(s: Seq<char>) -> bool {
    trim_spec(s).len() == 1 && (trim_spec(s)[0] == 'q' || trim_spec(s)[0] == 'Q')
}

/// What a line entered at the note-body prompt means.
#[derive(Debug)]
pub enum BodyInput {
    /// The cancel token: no note is added.
    Cancelled,
    /// An empty or whitespace-only line: rejected, the prompt repeats.
    Blank,
    /// A usable body, already trimmed.
    Body(String),
}

pub fn parse_body_input(line: &str) -> (r: BodyInput)
    ensures
        match r {
            BodyInput::Cancelled => is_cancel(line@),
            BodyInput::Blank => !is_cancel(line@) && is_blank(line@),
            BodyInput::Body(b) => !is_cancel(line@) && !is_blank(line@) && b@ == trim_spec(line@),
        },
{
    let t = trim(line);
    if t.unicode_len() == 1 {
        let c = t.get_char(0);
        if c == 'q' || c == 'Q' {
            return BodyInput::Cancelled;
        }
    }
    proof {
        lemma_blank_iff_trim_empty(line@);
    }
    if t.unicode_len() == 0 {
        BodyInput::Blank
    } else {
        BodyInput::Body(String::from_str(t))
    }
}

/// What a line entered at the removal prompt means.
#[derive(Clone, Copy, Debug, PartialEq, Eq, Structural)]
pub enum RemovalInput {
    /// The cancel token: nothing is removed.
    Cancelled,
    /// Not a decimal numeral (or too large for an id): the prompt repeats.
    NotNumeric,
    /// The id the user chose; whether it exists is the store's decision.
    Chosen(u32),
}

pub open spec fn removal_input_of(s: Seq<char>) -> RemovalInput {
    let t = trim_spec(s);
    if is_cancel(s) {
        RemovalInput::Cancelled
    } else if t.len() > 0 && all_dec_digits(t) && dec_val(t) <= u32::MAX {
        RemovalInput::Chosen(dec_val(t) as u32)
    } else {
        RemovalInput::NotNumeric
    }
}

pub fn parse_removal_input(line: &str) -> (r: RemovalInput)
    ensures
        r == removal_input_of(line@),
{
    let t = trim(line);
    if t.unicode_len() == 1 {
        let c = t.get_char(0);
        if c == 'q' || c == 'Q' {
            return RemovalInput::Cancelled;
        }
    }
    match parse_u32(t) {
        Some(v) => RemovalInput::Chosen(v),
        None => RemovalInput::NotNumeric,
    }
}

} // verus!
