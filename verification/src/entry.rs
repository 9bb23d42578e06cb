//! The rules by which colors are taken in one at a time: a base color, then
//! its target color, and so on, until an empty line ends the list.

use crate::colors::{color_digits, hex_digits, is_color_code, is_hex_run, lemma_color_code_is_ascii};
use vstd::prelude::*;
use vstd::string::StringExecFns;

verus! {

/// Which of the two lists a color belongs to.
#[derive(Clone, Copy, Debug, PartialEq, Eq, Structural)]
pub enum ColorKind {
    /// A color before the overlay was put on it.
    Base,
    /// A color with the overlay on it.
    Target,
}

/// What became of one line of input.
#[derive(Clone, Copy, Debug, PartialEq, Eq, Structural)]
pub enum EntryOutcome {
    /// The line was a color code, and its color has joined its list.
    Accepted,
    /// The line was no color code: it is to be said, and asked again.
    Invalid,
    /// The line was empty and no color has been given yet: ask again.
    Waiting,
    /// The line was empty while a base color lacks its target color: the
    /// two numbers are to be said, and the target color asked for again.
    Mismatched { base: usize, target: usize },
    /// The line was empty and the two lists are complete.
    Finished,
}

/// The characters of the texts of a list.
pub open spec fn texts(list: Seq<String>) -> Seq<Seq<char>> {
    Seq::new(list.len(), |i: int| list[i]@)
}

/// The colors entered so far, as the six digits of each.
pub struct ColorEntry {
    base_colors: Vec<String>,
    target_colors: Vec<String>,
}

impl ColorEntry {
    /// The base colors entered so far.
    pub closed spec fn base(&self) -> Seq<Seq<char>> {
        texts(self.base_colors@)
    }

    /// The target colors entered so far.
    pub closed spec fn target(&self) -> Seq<Seq<char>> {
        texts(self.target_colors@)
    }

    /// The colors have come in turns, and each is six hexadecimal digits.
    pub open spec fn wf(&self) -> bool {
        &&& self.target().len() <= self.base().len() <= self.target().len() + 1
        &&& forall|i: int| 0 <= i < self.base().len() ==> is_hex_run(#[trigger] self.base()[i])
        &&& forall|i: int| 0 <= i < self.target().len() ==> is_hex_run(#[trigger] self.target()[i])
    }

    /// The list that the next color belongs to.
    pub open spec fn expected_kind(&self) -> ColorKind {
        if self.base().len() == self.target().len() {
            ColorKind::Base
        } else {
            ColorKind::Target
        }
    }

    /// What `accept` answers to a line, `None` being the empty line.
    pub open spec fn outcome_of(&self, input: Option<Seq<char>>) -> EntryOutcome {
        match input {
            None => if self.base().len() != self.target().len() {
                EntryOutcome::Mismatched {
                    base: self.base().len() as usize,
                    target: self.target().len() as usize,
                }
            } else if self.base().len() == 0 {
                EntryOutcome::Waiting
            } else {
                EntryOutcome::Finished
            },
            Some(text) => if is_color_code(text) {
                EntryOutcome::Accepted
            } else {
                EntryOutcome::Invalid
            },
        }
    }

    /// Starts with no colors.
    pub fn new() -> (entry: Self)
        ensures
            entry.wf(),
            entry.base().len() == 0,
            entry.target().len() == 0,
    {
        ColorEntry { base_colors: Vec::new(), target_colors: Vec::new() }
    }

    /// How many base colors and how many target colors have been entered.
    pub fn entered(&self) -> (counts: (usize, usize))
        ensures
            counts.0 == self.base().len(),
            counts.1 == self.target().len(),
    {
        (self.base_colors.len(), self.target_colors.len())
    }

    /// Says what to ask for next: a base or a target color, and the number
    /// of the pair that it belongs to, counted from one.
    pub fn next_prompt(&self) -> (prompt: (ColorKind, usize))
        requires
            self.wf(),
            self.target().len() < usize::MAX,
        ensures
            prompt.0 == self.expected_kind(),
            prompt.1 == self.target().len() + 1,
    {
        let number: usize = self.target_colors.len() + 1;
        if self.base_colors.len() == self.target_colors.len() {
            (ColorKind::Base, number)
        } else {
            (ColorKind::Target, number)
        }
    }

    /// Takes in one line of input, `None` being the empty line. A color code
    /// joins the list whose turn it is, by its six digits; nothing else
    /// changes what has been entered.
    pub fn accept(&mut self, input: Option<String>) -> (outcome: EntryOutcome)
        requires
            old(self).wf(),
        ensures
            final(self).wf(),
            outcome == old(self).outcome_of(
                match input {
                    Some(text) => Some(text@),
                    None => None,
                },
            ),
            outcome == EntryOutcome::Accepted && old(self).expected_kind() == ColorKind::Base
                ==> final(self).base() == old(self).base().push(hex_digits(input.unwrap()@))
                && final(self).target() == old(self).target(),
            outcome == EntryOutcome::Accepted && old(self).expected_kind() == ColorKind::Target
                ==> final(self).target() == old(self).target().push(hex_digits(input.unwrap()@))
                && final(self).base() == old(self).base(),
            outcome != EntryOutcome::Accepted ==> final(self).base() == old(self).base()
                && final(self).target() == old(self).target(),
    {
        match input {
            None => {
                if self.base_colors.len() != self.target_colors.len() {
                    EntryOutcome::Mismatched {
                        base: self.base_colors.len(),
                        target: self.target_colors.len(),
                    }
                } else if self.base_colors.len() == 0 {
                    EntryOutcome::Waiting
                } else {
                    EntryOutcome::Finished
                }
            },
            Some(text) => {
                match color_digits(text.as_str()) {
                    Some(digits) => {
                        proof {
                            lemma_color_code_is_ascii(text@);
                        }
                        if self.base_colors.len() == self.target_colors.len() {
                            self.base_colors.push(digits);
                            proof {
                                assert(self.base() =~= old(self).base().push(hex_digits(text@)));
                            }
                        } else {
                            self.target_colors.push(digits);
                            proof {
                                assert(self.target() =~= old(self).target().push(
                                    hex_digits(text@),
                                ));
                            }
                        }
                        EntryOutcome::Accepted
                    },
                    None => EntryOutcome::Invalid,
                }
            },
        }
    }

    /// Hands out the two lists as they stand.
    pub fn into_colors(self) -> (lists: (Vec<String>, Vec<String>))
        ensures
            texts(lists.0@) == self.base(),
            texts(lists.1@) == self.target(),
    {
        (self.base_colors, self.target_colors)
    }
}

/// The lines that stand in for a person's input where none can be asked:
/// an empty line, a base color, a text that is no color, an empty line while
/// the target color is missing, the target color, and the empty line that
/// ends the list.
pub open spec fn mock_inputs() -> Seq<Option<Seq<char>>> {
    seq![None, Some("#FFFFFF"@), Some("1488HH"@), None, Some("000000"@), None]
}

/// The `i`-th of the lines of `mock_inputs`, counted from one.
pub fn mock_prompt(i: usize) -> (line: Option<String>)
    requires
        1 <= i <= 6,
    ensures
        match line {
            Some(text) => mock_inputs()[i - 1] == Some(text@),
            None => mock_inputs()[i - 1].is_none(),
        },
{
    if i == 2 {
        Some(String::from_str("#FFFFFF"))
    } else if i == 3 {
        Some(String::from_str("1488HH"))
    } else if i == 5 {
        Some(String::from_str("000000"))
    } else {
        None
    }
}

} // verus!
