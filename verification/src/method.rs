//! The supported HTTP verbs and how they are read from text.

use vstd::prelude::*;
use vstd::std_specs::convert::TryFromSpecImpl;
use crate::error::RouterError;
use crate::text::chars_of;

verus! {

/// A supported HTTP verb.
#[allow(clippy::upper_case_acronyms)]
#[derive(Debug, Clone, Copy, PartialEq, Eq, Structural)]
pub enum Method {
    GET,
    POST,
    PUT,
    DELETE,
}

/// Whether `a` and `b` are the same character once the case of ASCII
/// letters is ignored.
pub open spec fn same_letter(a: char, b: char) -> bool {
    ||| a == b
    ||| ('A' <= a && a <= 'Z' && b as int == a as int + 32)
    ||| ('A' <= b && b <= 'Z' && a as int == b as int + 32)
}

/// Whether `text` spells `word`, ignoring the case of ASCII letters.
pub open spec fn spells(text: Seq<char>, word: Seq<char>) -> bool {
    &&& text.len() == word.len()
    &&& forall|i: int| 0 <= i < text.len() ==> same_letter(#[trigger] text[i], word[i])
}

/// The verb that `text` names, if any.
pub open spec fn parse_method(text: Seq<char>) -> Option<Method> {
    if spells(text, seq!['G', 'E', 'T']) {
        Some(Method::GET)
    } else if spells(text, seq!['P', 'O', 'S', 'T']) {
        Some(Method::POST)
    } else if spells(text, seq!['P', 'U', 'T']) {
        Some(Method::PUT)
    } else if spells(text, seq!['D', 'E', 'L', 'E', 'T', 'E']) {
        Some(Method::DELETE)
    } else {
        None
    }
}

fn same_letter_exec(a: char, b: char) -> (same: bool)
    ensures
        same == same_letter(a, b),
{
    let x: u32 = a as u32;
    let y: u32 = b as u32;
    a == b || ('A' <= a && a <= 'Z' && y == x + 32) || ('A' <= b && b <= 'Z' && x == y + 32)
}

fn spells_exec(text: &Vec<char>, word: &Vec<char>) -> (same: bool)
    ensures
        same == spells(text@, word@),
{
    if text.len() != word.len() {
        return false;
    }
    let mut i: usize = 0;
    while i < text.len()
        invariant
            text.len() == word.len(),
            i <= text.len(),
            forall|j: int| 0 <= j < i ==> same_letter(#[trigger] text@[j], word@[j]),
        decreases text.len() - i,
    {
        if !same_letter_exec(text[i], word[i]) {
            return false;
        }
        i += 1;
    }
    true
}

impl<'a> TryFrom<&'a str> for Method {
    type Error = RouterError;

    /// Reads a verb from `value`, ignoring the case of its letters. What it
    /// returns is `try_from_spec(value)`: the verb that `parse_method`
    /// finds, or `InvalidMethod` where it finds none.
    fn try_from(value: &'a str) -> (parsed: Result<Method, RouterError>) {
        let chars = chars_of(value);
        if spells_exec(&chars, &vec!['G', 'E', 'T']) {
            Ok(Method::GET)
        } else if spells_exec(&chars, &vec!['P', 'O', 'S', 'T']) {
            Ok(Method::POST)
        } else if spells_exec(&chars, &vec!['P', 'U', 'T']) {
            Ok(Method::PUT)
        } else if spells_exec(&chars, &vec!['D', 'E', 'L', 'E', 'T', 'E']) {
            Ok(Method::DELETE)
        } else {
            Err(RouterError::InvalidMethod)
        }
    }
}

impl<'a> TryFromSpecImpl<&'a str> for Method {
    open spec fn obeys_try_from_spec() -> bool {
        true
    }

    open spec fn try_from_spec(value: &'a str) -> Result<Method, RouterError> {
        match parse_method(value@) {
            Some(m) => Ok(m),
            None => Err(RouterError::InvalidMethod),
        }
    }
}

} // verus!
