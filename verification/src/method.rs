//! The request method.

use crate::text::chars_of;
use vstd::prelude::*;

verus! {

/// What a request asks for: to fetch a resource or to submit text.
#[derive(Clone, Copy, Debug, PartialEq, Eq, PartialOrd, Structural)]
pub enum Method {
    GET,
    POST,
}

/// Whether `s` spells `post`, in small letters, in capitals or in any mix of
/// the two.
pub open spec fn spells_post(s: Seq<char>) -> bool {
    &&& s.len() == 4
    &&& (s[0] == 'p' || s[0] == 'P')
    &&& (s[1] == 'o' || s[1] == 'O')
    &&& (s[2] == 's' || s[2] == 'S')
    &&& (s[3] == 't' || s[3] == 'T')
}

/// The method that the first word of a request line names: `POST` where it
/// spells `post`, `GET` for every other word.
pub open spec fn method_of(word: Seq<char>) -> Method {
    if spells_post(word) {
        Method::POST
    } else {
        Method::GET
    }
}

impl Method {
    /// Reads a method from the first word of a request line.
    pub fn parse(string: &str) -> (method: Self)
        ensures
            method == method_of(string@),
    {
        let word = chars_of(string);
        Method::of_word(&word)
    }

    /// Reads a method from a word given as characters.
    pub fn of_word(word: &[char]) -> (method: Self)
        ensures
            method == method_of(word@),
    {
        if word.len() == 4 && (word[0] == 'p' || word[0] == 'P') && (word[1] == 'o' || word[1]
            == 'O') && (word[2] == 's' || word[2] == 'S') && (word[3] == 't' || word[3] == 'T') {
            Method::POST
        } else {
            Method::GET
        }
    }
}

} // verus!
