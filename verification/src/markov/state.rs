//! States of a Markov model: an identifier, the word of symbols that labels
//! the state, and how often it was visited.

use vstd::prelude::*;
use vstd::string::*;
use crate::error::SdfResult;

verus! {

/// A state of a Markov model.
#[derive(Debug, Clone, PartialEq)]
pub struct State {
    id: usize,
    word: String,
    visit_count: usize,
}

impl State {
    /// The identifier of the state.
    pub closed spec fn spec_id(self) -> nat {
        self.id as nat
    }

    /// The label of the state.
    pub closed spec fn spec_word(self) -> Seq<char> {
        self.word@
    }

    /// How often the state was visited.
    pub closed spec fn spec_visit_count(self) -> nat {
        self.visit_count as nat
    }

    /// Create a new, unvisited state.
    pub fn new(id: usize, word: String) -> (r: SdfResult<Self>)
        ensures
            r matches Ok(s) && s.spec_id() == id && s.spec_word() == word@ && s.spec_visit_count() == 0,
    {
        Ok(State { id, word, visit_count: 0 })
    }

    /// Create a new, unvisited state labelled by a word.
    pub fn from_word(id: usize, word: &str) -> (r: SdfResult<Self>)
        ensures
            r matches Ok(s) && s.spec_id() == id && s.spec_word() == word@ && s.spec_visit_count() == 0,
    {
        Ok(State { id, word: String::from_str(word), visit_count: 0 })
    }

    /// The identifier of the state.
    pub fn id(&self) -> (r: usize)
        ensures
            r == self.spec_id(),
    {
        self.id
    }

    /// The label of the state.
    pub fn word(&self) -> (r: &str)
        ensures
            r@ == self.spec_word(),
    {
        self.word.as_str()
    }

    /// How often the state was visited.
    pub fn visit_count(&self) -> (r: usize)
        ensures
            r == self.spec_visit_count(),
    {
        self.visit_count
    }

    /// The state that merges this one with `other`: it keeps this state's
    /// identifier, joins the two labels with `+` and adds the visit counts.
    pub fn merge_with(&self, other: &State) -> (r: State)
        requires
            self.spec_visit_count() + other.spec_visit_count() <= usize::MAX,
        ensures
            r.spec_id() == self.spec_id(),
            r.spec_word() == self.spec_word() + "+"@ + other.spec_word(),
            r.spec_visit_count() == self.spec_visit_count() + other.spec_visit_count(),
    {
        let mut word = String::from_str(self.word.as_str());
        word.append("+");
        word.append(other.word.as_str());
        State { id: self.id, word, visit_count: self.visit_count + other.visit_count }
    }
}

} // verus!
