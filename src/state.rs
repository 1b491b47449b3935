//! States of an automaton and the verdict of an evaluation.
use vstd::prelude::*;

verus! {

/// A state of an automaton, identified by its label.
#[derive(Debug, Clone, Eq, Hash)]
pub struct State {
    pub name: String,
}

impl View for State {
    type V = Seq<char>;

    open spec fn view(&self) -> Seq<char> {
        self.name@
    }
}

impl State {
    /// Makes the state labelled `name`.
    pub fn new(name: &str) -> (r: State)
        ensures
            r@ == name@,
    {
        State { name: String::from_str(name) }
    }

    /// Duplicates this state; the copy has the same label.
    pub fn copy(&self) -> (r: State)
        ensures
            r@ == self@,
    {
        State { name: self.name.clone() }
    }
}

impl PartialEq for State {
    fn eq(&self, other: &State) -> (r: bool) {
        self.name == other.name
    }
}

impl vstd::std_specs::cmp::PartialEqSpecImpl for State {
    open spec fn obeys_eq_spec() -> bool {
        true
    }

    open spec fn eq_spec(&self, other: &State) -> bool {
        self@ == other@
    }
}

/// The verdict on an input sequence, with the state the automaton ended in.
#[derive(Debug, PartialEq)]
pub enum Evaluation {
    /// The input ended in an accept state.
    Accept(State),
    /// The input ended in a state that does not accept.
    Reject(State),
}

impl Evaluation {
    /// The state the automaton ended in.
    pub open spec fn final_state(self) -> State {
        match self {
            Evaluation::Accept(s) => s,
            Evaluation::Reject(s) => s,
        }
    }

    /// The input was accepted.
    pub fn is_accept(&self) -> (r: bool)
        ensures
            r == (self is Accept),
    {
        match self {
            Evaluation::Accept(_) => true,
            Evaluation::Reject(_) => false,
        }
    }

    /// The input was rejected.
    pub fn is_reject(&self) -> (r: bool)
        ensures
            r == (self is Reject),
    {
        match self {
            Evaluation::Accept(_) => false,
            Evaluation::Reject(_) => true,
        }
    }
}

} // verus!
