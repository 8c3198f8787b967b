//! A minimal state-machine skeleton: states live in one array and are named
//! by index, with a designated entry state and end state.
use vstd::prelude::*;

verus! {

/// Role of a state in the skeleton.
#[derive(Debug, Clone, Copy, PartialEq, Eq, Structural)]
pub enum StateType {
    Entry,
    End,
    Regular,
}

#[derive(Debug)]
struct State {
    state_type: StateType,
    transitions: Vec<(char, usize)>,
}

impl State {
    fn new() -> (r: State)
        ensures
            r.state_type == StateType::Regular,
    {
        State { state_type: StateType::Regular, transitions: Vec::new() }
    }

    fn new_entry() -> (r: State)
        ensures
            r.state_type == StateType::Entry,
    {
        State { state_type: StateType::Entry, transitions: Vec::new() }
    }

    fn new_end() -> (r: State)
        ensures
            r.state_type == StateType::End,
    {
        State { state_type: StateType::End, transitions: Vec::new() }
    }
}

/// Skeleton machine: an entry state, an end state and any number of regular states.
#[derive(Debug)]
pub struct StateMachine {
    entry_idx: usize,
    end_idx: usize,
    states: Vec<State>,
}

impl View for StateMachine {
    type V = Seq<StateType>;

    /// The role of each state, by index.
    closed spec fn view(&self) -> Seq<StateType> {
        self.states@.map_values(|s: State| s.state_type)
    }
}

impl StateMachine {
    pub closed spec fn entry_index(&self) -> nat {
        self.entry_idx as nat
    }

    pub closed spec fn end_index(&self) -> nat {
        self.end_idx as nat
    }

    /// A machine holding only its entry state (index 0) and end state (index 1).
    pub fn new() -> (r: StateMachine)
        ensures
            r@ == seq![StateType::Entry, StateType::End],
            r.entry_index() == 0,
            r.end_index() == 1,
    {
        let mut st = StateMachine { entry_idx: 0, end_idx: 1, states: Vec::new() };
        st.states.push(State::new_entry());
        st.states.push(State::new_end());
        assert(st@ =~= seq![StateType::Entry, StateType::End]);
        st
    }

    /// Appends a regular state.
    pub fn add_state(&mut self)
        requires
            old(self)@.len() < usize::MAX,
        ensures
            final(self)@ == old(self)@.push(StateType::Regular),
            final(self).entry_index() == old(self).entry_index(),
            final(self).end_index() == old(self).end_index(),
    {
        self.states.push(State::new());
        assert(self@ =~= old(self)@.push(StateType::Regular));
    }

    /// Number of states.
    pub fn len(&self) -> (r: usize)
        ensures
            r == self@.len(),
    {
        self.states.len()
    }
}

} // verus!
