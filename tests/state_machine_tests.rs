use vregex::vregex::automaton::state_machine::{StateMachine, StateMachineError};

#[test]
fn test_is_valid_state_id() {
    let st: StateMachine = StateMachine::new();
    assert!(!st.is_valid_state_id(1));
}

#[test]
fn test_add_state() {
    let mut st: StateMachine = StateMachine::new();
    assert_eq!(st.nb_state(), 0);
    st.add_state();
    assert_eq!(st.nb_state(), 1);
    st.add_state();
    assert_eq!(st.nb_state(), 2);
}

#[test]
fn test_add_n_state() {
    let mut st: StateMachine = StateMachine::new();
    assert_eq!(st.nb_state(), 0);
    let nb_to_add = 100;
    st.add_n_state(nb_to_add);
    assert_eq!(st.nb_state(), nb_to_add);
}

#[test]
fn test_add_transition() {
    let mut st: StateMachine = StateMachine::new();
    assert_eq!(st.add_transition(0, 0, ' '), Err(StateMachineError::InvalidStateId(0)));
    st.add_n_state(3);
    assert_eq!(st.add_transition(0, 4, ' '), Err(StateMachineError::InvalidStateId(4)));
    assert_eq!(st.add_transition(4, 0, ' '), Err(StateMachineError::InvalidStateId(4)));
    assert_eq!(st.add_transition(0, 1, ' '), Ok(()));
}

#[test]
fn test_add_eps_transition() {
    let mut st: StateMachine = StateMachine::new();
    assert_eq!(st.add_eps_transition(0, 0), Err(StateMachineError::InvalidStateId(0)));
    st.add_n_state(3);
    assert_eq!(st.add_eps_transition(0, 4), Err(StateMachineError::InvalidStateId(4)));
    assert_eq!(st.add_eps_transition(4, 0), Err(StateMachineError::InvalidStateId(4)));
    assert_eq!(st.add_eps_transition(0, 1), Ok(()));
}

fn exemple_state_machine() -> StateMachine {
    let mut st: StateMachine = StateMachine::new();
    let nb_state = 4;
    let _ = st.add_n_state(nb_state);
    let _ = st.add_transition(0, 1, 'a');
    let _ = st.add_transition(0, 2, 'b');
    let _ = st.add_transition(3, 2, 'a');
    let _ = st.add_transition(3, 1, 'b');
    let _ = st.add_transition(3, 1, 'b');
    st
}

fn exemple_state_machine_with_eps() -> StateMachine {
    let mut st: StateMachine = StateMachine::new();
    let nb_state = 4;
    let _ = st.add_n_state(nb_state);
    let _ = st.add_transition(0, 1, 'a');
    let _ = st.add_transition(0, 2, 'b');
    let _ = st.add_transition(3, 2, 'a');
    let _ = st.add_transition(3, 1, 'b');
    let _ = st.add_transition(3, 1, 'b');
    let _ = st.add_eps_transition(0, 3);
    let _ = st.add_eps_transition(3, 2);
    let _ = st.add_transition(2, 0, 'a');
    st
}

#[test]
fn test_apply_transition() {
    let st = exemple_state_machine();
    assert!(st.apply_transition(0, &'a').contains(&1));
    assert!(st.apply_transition(3, &'b').contains(&1));
    assert!(st.apply_transition(0, &'b').contains(&2));
    assert!(st.apply_transition(3, &'a').contains(&2));
}

#[test]
fn test_apply_transition_with_eps() {
    let st = exemple_state_machine_with_eps();
    assert!(st.apply_transition(0, &'a').contains(&1));
    assert!(st.apply_transition(0, &'a').contains(&2));
    assert!(st.apply_transition(0, &'a').contains(&0));

    assert!(st.apply_transition(0, &'b').contains(&2));
    assert!(st.apply_transition(0, &'b').contains(&1));
}

fn sorted(mut v: Vec<usize>) -> Vec<usize> {
    v.sort();
    v
}

#[test]
fn apply_transition_exact_sets() {
    let st = exemple_state_machine();
    assert_eq!(sorted(st.apply_transition(0, &'a')), vec![1]);
    assert_eq!(sorted(st.apply_transition(0, &'c')), Vec::<usize>::new());
    let st = exemple_state_machine_with_eps();
    assert_eq!(sorted(st.apply_transition(0, &'a')), vec![0, 1, 2, 3]);
    assert_eq!(sorted(st.apply_transition(0, &'b')), vec![1, 2]);
}

#[test]
fn mutual_epsilon_cycle_closure_terminates() {
    let mut st = StateMachine::new();
    st.add_n_state(3);
    st.add_eps_transition(0, 1).unwrap();
    st.add_eps_transition(1, 0).unwrap();
    st.add_eps_transition(1, 2).unwrap();
    st.add_transition(2, 0, 'a').unwrap();
    assert_eq!(sorted(st.apply_eps_transition(0)), vec![0, 1, 2]);
    assert_eq!(sorted(st.apply_eps_transition(2)), vec![2]);
    assert_eq!(sorted(st.apply_transition(1, &'a')), vec![0, 1, 2]);
}

#[test]
fn self_loop_closure_is_the_state() {
    let mut st = StateMachine::new();
    st.add_n_state(2);
    st.add_eps_transition(1, 1).unwrap();
    assert_eq!(st.apply_eps_transition(1), vec![1]);
}

#[test]
fn failed_insertion_changes_nothing() {
    let mut st = StateMachine::new();
    st.add_n_state(2);
    assert_eq!(st.add_eps_transition(0, 2), Err(StateMachineError::InvalidStateId(2)));
    assert_eq!(st.add_transition(5, 9, 'a'), Err(StateMachineError::InvalidStateId(5)));
    assert_eq!(st.apply_eps_transition(0), vec![0]);
    assert!(st.apply_transition(5 - 5, &'a').is_empty());
}

#[test]
fn add_n_state_ids_are_contiguous() {
    let mut st = StateMachine::new();
    st.add_state();
    assert_eq!(st.add_n_state(3), vec![1, 2, 3]);
    assert_eq!(st.add_state(), 4);
}
