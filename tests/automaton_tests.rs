use vregex::state_machine::StateMachine as Skeleton;
use vregex::vregex::automaton::{Automaton, AutomatonError};

#[test]
fn frontier_rejects_unknown_states() {
    let mut a = Automaton::new();
    assert_eq!(a.add_entry(0), Err(AutomatonError::InternalFailure));
    assert_eq!(a.add_exit(0), Err(AutomatonError::InternalFailure));
    assert_eq!(a.add_transition(0, 1, 'a'), Err(AutomatonError::InternalFailure));
    assert_eq!(a.add_eps_transition(0, 1), Err(AutomatonError::InternalFailure));
    assert_eq!(a.add_n_state(2), vec![0, 1]);
    assert_eq!(a.add_entry(0), Ok(()));
    assert_eq!(a.add_entry(0), Ok(()));
    assert_eq!(a.get_entry(), vec![0]);
    assert_eq!(a.add_exit(1), Ok(()));
    assert_eq!(a.get_exit(), vec![1]);
    a.reset_entry();
    a.reset_exit();
    assert!(a.get_entry().is_empty());
    assert!(a.get_exit().is_empty());
}

#[test]
fn simulation_by_hand() {
    let mut a = Automaton::new();
    a.add_n_state(3);
    a.add_entry(0).unwrap();
    a.add_exit(2).unwrap();
    a.add_transition(0, 1, 'a').unwrap();
    a.add_eps_transition(1, 2).unwrap();
    a.add_eps_transition(2, 1).unwrap();
    a.init_for_read();
    assert!(!a.on_exit());
    a.read(&'a');
    assert!(a.on_exit());
    a.read(&'a');
    assert!(!a.on_exit());
    a.init_for_read();
    a.read_empty();
    assert!(!a.on_exit());
}

#[test]
fn empty_query_closes_entry() {
    let mut a = Automaton::new();
    assert_eq!(a.add_state(), 0);
    assert_eq!(a.add_state(), 1);
    a.add_entry(0).unwrap();
    a.add_exit(1).unwrap();
    a.add_eps_transition(0, 1).unwrap();
    a.init_for_read();
    assert!(!a.on_exit());
    a.read_empty();
    assert!(a.on_exit());
}

#[test]
fn skeleton_has_entry_and_end() {
    let mut st = Skeleton::new();
    assert_eq!(st.len(), 2);
    st.add_state();
    assert_eq!(st.len(), 3);
}
