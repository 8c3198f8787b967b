//! Automaton: a transition graph plus the entry and exit frontiers used while
//! it is built, and the set of active states used while it is run.
pub mod state_machine;

use self::state_machine::{
    contains_id, lemma_closure_valid, lemma_eps_reach_refl, lemma_reads_then_eps, lemma_step_valid, union_into, GraphView, StateMachine,
    StateMachineError,
};
use vstd::prelude::*;

verus! {

/// Error raised when construction refers to a state that does not exist.
#[derive(Debug, Clone, Copy, PartialEq, Eq, Structural)]
pub enum AutomatonError {
    InternalFailure,
}

/// Mathematical model of an automaton.
pub ghost struct AutomatonView {
    pub graph: GraphView,
    pub entry: Set<usize>,
    pub exit: Set<usize>,
    pub active: Set<usize>,
}

impl AutomatonView {
    /// The graph is well formed and every frontier names existing states.
    pub open spec fn valid(self) -> bool {
        &&& self.graph.wf()
        &&& self.graph.all_valid(self.entry)
        &&& self.graph.all_valid(self.exit)
        &&& self.graph.all_valid(self.active)
    }

    /// Union of the single-state steps on `c` from each state of `s`.
    pub open spec fn advance(self, s: Set<usize>, c: char) -> Set<usize> {
        Set::new(|t: usize| exists|x: usize| s.contains(x) && #[trigger] self.graph.step(x, c).contains(t))
    }

    /// Union of the epsilon-closures of the states of `s`.
    pub open spec fn close(self, s: Set<usize>) -> Set<usize> {
        Set::new(|t: usize| exists|x: usize| s.contains(x) && #[trigger] self.graph.eps_reach(x, t))
    }

    /// `s` shares a state with the exit frontier.
    pub open spec fn hits_exit(self, s: Set<usize>) -> bool {
        exists|x: usize| s.contains(x) && #[trigger] self.exit.contains(x)
    }

    /// The active set after feeding the symbols of `w`, in order, from `s`.
    pub open spec fn run(self, s: Set<usize>, w: Seq<char>) -> Set<usize>
        decreases w.len(),
    {
        if w.len() == 0 {
            s
        } else {
            self.advance(self.run(s, w.drop_last()), w.last())
        }
    }

    /// Whether the automaton accepts `w` from its entry frontier: the empty word
    /// by closing the entry frontier, any other word by running it.
    pub open spec fn accepts(self, w: Seq<char>) -> bool {
        if w.len() == 0 {
            self.hits_exit(self.close(self.entry))
        } else {
            self.hits_exit(self.run(self.entry, w))
        }
    }

    /// Everything but the active set is as in `o`.
    pub open spec fn same_build(self, o: AutomatonView) -> bool {
        &&& self.graph == o.graph
        &&& self.entry == o.entry
        &&& self.exit == o.exit
    }
}

/// After a non-empty word, the active set holds exactly the states that a
/// path reading the word reaches from a state of `s`.
pub proof fn lemma_run_is_reads(a: AutomatonView, s: Set<usize>, w: Seq<char>)
    requires
        w.len() >= 1,
    ensures
        forall|b: usize| #[trigger] a.run(s, w).contains(b) <==> exists|x: usize| s.contains(x) && a.graph.reads(x, w, b),
    decreases w.len(),
{
    let g = a.graph;
    let w0 = w.drop_last();
    let c = w.last();
    let prev = a.run(s, w0);
    if w.len() > 1 {
        lemma_run_is_reads(a, s, w0);
    } else {
        assert(w0.len() == 0);
        assert(prev == s);
    }
    assert forall|b: usize| #[trigger] a.run(s, w).contains(b) implies exists|x: usize| s.contains(x) && g.reads(x, w, b) by {
        let y = choose|y: usize| prev.contains(y) && #[trigger] g.step(y, c).contains(b);
        let m = choose|m: usize| #[trigger] g.after_symbol(y, c).contains(m) && g.eps_reach(m, b);
        let z = choose|z: usize| g.eps_reach(y, z) && #[trigger] g.sym.contains((z, c, m));
        if w.len() > 1 {
            let x = choose|x: usize| s.contains(x) && g.reads(x, w0, y);
            lemma_reads_then_eps(g, x, w0, y, z);
            assert(g.reads(x, w, b));
        } else {
            assert(g.reads(y, w0, z));
            assert(g.reads(y, w, b));
        }
    }
    assert forall|b: usize| (exists|x: usize| s.contains(x) && g.reads(x, w, b)) implies #[trigger] a.run(s, w).contains(b) by {
        let x = choose|x: usize| s.contains(x) && g.reads(x, w, b);
        let (m, n) = choose|m: usize, n: usize| g.reads(x, w0, m) && #[trigger] g.sym.contains((m, c, n)) && g.eps_reach(n, b);
        lemma_eps_reach_refl(g, m);
        assert(g.after_symbol(m, c).contains(n));
        assert(g.step(m, c).contains(b));
        if w.len() > 1 {
            assert(prev.contains(m));
        } else {
            assert(g.eps_reach(x, m));
            assert(g.after_symbol(x, c).contains(n));
            assert(g.step(x, c).contains(b));
            assert(prev.contains(x));
        }
    }
}

/// The subset simulation agrees with the path semantics of the automaton: a
/// word is accepted exactly when a path from an entry state to an exit state
/// reads it, epsilon edges being taken freely. This holds for the empty word
/// too, where the query closes the entry frontier instead of running.
pub proof fn lemma_accepts_iff_path(a: AutomatonView, w: Seq<char>)
    ensures
        a.accepts(w) <==> exists|x: usize, y: usize|
            a.entry.contains(x) && a.exit.contains(y) && #[trigger] a.graph.reads(x, w, y),
{
    if w.len() == 0 {
        if a.accepts(w) {
            let y = choose|y: usize| a.close(a.entry).contains(y) && #[trigger] a.exit.contains(y);
            let x = choose|x: usize| a.entry.contains(x) && #[trigger] a.graph.eps_reach(x, y);
            assert(a.graph.reads(x, w, y));
        }
        if exists|x: usize, y: usize| a.entry.contains(x) && a.exit.contains(y) && #[trigger] a.graph.reads(x, w, y) {
            let (x, y) = choose|x: usize, y: usize| a.entry.contains(x) && a.exit.contains(y) && #[trigger] a.graph.reads(x, w, y);
            assert(a.close(a.entry).contains(y));
        }
    } else {
        lemma_run_is_reads(a, a.entry, w);
        if a.accepts(w) {
            let y = choose|y: usize| a.run(a.entry, w).contains(y) && #[trigger] a.exit.contains(y);
            let x = choose|x: usize| a.entry.contains(x) && a.graph.reads(x, w, y);
        }
        if exists|x: usize, y: usize| a.entry.contains(x) && a.exit.contains(y) && #[trigger] a.graph.reads(x, w, y) {
            let (x, y) = choose|x: usize, y: usize| a.entry.contains(x) && a.exit.contains(y) && #[trigger] a.graph.reads(x, w, y);
            assert(a.run(a.entry, w).contains(y));
        }
    }
}

/// A nondeterministic automaton over `char`.
pub struct Automaton {
    entry: Vec<usize>,
    exit: Vec<usize>,
    current_states: Vec<usize>,
    machine: StateMachine,
}

impl View for Automaton {
    type V = AutomatonView;

    closed spec fn view(&self) -> AutomatonView {
        AutomatonView {
            graph: self.machine@,
            entry: self.entry@.to_set(),
            exit: self.exit@.to_set(),
            active: self.current_states@.to_set(),
        }
    }
}

impl Automaton {
    /// Internal representation invariant: each frontier lists a state once.
    pub closed spec fn inv(&self) -> bool {
        &&& self.entry@.no_duplicates()
        &&& self.exit@.no_duplicates()
        &&& self.current_states@.no_duplicates()
    }

    pub open spec fn wf(&self) -> bool {
        self.inv() && self@.valid()
    }

    pub fn new() -> (r: Automaton)
        ensures
            r.wf(),
            r@.graph.n == 0,
            r@.graph.sym == Set::<(usize, char, usize)>::empty(),
            r@.graph.eps == Set::<(usize, usize)>::empty(),
            r@.entry == Set::<usize>::empty(),
            r@.exit == Set::<usize>::empty(),
            r@.active == Set::<usize>::empty(),
    {
        let r = Automaton {
            entry: Vec::new(),
            exit: Vec::new(),
            current_states: Vec::new(),
            machine: StateMachine::new(),
        };
        assert(r@.entry =~= Set::empty());
        assert(r@.exit =~= Set::empty());
        assert(r@.active =~= Set::empty());
        r
    }

    pub fn nb_state(&self) -> (r: usize)
        ensures
            r == self@.graph.n,
    {
        self.machine.nb_state()
    }

    /// Appends a state without edges and returns its id.
    pub fn add_state(&mut self) -> (id: usize)
        requires
            old(self).wf(),
            old(self)@.graph.n < usize::MAX,
        ensures
            final(self).wf(),
            id == old(self)@.graph.n,
            final(self)@ == (AutomatonView { graph: old(self)@.graph.with_states(1), ..old(self)@ }),
    {
        self.machine.add_state()
    }

    /// Appends `n` states without edges; returns their ids, contiguous and increasing.
    pub fn add_n_state(&mut self, n: usize) -> (ids: Vec<usize>)
        requires
            old(self).wf(),
            old(self)@.graph.n + n <= usize::MAX,
        ensures
            final(self).wf(),
            ids@.len() == n,
            forall|i: int| 0 <= i < n ==> ids@[i] == old(self)@.graph.n + i,
            final(self)@ == (AutomatonView { graph: old(self)@.graph.with_states(n as nat), ..old(self)@ }),
    {
        self.machine.add_n_state(n)
    }

    /// Adds `i` to the entry frontier; fails, changing nothing, if `i` names no state.
    pub fn add_entry(&mut self, i: usize) -> (r: Result<(), AutomatonError>)
        requires
            old(self).wf(),
        ensures
            final(self).wf(),
            r is Ok <==> i < old(self)@.graph.n,
            r is Err ==> r == Err::<(), _>(AutomatonError::InternalFailure) && final(self)@ == old(self)@,
            r is Ok ==> final(self)@ == (AutomatonView { entry: old(self)@.entry.insert(i), ..old(self)@ }),
    {
        if !self.machine.is_valid_state_id(i) {
            Err(AutomatonError::InternalFailure)
        } else {
            insert_id(&mut self.entry, i);
            Ok(())
        }
    }

    /// Empties the entry frontier.
    pub fn reset_entry(&mut self)
        requires
            old(self).wf(),
        ensures
            final(self).wf(),
            final(self)@ == (AutomatonView { entry: Set::empty(), ..old(self)@ }),
    {
        self.entry = Vec::new();
        assert(self@.entry =~= Set::empty());
    }

    /// A copy of the entry frontier.
    pub fn get_entry(&self) -> (r: Vec<usize>)
        requires
            self.wf(),
        ensures
            r@.no_duplicates(),
            r@.to_set() == self@.entry,
    {
        self.entry.clone()
    }

    /// Adds `i` to the exit frontier; fails, changing nothing, if `i` names no state.
    pub fn add_exit(&mut self, i: usize) -> (r: Result<(), AutomatonError>)
        requires
            old(self).wf(),
        ensures
            final(self).wf(),
            r is Ok <==> i < old(self)@.graph.n,
            r is Err ==> r == Err::<(), _>(AutomatonError::InternalFailure) && final(self)@ == old(self)@,
            r is Ok ==> final(self)@ == (AutomatonView { exit: old(self)@.exit.insert(i), ..old(self)@ }),
    {
        if !self.machine.is_valid_state_id(i) {
            Err(AutomatonError::InternalFailure)
        } else {
            insert_id(&mut self.exit, i);
            Ok(())
        }
    }

    /// A copy of the exit frontier.
    pub fn get_exit(&self) -> (r: Vec<usize>)
        requires
            self.wf(),
        ensures
            r@.no_duplicates(),
            r@.to_set() == self@.exit,
    {
        self.exit.clone()
    }

    /// Empties the exit frontier.
    pub fn reset_exit(&mut self)
        requires
            old(self).wf(),
        ensures
            final(self).wf(),
            final(self)@ == (AutomatonView { exit: Set::empty(), ..old(self)@ }),
    {
        self.exit = Vec::new();
        assert(self@.exit =~= Set::empty());
    }

    /// Adds an edge labelled `v`; fails, changing nothing, if either id names no state.
    pub fn add_transition(&mut self, from: usize, to: usize, v: char) -> (r: Result<(), AutomatonError>)
        requires
            old(self).wf(),
        ensures
            final(self).wf(),
            r is Ok <==> from < old(self)@.graph.n && to < old(self)@.graph.n,
            r is Err ==> r == Err::<(), _>(AutomatonError::InternalFailure) && final(self)@ == old(self)@,
            r is Ok ==> final(self)@ == (AutomatonView {
                graph: old(self)@.graph.with_sym(from, to, v),
                ..old(self)@
            }),
    {
        match self.machine.add_transition(from, to, v) {
            Ok(()) => Ok(()),
            Err(_) => Err(AutomatonError::InternalFailure),
        }
    }

    /// Adds an epsilon edge; fails, changing nothing, if either id names no state.
    pub fn add_eps_transition(&mut self, from: usize, to: usize) -> (r: Result<(), AutomatonError>)
        requires
            old(self).wf(),
        ensures
            final(self).wf(),
            r is Ok <==> from < old(self)@.graph.n && to < old(self)@.graph.n,
            r is Err ==> r == Err::<(), _>(AutomatonError::InternalFailure) && final(self)@ == old(self)@,
            r is Ok ==> final(self)@ == (AutomatonView { graph: old(self)@.graph.with_eps(from, to), ..old(self)@ }),
    {
        match self.machine.add_eps_transition(from, to) {
            Ok(()) => Ok(()),
            Err(_) => Err(AutomatonError::InternalFailure),
        }
    }

    /// Starts a query: the active set becomes the entry frontier.
    pub fn init_for_read(&mut self)
        requires
            old(self).wf(),
        ensures
            final(self).wf(),
            final(self)@ == (AutomatonView { active: old(self)@.entry, ..old(self)@ }),
    {
        self.current_states = self.entry.clone();
    }

    /// Consumes one symbol: each active state is replaced by the states its step reaches.
    pub fn read(&mut self, v: &char)
        requires
            old(self).wf(),
        ensures
            final(self).wf(),
            final(self)@ == (AutomatonView { active: old(self)@.advance(old(self)@.active, *v), ..old(self)@ }),
    {
        let ghost a = self@;
        let mut next: Vec<usize> = Vec::new();
        let mut i: usize = 0;
        while i < self.current_states.len()
            invariant
                self.wf(),
                self@ == a,
                i <= self.current_states@.len(),
                next@.no_duplicates(),
                next@.to_set() == Set::new(
                    |t: usize| exists|j: int| 0 <= j < i && #[trigger] a.graph.step(self.current_states@[j], *v).contains(t),
                ),
            decreases self.current_states.len() - i,
        {
            let s = self.current_states[i];
            assert(a.active.contains(s));
            let succ = self.machine.apply_transition(s, v);
            let ghost prev = next@.to_set();
            union_into(&mut next, &succ);
            assert(next@.to_set() =~= Set::new(
                |t: usize| exists|j: int| 0 <= j < i + 1 && #[trigger] a.graph.step(self.current_states@[j], *v).contains(t),
            )) by {
                assert forall|t: usize| #[trigger] next@.to_set().contains(t) implies
                    exists|j: int| 0 <= j < i + 1 && #[trigger] a.graph.step(self.current_states@[j], *v).contains(t) by {
                    if !prev.contains(t) {
                        assert(succ@.to_set().contains(t));
                        assert(a.graph.step(self.current_states@[i as int], *v).contains(t));
                    }
                }
                assert forall|t: usize|
                    (exists|j: int| 0 <= j < i + 1 && #[trigger] a.graph.step(self.current_states@[j], *v).contains(t))
                        implies #[trigger] next@.to_set().contains(t) by {
                    let j = choose|j: int| 0 <= j < i + 1 && #[trigger] a.graph.step(self.current_states@[j], *v).contains(t);
                    if j == i {
                        assert(succ@.to_set().contains(t));
                    } else {
                        assert(prev.contains(t));
                    }
                }
            }
            i += 1;
        }
        proof {
            assert forall|t: usize| #[trigger] next@.to_set().contains(t) == a.advance(a.active, *v).contains(t) by {
                if next@.to_set().contains(t) {
                    let j = choose|j: int| 0 <= j < self.current_states@.len() && #[trigger] a.graph.step(self.current_states@[j], *v).contains(t);
                    assert(a.active.contains(self.current_states@[j]));
                }
                if a.advance(a.active, *v).contains(t) {
                    let x = choose|x: usize| a.active.contains(x) && #[trigger] a.graph.step(x, *v).contains(t);
                    let j = choose|j: int| 0 <= j < self.current_states@.len() && self.current_states@[j] == x;
                    assert(a.graph.step(self.current_states@[j], *v).contains(t));
                }
            }
            assert(next@.to_set() =~= a.advance(a.active, *v));
            assert forall|t: usize| #[trigger] a.advance(a.active, *v).contains(t) implies t < a.graph.n by {
                let x = choose|x: usize| a.active.contains(x) && #[trigger] a.graph.step(x, *v).contains(t);
                lemma_step_valid(a.graph, x, *v);
            }
        }
        self.current_states = next;
    }

    /// Closes the active set under epsilon edges without consuming a symbol.
    pub fn read_empty(&mut self)
        requires
            old(self).wf(),
        ensures
            final(self).wf(),
            final(self)@ == (AutomatonView { active: old(self)@.close(old(self)@.active), ..old(self)@ }),
    {
        let ghost a = self@;
        let mut next: Vec<usize> = Vec::new();
        let mut i: usize = 0;
        while i < self.current_states.len()
            invariant
                self.wf(),
                self@ == a,
                i <= self.current_states@.len(),
                next@.no_duplicates(),
                next@.to_set() == Set::new(
                    |t: usize| exists|j: int| 0 <= j < i && #[trigger] a.graph.eps_reach(self.current_states@[j], t),
                ),
            decreases self.current_states.len() - i,
        {
            let s = self.current_states[i];
            assert(a.active.contains(s));
            let succ = self.machine.apply_eps_transition(s);
            let ghost prev = next@.to_set();
            union_into(&mut next, &succ);
            assert(next@.to_set() =~= Set::new(
                |t: usize| exists|j: int| 0 <= j < i + 1 && #[trigger] a.graph.eps_reach(self.current_states@[j], t),
            )) by {
                assert forall|t: usize| #[trigger] next@.to_set().contains(t) implies
                    exists|j: int| 0 <= j < i + 1 && #[trigger] a.graph.eps_reach(self.current_states@[j], t) by {
                    if !prev.contains(t) {
                        assert(succ@.to_set().contains(t));
                        assert(a.graph.eps_reach(self.current_states@[i as int], t));
                    }
                }
                assert forall|t: usize|
                    (exists|j: int| 0 <= j < i + 1 && #[trigger] a.graph.eps_reach(self.current_states@[j], t))
                        implies #[trigger] next@.to_set().contains(t) by {
                    let j = choose|j: int| 0 <= j < i + 1 && #[trigger] a.graph.eps_reach(self.current_states@[j], t);
                    if j == i {
                        assert(succ@.to_set().contains(t));
                    } else {
                        assert(prev.contains(t));
                    }
                }
            }
            i += 1;
        }
        proof {
            assert forall|t: usize| #[trigger] next@.to_set().contains(t) == a.close(a.active).contains(t) by {
                if next@.to_set().contains(t) {
                    let j = choose|j: int| 0 <= j < self.current_states@.len() && #[trigger] a.graph.eps_reach(self.current_states@[j], t);
                    assert(a.active.contains(self.current_states@[j]));
                }
                if a.close(a.active).contains(t) {
                    let x = choose|x: usize| a.active.contains(x) && #[trigger] a.graph.eps_reach(x, t);
                    let j = choose|j: int| 0 <= j < self.current_states@.len() && self.current_states@[j] == x;
                    assert(a.graph.eps_reach(self.current_states@[j], t));
                }
            }
            assert(next@.to_set() =~= a.close(a.active));
            assert forall|t: usize| #[trigger] a.close(a.active).contains(t) implies t < a.graph.n by {
                let x = choose|x: usize| a.active.contains(x) && #[trigger] a.graph.eps_reach(x, t);
                lemma_closure_valid(a.graph, x);
                assert(a.graph.eps_closure(x).contains(t));
            }
        }
        self.current_states = next;
    }

    /// Whether some active state lies on the exit frontier.
    pub fn on_exit(&self) -> (r: bool)
        requires
            self.wf(),
        ensures
            r == self@.hits_exit(self@.active),
    {
        let mut i: usize = 0;
        while i < self.current_states.len()
            invariant
                i <= self.current_states@.len(),
                forall|j: int| 0 <= j < i ==> !self.exit@.contains(#[trigger] self.current_states@[j]),
            decreases self.current_states.len() - i,
        {
            if contains_id(&self.exit, self.current_states[i]) {
                assert(self@.active.contains(self.current_states@[i as int]));
                assert(self@.exit.contains(self.current_states@[i as int]));
                return true;
            }
            i += 1;
        }
        assert forall|x: usize| self@.active.contains(x) implies !#[trigger] self@.exit.contains(x) by {
            let j = choose|j: int| 0 <= j < self.current_states@.len() && self.current_states@[j] == x;
        }
        false
    }
}

/// Adds `x` to the duplicate-free list `v` unless it holds it already.
fn insert_id(v: &mut Vec<usize>, x: usize)
    requires
        old(v)@.no_duplicates(),
    ensures
        final(v)@.no_duplicates(),
        final(v)@.to_set() == old(v)@.to_set().insert(x),
{
    let single = vec![x];
    union_into(v, &single);
    assert(single@.to_set() =~= set![x]) by {
        assert(single@[0] == x);
    }
    assert(old(v)@.to_set().union(set![x]) =~= old(v)@.to_set().insert(x));
}

} // verus!
