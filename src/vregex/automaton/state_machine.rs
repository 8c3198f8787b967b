//! Transition graph: an arena of states addressed by dense integer ids.
//! Each state holds symbol-labelled edges and epsilon edges to other states.
use vstd::prelude::*;

verus! {

/// Error raised when a state id does not name a state of the graph.
#[derive(Debug, Clone, Copy, PartialEq, Eq, Structural)]
pub enum StateMachineError {
    InvalidStateId(usize),
}

/// Mathematical model of a graph: its number of states and its edge sets.
pub ghost struct GraphView {
    pub n: nat,
    pub sym: Set<(usize, char, usize)>,
    pub eps: Set<(usize, usize)>,
}

impl GraphView {
    /// Every edge joins two existing states.
    pub open spec fn wf(self) -> bool {
        &&& forall|e: (usize, char, usize)| #[trigger]
            self.sym.contains(e) ==> e.0 < self.n && e.2 < self.n
        &&& forall|e: (usize, usize)| #[trigger] self.eps.contains(e) ==> e.0 < self.n && e.1 < self.n
    }

    pub open spec fn all_valid(self, s: Set<usize>) -> bool {
        forall|x: usize| #[trigger] s.contains(x) ==> x < self.n
    }

    /// `b` is reached from `a` by at most `k` epsilon edges.
    pub open spec fn eps_reach_within(self, a: usize, b: usize, k: nat) -> bool
        decreases k,
    {
        if k == 0 {
            a == b
        } else {
            self.eps_reach_within(a, b, (k - 1) as nat) || exists|m: usize|
                self.eps_reach_within(a, m, (k - 1) as nat) && #[trigger] self.eps.contains((m, b))
        }
    }

    /// `b` is reached from `a` by zero or more epsilon edges.
    pub open spec fn eps_reach(self, a: usize, b: usize) -> bool {
        exists|k: nat| #[trigger] self.eps_reach_within(a, b, k)
    }

    /// The epsilon-closure of a state, the state itself included.
    pub open spec fn eps_closure(self, a: usize) -> Set<usize> {
        Set::new(|b: usize| self.eps_reach(a, b))
    }

    /// States that a `c` edge reaches from the epsilon-closure of `a`.
    pub open spec fn after_symbol(self, a: usize, c: char) -> Set<usize> {
        Set::new(|m: usize| exists|s: usize| self.eps_reach(a, s) && #[trigger] self.sym.contains((s, c, m)))
    }

    /// The single-state, single-symbol transition: close, follow `c`, close again.
    pub open spec fn step(self, a: usize, c: char) -> Set<usize> {
        Set::new(|t: usize| exists|m: usize| #[trigger] self.after_symbol(a, c).contains(m) && self.eps_reach(m, t))
    }

    /// `b` is reached from `a` along a path whose symbol edges read `w`,
    /// with epsilon edges taken freely before, between and after them.
    pub open spec fn reads(self, a: usize, w: Seq<char>, b: usize) -> bool
        decreases w.len(),
    {
        if w.len() == 0 {
            self.eps_reach(a, b)
        } else {
            exists|m: usize, n: usize|
                self.reads(a, w.drop_last(), m) && #[trigger] self.sym.contains((m, w.last(), n)) && self.eps_reach(n, b)
        }
    }

    /// This graph with `n` more states and no new edge.
    pub open spec fn with_states(self, n: nat) -> GraphView {
        GraphView { n: self.n + n, sym: self.sym, eps: self.eps }
    }

    pub open spec fn with_sym(self, from: usize, to: usize, c: char) -> GraphView {
        GraphView { n: self.n, sym: self.sym.insert((from, c, to)), eps: self.eps }
    }

    pub open spec fn with_eps(self, from: usize, to: usize) -> GraphView {
        GraphView { n: self.n, sym: self.sym, eps: self.eps.insert((from, to)) }
    }
}

/// Appending an epsilon edge to a reaching path reaches one state further.
pub proof fn lemma_eps_reach_extend(g: GraphView, a: usize, m: usize, b: usize)
    requires
        g.eps_reach(a, m),
        g.eps.contains((m, b)),
    ensures
        g.eps_reach(a, b),
{
    let k = choose|k: nat| #[trigger] g.eps_reach_within(a, m, k);
    assert(g.eps_reach_within(a, b, k + 1));
}

pub proof fn lemma_eps_reach_refl(g: GraphView, a: usize)
    ensures
        g.eps_reach(a, a),
{
    assert(g.eps_reach_within(a, a, 0));
}

/// Epsilon reachability is transitive.
pub proof fn lemma_eps_reach_trans(g: GraphView, a: usize, b: usize, c: usize, k: nat)
    requires
        g.eps_reach(a, b),
        g.eps_reach_within(b, c, k),
    ensures
        g.eps_reach(a, c),
    decreases k,
{
    if k == 0 {
    } else if g.eps_reach_within(b, c, (k - 1) as nat) {
        lemma_eps_reach_trans(g, a, b, c, (k - 1) as nat);
    } else {
        let m = choose|m: usize| g.eps_reach_within(b, m, (k - 1) as nat) && #[trigger] g.eps.contains((m, c));
        lemma_eps_reach_trans(g, a, b, m, (k - 1) as nat);
        lemma_eps_reach_extend(g, a, m, c);
    }
}

/// Epsilon edges taken after a path keep it a path for the same word.
pub proof fn lemma_reads_then_eps(g: GraphView, a: usize, w: Seq<char>, b: usize, c: usize)
    requires
        g.reads(a, w, b),
        g.eps_reach(b, c),
    ensures
        g.reads(a, w, c),
{
    let k = choose|k: nat| #[trigger] g.eps_reach_within(b, c, k);
    if w.len() == 0 {
        lemma_eps_reach_trans(g, a, b, c, k);
    } else {
        let (m, n) = choose|m: usize, n: usize|
            g.reads(a, w.drop_last(), m) && #[trigger] g.sym.contains((m, w.last(), n)) && g.eps_reach(n, b);
        lemma_eps_reach_trans(g, n, b, c, k);
    }
}

/// One epsilon edge is an epsilon path.
pub proof fn lemma_eps_edge_reach(g: GraphView, a: usize, b: usize)
    requires
        g.eps.contains((a, b)),
    ensures
        g.eps_reach(a, b),
{
    lemma_eps_reach_refl(g, a);
    lemma_eps_reach_extend(g, a, a, b);
}

/// One symbol edge is a path reading that symbol.
pub proof fn lemma_reads_sym_edge(g: GraphView, a: usize, w: Seq<char>, m: usize, c: char, b: usize)
    requires
        g.reads(a, w, m),
        g.sym.contains((m, c, b)),
    ensures
        g.reads(a, w.push(c), b),
{
    lemma_eps_reach_refl(g, b);
    let w2 = w.push(c);
    assert(w2.drop_last() =~= w);
    assert(w2.last() == c);
    assert(g.reads(a, w2.drop_last(), m) && g.sym.contains((m, w2.last(), b)) && g.eps_reach(b, b));
}

/// A path followed by a path reads the concatenation of their words.
pub proof fn lemma_reads_concat(g: GraphView, a: usize, u: Seq<char>, m: usize, v: Seq<char>, b: usize)
    requires
        g.reads(a, u, m),
        g.reads(m, v, b),
    ensures
        g.reads(a, u + v, b),
    decreases v.len(),
{
    if v.len() == 0 {
        assert(u + v =~= u);
        lemma_reads_then_eps(g, a, u, m, b);
    } else {
        let (m1, n1) = choose|m1: usize, n1: usize|
            g.reads(m, v.drop_last(), m1) && #[trigger] g.sym.contains((m1, v.last(), n1)) && g.eps_reach(n1, b);
        lemma_reads_concat(g, a, u, m, v.drop_last(), m1);
        assert((u + v).drop_last() =~= u + v.drop_last());
        assert((u + v).last() == v.last());
    }
}

/// Paths of a subgraph are paths of the graph.
pub proof fn lemma_reads_mono(h: GraphView, g: GraphView, a: usize, w: Seq<char>, b: usize)
    requires
        h.sym.subset_of(g.sym),
        h.eps.subset_of(g.eps),
        h.reads(a, w, b),
    ensures
        g.reads(a, w, b),
    decreases w.len(),
{
    assert forall|x: usize, y: usize, k: nat| #[trigger] h.eps_reach_within(x, y, k) implies g.eps_reach(x, y) by {
        lemma_eps_mono(h, g, x, y, k);
    }
    if w.len() == 0 {
        let k = choose|k: nat| #[trigger] h.eps_reach_within(a, b, k);
    } else {
        let (m, n) = choose|m: usize, n: usize|
            h.reads(a, w.drop_last(), m) && #[trigger] h.sym.contains((m, w.last(), n)) && h.eps_reach(n, b);
        lemma_reads_mono(h, g, a, w.drop_last(), m);
        let k = choose|k: nat| #[trigger] h.eps_reach_within(n, b, k);
        assert(g.sym.contains((m, w.last(), n)));
    }
}

proof fn lemma_eps_mono(h: GraphView, g: GraphView, a: usize, b: usize, k: nat)
    requires
        h.eps.subset_of(g.eps),
        h.eps_reach_within(a, b, k),
    ensures
        g.eps_reach(a, b),
    decreases k,
{
    if k == 0 {
        lemma_eps_reach_refl(g, a);
    } else if h.eps_reach_within(a, b, (k - 1) as nat) {
        lemma_eps_mono(h, g, a, b, (k - 1) as nat);
    } else {
        let m = choose|m: usize| h.eps_reach_within(a, m, (k - 1) as nat) && #[trigger] h.eps.contains((m, b));
        lemma_eps_mono(h, g, a, m, (k - 1) as nat);
        lemma_eps_reach_extend(g, a, m, b);
    }
}

proof fn lemma_eps_forward(g: GraphView, inv: spec_fn(Seq<char>, usize) -> bool, u: Seq<char>, a: usize, b: usize, k: nat)
    requires
        inv(u, a),
        forall|u2: Seq<char>, x: usize, y: usize|
            #![trigger inv(u2, x), g.eps.contains((x, y))]
            inv(u2, x) && g.eps.contains((x, y)) ==> inv(u2, y),
        g.eps_reach_within(a, b, k),
    ensures
        inv(u, b),
    decreases k,
{
    if k > 0 {
        if g.eps_reach_within(a, b, (k - 1) as nat) {
            lemma_eps_forward(g, inv, u, a, b, (k - 1) as nat);
        } else {
            let m = choose|m: usize| g.eps_reach_within(a, m, (k - 1) as nat) && #[trigger] g.eps.contains((m, b));
            lemma_eps_forward(g, inv, u, a, m, (k - 1) as nat);
        }
    }
}

/// A property of (word read so far, state reached) that holds at the start
/// and that every edge preserves holds at the end of every path.
pub proof fn lemma_reads_forward(g: GraphView, x0: usize, inv: spec_fn(Seq<char>, usize) -> bool, w: Seq<char>, b: usize)
    requires
        inv(Seq::empty(), x0),
        forall|u2: Seq<char>, x: usize, y: usize|
            #![trigger inv(u2, x), g.eps.contains((x, y))]
            inv(u2, x) && g.eps.contains((x, y)) ==> inv(u2, y),
        forall|u2: Seq<char>, x: usize, c: char, y: usize|
            #![trigger inv(u2, x), g.sym.contains((x, c, y))]
            inv(u2, x) && g.sym.contains((x, c, y)) ==> inv(u2.push(c), y),
        g.reads(x0, w, b),
    ensures
        inv(w, b),
    decreases w.len(),
{
    if w.len() == 0 {
        let k = choose|k: nat| #[trigger] g.eps_reach_within(x0, b, k);
        assert(w =~= Seq::<char>::empty());
        lemma_eps_forward(g, inv, w, x0, b, k);
    } else {
        let (m, n) = choose|m: usize, n: usize|
            g.reads(x0, w.drop_last(), m) && #[trigger] g.sym.contains((m, w.last(), n)) && g.eps_reach(n, b);
        lemma_reads_forward(g, x0, inv, w.drop_last(), m);
        assert(w.drop_last().push(w.last()) =~= w);
        assert(inv(w, n));
        let k = choose|k: nat| #[trigger] g.eps_reach_within(n, b, k);
        lemma_eps_forward(g, inv, w, n, b, k);
    }
}

/// A set that holds `a` and is closed under epsilon edges holds all that `a` reaches.
pub proof fn lemma_closed_set_contains_reach(g: GraphView, s: Set<usize>, a: usize, b: usize, k: nat)
    requires
        s.contains(a),
        forall|x: usize, y: usize| s.contains(x) && #[trigger] g.eps.contains((x, y)) ==> s.contains(y),
        g.eps_reach_within(a, b, k),
    ensures
        s.contains(b),
    decreases k,
{
    if k > 0 {
        if g.eps_reach_within(a, b, (k - 1) as nat) {
            lemma_closed_set_contains_reach(g, s, a, b, (k - 1) as nat);
        } else {
            let m = choose|m: usize| g.eps_reach_within(a, m, (k - 1) as nat) && #[trigger] g.eps.contains((m, b));
            lemma_closed_set_contains_reach(g, s, a, m, (k - 1) as nat);
        }
    }
}

/// Without epsilon edges a state reaches only itself.
pub proof fn lemma_no_eps_reach_only_self(g: GraphView, a: usize, b: usize, k: nat)
    requires
        g.eps == Set::<(usize, usize)>::empty(),
        g.eps_reach_within(a, b, k),
    ensures
        a == b,
    decreases k,
{
    if k > 0 {
        if g.eps_reach_within(a, b, (k - 1) as nat) {
            lemma_no_eps_reach_only_self(g, a, b, (k - 1) as nat);
        } else {
            let m = choose|m: usize| g.eps_reach_within(a, m, (k - 1) as nat) && #[trigger] g.eps.contains((m, b));
        }
    }
}

/// In a well-formed graph, what a valid state reaches is valid.
pub proof fn lemma_reach_valid(g: GraphView, a: usize, b: usize, k: nat)
    requires
        g.wf(),
        a < g.n,
        g.eps_reach_within(a, b, k),
    ensures
        b < g.n,
    decreases k,
{
    if k > 0 {
        if g.eps_reach_within(a, b, (k - 1) as nat) {
            lemma_reach_valid(g, a, b, (k - 1) as nat);
        } else {
            let m = choose|m: usize| g.eps_reach_within(a, m, (k - 1) as nat) && #[trigger] g.eps.contains((m, b));
        }
    }
}

/// In a well-formed graph, the epsilon-closure of a valid state holds valid states only.
pub proof fn lemma_closure_valid(g: GraphView, a: usize)
    requires
        g.wf(),
        a < g.n,
    ensures
        g.all_valid(g.eps_closure(a)),
{
    assert forall|t: usize| #[trigger] g.eps_closure(a).contains(t) implies t < g.n by {
        let k = choose|k: nat| #[trigger] g.eps_reach_within(a, t, k);
        lemma_reach_valid(g, a, t, k);
    }
}

/// In a well-formed graph, the states that one step reaches from a valid state are valid.
pub proof fn lemma_step_valid(g: GraphView, a: usize, c: char)
    requires
        g.wf(),
        a < g.n,
    ensures
        g.all_valid(g.step(a, c)),
{
    assert forall|t: usize| #[trigger] g.step(a, c).contains(t) implies t < g.n by {
        let m = choose|m: usize| #[trigger] g.after_symbol(a, c).contains(m) && g.eps_reach(m, t);
        let s = choose|s: usize| g.eps_reach(a, s) && #[trigger] g.sym.contains((s, c, m));
        let k = choose|k: nat| #[trigger] g.eps_reach_within(m, t, k);
        lemma_reach_valid(g, m, t, k);
    }
}

pub open spec fn ids_below(n: nat) -> Set<usize> {
    Set::new(|x: usize| (x as nat) < n)
}

proof fn lemma_ids_below_len(n: nat)
    requires
        n <= usize::MAX + 1,
    ensures
        ids_below(n).finite(),
        ids_below(n).len() == n,
    decreases n,
{
    if n == 0 {
        assert(ids_below(0) =~= Set::empty());
    } else {
        lemma_ids_below_len((n - 1) as nat);
        assert(ids_below((n - 1) as nat).insert((n - 1) as usize) =~= ids_below(n));
    }
}

/// A duplicate-free sequence of ids below `n` has at most `n` elements.
pub proof fn lemma_distinct_ids_bounded(s: Seq<usize>, n: nat)
    requires
        n <= usize::MAX + 1,
        s.no_duplicates(),
        forall|i: int| 0 <= i < s.len() ==> (#[trigger] s[i] as nat) < n,
    ensures
        s.len() <= n,
{
    s.unique_seq_to_set();
    lemma_ids_below_len(n);
    assert(s.to_set().subset_of(ids_below(n)));
    vstd::set_lib::lemma_len_subset(s.to_set(), ids_below(n));
}

/// Epsilon cycles cannot make a closure blow up: in a well-formed graph the
/// epsilon-closure of a state is a finite set of valid states, no larger than
/// the graph, whatever cycles the epsilon edges form.
pub proof fn lemma_closure_finite(g: GraphView, a: usize)
    requires
        g.wf(),
        a < g.n,
        g.n <= usize::MAX,
    ensures
        g.eps_closure(a).finite(),
        g.all_valid(g.eps_closure(a)),
        g.eps_closure(a).len() <= g.n,
        g.eps_closure(a).contains(a),
{
    lemma_closure_valid(g, a);
    lemma_ids_below_len(g.n);
    assert(g.eps_closure(a).subset_of(ids_below(g.n)));
    vstd::set_lib::lemma_len_subset(g.eps_closure(a), ids_below(g.n));
    lemma_eps_reach_refl(g, a);
}

/// Whether `x` occurs in `v`.
pub(crate) fn contains_id(v: &Vec<usize>, x: usize) -> (r: bool)
    ensures
        r == v@.contains(x),
{
    let mut i: usize = 0;
    while i < v.len()
        invariant
            i <= v.len(),
            forall|j: int| 0 <= j < i ==> v@[j] != x,
        decreases v.len() - i,
    {
        if v[i] == x {
            assert(v@[i as int] == x);
            return true;
        }
        i += 1;
    }
    false
}

/// Adds to `acc` each element of `items` that it does not hold yet.
pub(crate) fn union_into(acc: &mut Vec<usize>, items: &Vec<usize>)
    requires
        old(acc)@.no_duplicates(),
    ensures
        final(acc)@.no_duplicates(),
        final(acc)@.to_set() == old(acc)@.to_set().union(items@.to_set()),
{
    let mut i: usize = 0;
    while i < items.len()
        invariant
            i <= items.len(),
            acc@.no_duplicates(),
            acc@.to_set() == old(acc)@.to_set().union(items@.subrange(0, i as int).to_set()),
        decreases items.len() - i,
    {
        let x = items[i];
        let ghost before = acc@;
        if !contains_id(acc, x) {
            acc.push(x);
            assert(acc@.to_set() =~= before.to_set().insert(x)) by {
                assert(forall|j: int| 0 <= j < before.len() ==> acc@[j] == before[j]);
                assert(acc@[before.len() as int] == x);
            }
        }
        assert(items@.subrange(0, i + 1) =~= items@.subrange(0, i as int).push(x));
        assert(items@.subrange(0, i + 1).to_set() =~= items@.subrange(0, i as int).to_set().insert(x)) by {
            assert(items@.subrange(0, i + 1)[i as int] == x);
        }
        assert(acc@.to_set() =~= old(acc)@.to_set().union(items@.subrange(0, i + 1).to_set()));
        i += 1;
    }
    assert(items@.subrange(0, items.len() as int) =~= items@);
}

struct State {
    transitions: Vec<(char, usize)>,
    eps_transitions: Vec<usize>,
}

impl State {
    fn new() -> (r: State)
        ensures
            r.transitions@.len() == 0,
            r.eps_transitions@.len() == 0,
    {
        State { transitions: Vec::new(), eps_transitions: Vec::new() }
    }

    fn add_transition(&mut self, to: usize, v: char)
        ensures
            forall|x: (char, usize)| #[trigger]
                final(self).transitions@.contains(x) <==> old(self).transitions@.contains(x) || x == (v, to),
            final(self).eps_transitions == old(self).eps_transitions,
    {
        let ghost o = self.transitions@;
        self.transitions.push((v, to));
        assert forall|x: (char, usize)| #[trigger]
            self.transitions@.contains(x) <==> o.contains(x) || x == (v, to) by {
            if o.contains(x) {
                let j = choose|j: int| 0 <= j < o.len() && o[j] == x;
                assert(self.transitions@[j] == x);
            }
            if x == (v, to) {
                assert(self.transitions@[o.len() as int] == x);
            }
            if self.transitions@.contains(x) && x != (v, to) {
                let j = choose|j: int| 0 <= j < self.transitions@.len() && self.transitions@[j] == x;
                assert(o[j] == x);
            }
        }
    }

    fn add_eps_transition(&mut self, to: usize)
        ensures
            forall|x: usize| #[trigger]
                final(self).eps_transitions@.contains(x) <==> old(self).eps_transitions@.contains(x) || x == to,
            final(self).transitions == old(self).transitions,
    {
        let ghost o = self.eps_transitions@;
        self.eps_transitions.push(to);
        assert forall|x: usize| #[trigger]
            self.eps_transitions@.contains(x) <==> o.contains(x) || x == to by {
            if o.contains(x) {
                let j = choose|j: int| 0 <= j < o.len() && o[j] == x;
                assert(self.eps_transitions@[j] == x);
            }
            if x == to {
                assert(self.eps_transitions@[o.len() as int] == x);
            }
            if self.eps_transitions@.contains(x) && x != to {
                let j = choose|j: int| 0 <= j < self.eps_transitions@.len() && self.eps_transitions@[j] == x;
                assert(o[j] == x);
            }
        }
    }
}

/// A growable graph of states, each referenced by its index.
pub struct StateMachine {
    states: Vec<State>,
}

impl View for StateMachine {
    type V = GraphView;

    closed spec fn view(&self) -> GraphView {
        GraphView {
            n: self.states@.len(),
            sym: Set::new(
                |e: (usize, char, usize)|
                    (e.0 as int) < self.states@.len() && self.states@[e.0 as int].transitions@.contains(
                        (e.1, e.2),
                    ),
            ),
            eps: Set::new(
                |e: (usize, usize)|
                    (e.0 as int) < self.states@.len() && self.states@[e.0 as int].eps_transitions@.contains(e.1),
            ),
        }
    }
}

impl StateMachine {
    pub fn new() -> (r: StateMachine)
        ensures
            r@.n == 0,
            r@.sym == Set::<(usize, char, usize)>::empty(),
            r@.eps == Set::<(usize, usize)>::empty(),
            r@.wf(),
    {
        let r = StateMachine { states: Vec::new() };
        assert(r@.sym =~= Set::empty());
        assert(r@.eps =~= Set::empty());
        r
    }

    /// Appends a state without edges and returns its id.
    pub fn add_state(&mut self) -> (id: usize)
        requires
            old(self)@.n < usize::MAX,
        ensures
            id == old(self)@.n,
            final(self)@ == old(self)@.with_states(1),
    {
        let ghost o = self@;
        self.states.push(State::new());
        assert(self@.sym =~= o.sym) by {
            assert(forall|j: int| 0 <= j < o.n ==> self.states@[j] == old(self).states@[j]);
        }
        assert(self@.eps =~= o.eps) by {
            assert(forall|j: int| 0 <= j < o.n ==> self.states@[j] == old(self).states@[j]);
        }
        self.nb_state() - 1
    }

    /// Appends `n` states without edges; returns their ids, contiguous and increasing.
    pub fn add_n_state(&mut self, n: usize) -> (ids: Vec<usize>)
        requires
            old(self)@.n + n <= usize::MAX,
        ensures
            final(self)@ == old(self)@.with_states(n as nat),
            ids@.len() == n,
            forall|i: int| 0 <= i < n ==> ids@[i] == old(self)@.n + i,
    {
        let mut added: Vec<usize> = Vec::new();
        let mut i: usize = 0;
        while i < n
            invariant
                i <= n,
                old(self)@.n + n <= usize::MAX,
                self@ == old(self)@.with_states(i as nat),
                added@.len() == i,
                forall|j: int| 0 <= j < i ==> added@[j] == old(self)@.n + j,
            decreases n - i,
        {
            let id = self.add_state();
            added.push(id);
            i += 1;
        }
        added
    }

    pub fn nb_state(&self) -> (r: usize)
        ensures
            r == self@.n,
    {
        self.states.len()
    }

    pub fn is_valid_state_id(&self, state_id: usize) -> (r: bool)
        ensures
            r == (state_id < self@.n),
    {
        state_id < self.nb_state()
    }

    /// Adds an edge labelled `v`; fails, changing nothing, on the first id
    /// of `from`, `to` that names no state.
    pub fn add_transition(&mut self, from: usize, to: usize, v: char) -> (r: Result<(), StateMachineError>)
        ensures
            from >= old(self)@.n ==> r == Err::<(), _>(StateMachineError::InvalidStateId(from)),
            from < old(self)@.n && to >= old(self)@.n ==> r == Err::<(), _>(
                StateMachineError::InvalidStateId(to),
            ),
            r is Ok <==> from < old(self)@.n && to < old(self)@.n,
            r is Ok ==> final(self)@ == old(self)@.with_sym(from, to, v),
            r is Err ==> final(self)@ == old(self)@,
    {
        if !self.is_valid_state_id(from) {
            Err(StateMachineError::InvalidStateId(from))
        } else if !self.is_valid_state_id(to) {
            Err(StateMachineError::InvalidStateId(to))
        } else {
            let ghost o = self@;
            let mut s = State { transitions: Vec::new(), eps_transitions: Vec::new() };
            std::mem::swap(&mut s, &mut self.states[from]);
            s.add_transition(to, v);
            self.states.set(from, s);
            assert forall|e: (usize, char, usize)| #[trigger]
                self@.sym.contains(e) == o.sym.insert((from, v, to)).contains(e) by {
                if e.0 == from {
                    assert(self.states@[from as int].transitions@.contains((e.1, e.2)) <==> old(
                        self,
                    ).states@[from as int].transitions@.contains((e.1, e.2)) || (e.1, e.2) == (v, to));
                }
            }
            assert(self@.sym =~= o.sym.insert((from, v, to)));
            assert forall|e: (usize, usize)| #[trigger] self@.eps.contains(e) == o.eps.contains(e) by {}
            assert(self@.eps =~= o.eps);
            Ok(())
        }
    }

    /// Adds an epsilon edge; fails, changing nothing, on the first id of
    /// `from`, `to` that names no state.
    pub fn add_eps_transition(&mut self, from: usize, to: usize) -> (r: Result<(), StateMachineError>)
        ensures
            from >= old(self)@.n ==> r == Err::<(), _>(StateMachineError::InvalidStateId(from)),
            from < old(self)@.n && to >= old(self)@.n ==> r == Err::<(), _>(
                StateMachineError::InvalidStateId(to),
            ),
            r is Ok <==> from < old(self)@.n && to < old(self)@.n,
            r is Ok ==> final(self)@ == old(self)@.with_eps(from, to),
            r is Err ==> final(self)@ == old(self)@,
    {
        if !self.is_valid_state_id(from) {
            Err(StateMachineError::InvalidStateId(from))
        } else if !self.is_valid_state_id(to) {
            Err(StateMachineError::InvalidStateId(to))
        } else {
            let ghost o = self@;
            let mut s = State { transitions: Vec::new(), eps_transitions: Vec::new() };
            std::mem::swap(&mut s, &mut self.states[from]);
            s.add_eps_transition(to);
            self.states.set(from, s);
            assert forall|e: (usize, char, usize)| #[trigger] self@.sym.contains(e) == o.sym.contains(e) by {}
            assert(self@.sym =~= o.sym);
            assert forall|e: (usize, usize)| #[trigger]
                self@.eps.contains(e) == o.eps.insert((from, to)).contains(e) by {
                if e.0 == from {
                    assert(self.states@[from as int].eps_transitions@.contains(e.1) <==> old(
                        self,
                    ).states@[from as int].eps_transitions@.contains(e.1) || e.1 == to);
                }
            }
            assert(self@.eps =~= o.eps.insert((from, to)));
            Ok(())
        }
    }

    /// Epsilon-closure of `from`: every state reached by zero or more epsilon
    /// edges, each listed once. Each state is expanded once, so cycles end.
    pub fn apply_eps_transition(&self, from: usize) -> (r: Vec<usize>)
        requires
            self@.wf(),
            from < self@.n,
        ensures
            r@.no_duplicates(),
            r@.to_set() == self@.eps_closure(from),
    {
        let ghost g = self@;
        let nb = self.nb_state();
        let mut reach: Vec<usize> = Vec::new();
        reach.push(from);
        proof {
            lemma_eps_reach_refl(g, from);
        }
        let mut i: usize = 0;
        while i < reach.len()
            invariant
                g == self@,
                g.wf(),
                g.n == nb,
                from < g.n,
                i <= reach@.len() <= g.n,
                reach@.len() >= 1,
                reach@[0] == from,
                reach@.no_duplicates(),
                forall|j: int| 0 <= j < reach@.len() ==> (#[trigger] reach@[j]) < g.n && g.eps_reach(from, reach@[j]),
                forall|j: int, y: usize|
                    0 <= j < i && #[trigger] g.eps.contains((reach@[j], y)) ==> reach@.contains(y),
            decreases g.n - i,
        {
            let x = reach[i];
            let succ = &self.states[x].eps_transitions;
            let ghost before = reach@;
            let mut k: usize = 0;
            while k < succ.len()
                invariant
                    g == self@,
                    g.wf(),
                    g.n == nb,
                    from < g.n,
                    x < g.n,
                    g.eps_reach(from, x),
                    succ@ == self.states@[x as int].eps_transitions@,
                    i < reach@.len() <= g.n,
                    reach@.len() >= before.len(),
                    forall|j: int| 0 <= j < before.len() ==> reach@[j] == before[j],
                    reach@.no_duplicates(),
                    forall|j: int| 0 <= j < reach@.len() ==> (#[trigger] reach@[j]) < g.n && g.eps_reach(from, reach@[j]),
                    forall|j: int| 0 <= j < k ==> reach@.contains(#[trigger] succ@[j]),
                decreases succ.len() - k,
            {
                let y = succ[k];
                assert(g.eps.contains((x, y)));
                let ghost prev = reach@;
                if !contains_id(&reach, y) {
                    reach.push(y);
                    proof {
                        lemma_eps_reach_extend(g, from, x, y);
                        lemma_distinct_ids_bounded(reach@, g.n);
                        assert forall|j: int| 0 <= j < k implies reach@.contains(#[trigger] succ@[j]) by {
                            let jj = choose|jj: int| 0 <= jj < prev.len() && prev[jj] == succ@[j];
                            assert(reach@[jj] == succ@[j]);
                        }
                    }
                }
                assert(reach@.contains(succ@[k as int])) by {
                    if prev.contains(y) {
                        let jj = choose|jj: int| 0 <= jj < prev.len() && prev[jj] == y;
                        assert(reach@[jj] == y);
                    } else {
                        assert(reach@[prev.len() as int] == y);
                    }
                }
                k += 1;
            }
            proof {
                assert forall|j: int, y: usize|
                    0 <= j < i + 1 && #[trigger] g.eps.contains((reach@[j], y)) implies reach@.contains(y) by {
                    if j < i {
                        assert(before[j] == reach@[j]);
                        assert(before.contains(y));
                        let jj = choose|jj: int| 0 <= jj < before.len() && before[jj] == y;
                        assert(reach@[jj] == y);
                    } else {
                        assert(succ@.contains(y));
                        let jj = choose|jj: int| 0 <= jj < succ@.len() && succ@[jj] == y;
                    }
                }
            }
            i += 1;
        }
        proof {
            let rs = reach@.to_set();
            assert forall|x: usize, y: usize| rs.contains(x) && #[trigger] g.eps.contains((x, y)) implies rs.contains(y) by {
                let j = choose|j: int| 0 <= j < reach@.len() && reach@[j] == x;
            }
            assert(rs.contains(from)) by {
                assert(reach@[0] == from);
            }
            assert forall|b: usize| #[trigger] rs.contains(b) == g.eps_closure(from).contains(b) by {
                if g.eps_reach(from, b) {
                    let k = choose|k: nat| #[trigger] g.eps_reach_within(from, b, k);
                    lemma_closed_set_contains_reach(g, rs, from, b, k);
                }
                if rs.contains(b) {
                    let j = choose|j: int| 0 <= j < reach@.len() && reach@[j] == b;
                }
            }
            assert(rs =~= g.eps_closure(from));
        }
        reach
    }

    /// Targets of the `v` edges that leave `st`, each listed once.
    fn symbol_successors(&self, st: usize, v: char) -> (r: Vec<usize>)
        requires
            st < self@.n,
        ensures
            r@.no_duplicates(),
            r@.to_set() == Set::new(|m: usize| self@.sym.contains((st, v, m))),
    {
        let trans = &self.states[st].transitions;
        let mut found: Vec<usize> = Vec::new();
        let mut k: usize = 0;
        while k < trans.len()
            invariant
                st < self@.n,
                trans@ == self.states@[st as int].transitions@,
                k <= trans@.len(),
                found@.no_duplicates(),
                found@.to_set() == Set::new(|m: usize| trans@.subrange(0, k as int).contains((v, m))),
            decreases trans.len() - k,
        {
            let (c, t) = trans[k];
            let ghost prev = found@.to_set();
            if c == v {
                let single = vec![t];
                union_into(&mut found, &single);
                assert(single@.to_set() =~= set![t]) by {
                    assert(single@[0] == t);
                }
            }
            assert(trans@.subrange(0, k + 1) =~= trans@.subrange(0, k as int).push((c, t)));
            assert forall|m: usize| #[trigger] found@.to_set().contains(m) == trans@.subrange(
                0,
                k + 1,
            ).contains((v, m)) by {
                let sub = trans@.subrange(0, k as int);
                let sub1 = trans@.subrange(0, k + 1);
                if sub.contains((v, m)) {
                    let j = choose|j: int| 0 <= j < sub.len() && sub[j] == (v, m);
                    assert(sub1[j] == (v, m));
                }
                if sub1.contains((v, m)) && !sub.contains((v, m)) {
                    let j = choose|j: int| 0 <= j < sub1.len() && sub1[j] == (v, m);
                    if j < k {
                        assert(sub[j] == (v, m));
                    }
                }
                if c == v && m == t {
                    assert(sub1[k as int] == (v, m));
                }
            }
            assert(found@.to_set() =~= Set::new(|m: usize| trans@.subrange(0, k + 1).contains((v, m))));
            k += 1;
        }
        assert(trans@.subrange(0, trans@.len() as int) =~= trans@);
        assert(found@.to_set() =~= Set::new(|m: usize| self@.sym.contains((st, v, m))));
        found
    }

    /// All states reached from `from` by consuming `v` once, with epsilon
    /// edges followed before and after; each state listed once.
    pub fn apply_transition(&self, from: usize, v: &char) -> (r: Vec<usize>)
        requires
            self@.wf(),
            from < self@.n,
        ensures
            r@.no_duplicates(),
            r@.to_set() == self@.step(from, *v),
    {
        let ghost g = self@;
        let c = *v;
        let start = self.apply_eps_transition(from);
        proof {
            lemma_closure_valid(g, from);
        }
        let mut after: Vec<usize> = Vec::new();
        let mut i: usize = 0;
        while i < start.len()
            invariant
                g == self@,
                g.wf(),
                from < g.n,
                start@.to_set() == g.eps_closure(from),
                g.all_valid(g.eps_closure(from)),
                i <= start@.len(),
                after@.no_duplicates(),
                after@.to_set() == Set::new(
                    |m: usize| exists|j: int| 0 <= j < i && #[trigger] g.sym.contains((start@[j], c, m)),
                ),
            decreases start.len() - i,
        {
            assert(start@.to_set().contains(start@[i as int]));
            let succ = self.symbol_successors(start[i], c);
            let ghost prev = after@.to_set();
            union_into(&mut after, &succ);
            assert(after@.to_set() =~= Set::new(
                |m: usize| exists|j: int| 0 <= j < i + 1 && #[trigger] g.sym.contains((start@[j], c, m)),
            )) by {
                assert forall|m: usize|
                    (exists|j: int| 0 <= j < i + 1 && #[trigger] g.sym.contains((start@[j], c, m)))
                        implies #[trigger] after@.to_set().contains(m) by {
                    let j = choose|j: int| 0 <= j < i + 1 && #[trigger] g.sym.contains((start@[j], c, m));
                    if j == i {
                        assert(succ@.to_set().contains(m));
                    } else {
                        assert(prev.contains(m));
                    }
                }
                assert forall|m: usize| #[trigger] after@.to_set().contains(m)
                    implies (exists|j: int| 0 <= j < i + 1 && #[trigger] g.sym.contains((start@[j], c, m))) by {
                    if !prev.contains(m) {
                        assert(succ@.to_set().contains(m));
                        assert(g.sym.contains((start@[i as int], c, m)));
                    }
                }
            }
            i += 1;
        }
        assert(after@.to_set() =~= g.after_symbol(from, c)) by {
            assert forall|m: usize| #[trigger] after@.to_set().contains(m) == g.after_symbol(from, c).contains(m) by {
                if after@.to_set().contains(m) {
                    let j = choose|j: int| 0 <= j < start@.len() && #[trigger] g.sym.contains((start@[j], c, m));
                    assert(start@.to_set().contains(start@[j]));
                }
                if g.after_symbol(from, c).contains(m) {
                    let s = choose|s: usize| g.eps_reach(from, s) && #[trigger] g.sym.contains((s, c, m));
                    assert(start@.to_set().contains(s));
                    let j = choose|j: int| 0 <= j < start@.len() && start@[j] == s;
                    assert(g.sym.contains((start@[j], c, m)));
                }
            }
        }
        let mut result: Vec<usize> = Vec::new();
        let mut i: usize = 0;
        while i < after.len()
            invariant
                g == self@,
                g.wf(),
                after@.to_set() == g.after_symbol(from, c),
                i <= after@.len(),
                result@.no_duplicates(),
                result@.to_set() == Set::new(
                    |t: usize| exists|j: int| 0 <= j < i && #[trigger] g.eps_reach(after@[j], t),
                ),
            decreases after.len() - i,
        {
            assert(after@.to_set().contains(after@[i as int]));
            let m = after[i];
            assert(m < g.n) by {
                let s = choose|s: usize| g.eps_reach(from, s) && #[trigger] g.sym.contains((s, c, m));
            }
            let cl = self.apply_eps_transition(m);
            let ghost prev = result@.to_set();
            union_into(&mut result, &cl);
            assert(result@.to_set() =~= Set::new(
                |t: usize| exists|j: int| 0 <= j < i + 1 && #[trigger] g.eps_reach(after@[j], t),
            )) by {
                assert forall|t: usize|
                    (exists|j: int| 0 <= j < i + 1 && #[trigger] g.eps_reach(after@[j], t))
                        implies #[trigger] result@.to_set().contains(t) by {
                    let j = choose|j: int| 0 <= j < i + 1 && #[trigger] g.eps_reach(after@[j], t);
                    if j == i {
                        assert(cl@.to_set().contains(t));
                    } else {
                        assert(prev.contains(t));
                    }
                }
                assert forall|t: usize| #[trigger] result@.to_set().contains(t)
                    implies (exists|j: int| 0 <= j < i + 1 && #[trigger] g.eps_reach(after@[j], t)) by {
                    if !prev.contains(t) {
                        assert(cl@.to_set().contains(t));
                        assert(g.eps_reach(after@[i as int], t));
                    }
                }
            }
            i += 1;
        }
        assert(result@.to_set() =~= g.step(from, c)) by {
            assert forall|t: usize| #[trigger] result@.to_set().contains(t) == g.step(from, c).contains(t) by {
                if result@.to_set().contains(t) {
                    let j = choose|j: int| 0 <= j < after@.len() && #[trigger] g.eps_reach(after@[j], t);
                    assert(after@.to_set().contains(after@[j]));
                }
                if g.step(from, c).contains(t) {
                    let m = choose|m: usize| #[trigger] g.after_symbol(from, c).contains(m) && g.eps_reach(m, t);
                    assert(after@.to_set().contains(m));
                    let j = choose|j: int| 0 <= j < after@.len() && after@[j] == m;
                    assert(g.eps_reach(after@[j], t));
                }
            }
        }
        result
    }
}

} // verus!
