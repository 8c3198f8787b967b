//! Compiles a pattern into an automaton once, then answers membership queries.
pub mod automaton;
pub mod regex_parsing;

use self::automaton::{lemma_accepts_iff_path, Automaton, AutomatonView};
use self::automaton::state_machine::{
    lemma_eps_edge_reach, lemma_eps_reach_extend, lemma_eps_reach_refl, lemma_no_eps_reach_only_self, lemma_reads_concat,
    lemma_reads_forward, lemma_reads_mono, lemma_reads_sym_edge, lemma_reads_then_eps, GraphView,
};
use self::regex_parsing::{derives, is_literal, is_pattern_of, lemma_phrase_start, parse_regex, Regex};
use vstd::prelude::*;

verus! {

/// Why a pattern could not be compiled.
#[derive(Debug, Clone, Copy, PartialEq, Eq, Structural)]
pub enum VregexError {
    /// Construction referred to a state that does not exist.
    InternalFailure,
    /// The pattern does not follow the grammar.
    ParsingError,
}

/// Number of states that the construction allocates for `r`.
pub open spec fn states_needed(r: Regex) -> nat
    decreases r,
{
    match r {
        Regex::Literal(_) => 2,
        Regex::Concat(l, rr) => states_needed(*l) + states_needed(*rr),
        Regex::Plus(l, rr) => states_needed(*l) + states_needed(*rr) + 1,
        Regex::Star(i) => states_needed(*i) + 2,
    }
}

/// A pattern of `n` characters needs at most `2 * n` states.
pub proof fn lemma_states_needed_bound(s: Seq<char>, t: Regex, level: nat)
    requires
        derives(s, t, level),
    ensures
        states_needed(t) <= 2 * s.len(),
    decreases s.len(), level,
{
    if level == 0 {
        if s.len() >= 2 && s[0] == '(' && s.last() == ')' && derives(s.subrange(1, s.len() - 1), t, 3) {
            lemma_states_needed_bound(s.subrange(1, s.len() - 1), t, 3);
        }
    } else if level == 1 {
        if derives(s, t, 0) {
            lemma_states_needed_bound(s, t, 0);
        } else {
            lemma_states_needed_bound(s.drop_last(), *t->Star_0, 1);
        }
    } else if level == 2 {
        if derives(s, t, 1) {
            lemma_states_needed_bound(s, t, 1);
        } else {
            let k = choose|k: int| 0 < k < s.len() && derives(#[trigger] s.subrange(0, k), *t->Concat_0, 2) && derives(
                s.subrange(k, s.len() as int),
                *t->Concat_1,
                1,
            );
            lemma_states_needed_bound(s.subrange(0, k), *t->Concat_0, 2);
            lemma_states_needed_bound(s.subrange(k, s.len() as int), *t->Concat_1, 1);
        }
    } else {
        if derives(s, t, 2) {
            lemma_states_needed_bound(s, t, 2);
        } else {
            let k = choose|k: int| 0 < k < s.len() - 1 && s[k] == '+' && derives(#[trigger] s.subrange(0, k), *t->Plus_0, 3)
                && derives(s.subrange(k + 1, s.len() as int), *t->Plus_1, 2);
            lemma_states_needed_bound(s.subrange(0, k), *t->Plus_0, 3);
            lemma_states_needed_bound(s.subrange(k + 1, s.len() as int), *t->Plus_1, 2);
        }
    }
}

/// All pairs from `a` to `b`.
pub open spec fn pairs(a: Set<usize>, b: Set<usize>) -> Set<(usize, usize)> {
    Set::new(|e: (usize, usize)| a.contains(e.0) && b.contains(e.1))
}

/// `s` is non-empty and only holds states in `[lo, hi)`.
pub open spec fn fresh_frontier(s: Set<usize>, lo: nat, hi: nat) -> bool {
    &&& exists|x: usize| #[trigger] s.contains(x)
    &&& forall|x: usize| #[trigger] s.contains(x) ==> lo <= x < hi
}

/// `g` extends `o`: no state or edge of `o` is lost, and every new edge
/// joins two new states, so no new edge leads back to an old state.
pub open spec fn extends(g: GraphView, o: GraphView) -> bool {
    &&& o.n <= g.n
    &&& o.sym.subset_of(g.sym)
    &&& o.eps.subset_of(g.eps)
    &&& forall|e: (usize, char, usize)| #[trigger] g.sym.contains(e) && !o.sym.contains(e) ==> e.0 >= o.n && e.2 >= o.n
    &&& forall|e: (usize, usize)| #[trigger] g.eps.contains(e) && !o.eps.contains(e) ==> e.0 >= o.n && e.1 >= o.n
}

/// The language of a tree: `+` is alternation, `*` is zero or more repetitions.
pub open spec fn matches(r: Regex, w: Seq<char>) -> bool
    decreases r, w.len(),
{
    match r {
        Regex::Literal(c) => w == seq![c],
        Regex::Concat(l, rr) => exists|i: int|
            0 <= i <= w.len() && matches(*l, #[trigger] w.subrange(0, i)) && matches(*rr, w.subrange(i, w.len() as int)),
        Regex::Plus(l, rr) => matches(*l, w) || matches(*rr, w),
        Regex::Star(i) => w.len() == 0 || exists|k: int|
            0 < k <= w.len() && matches(*i, #[trigger] w.subrange(0, k)) && matches(
                Regex::Star(i),
                w.subrange(k, w.len() as int),
            ),
    }
}

/// Some path from an entry state to an exit state reads `w`.
pub open spec fn recognizes(a: AutomatonView, w: Seq<char>) -> bool {
    exists|x: usize, y: usize| a.entry.contains(x) && a.exit.contains(y) && #[trigger] a.graph.reads(x, w, y)
}

/// The automaton recognizes exactly the language of `r`.
pub open spec fn recognizes_lang(a: AutomatonView, r: Regex) -> bool {
    forall|w: Seq<char>| #![trigger matches(r, w)] #![trigger recognizes(a, w)] matches(r, w) == recognizes(a, w)
}

/// A compiled pattern.
pub struct Vregex {
    pub automaton: Automaton,
    error: Option<VregexError>,
}

impl Vregex {
    pub closed spec fn wf(&self) -> bool {
        self.automaton.wf()
    }

    /// The compiled automaton.
    pub closed spec fn engine(&self) -> AutomatonView {
        self.automaton@
    }

    /// The compile error, if any.
    pub closed spec fn failure(&self) -> Option<VregexError> {
        self.error
    }

    /// Compiles `regex`. A pattern that cannot be compiled gives an engine
    /// whose queries all report the compile error: `ParsingError` exactly
    /// when `regex` does not follow the grammar, `InternalFailure` only for a
    /// pattern too long for the state count to fit in a `usize`.
    pub fn new(regex: &str) -> (r: Self)
        ensures
            r.wf(),
            r.failure() == Some(VregexError::ParsingError) <==> !exists|t: Regex| is_pattern_of(regex@, t),
            r.failure() is None ==> exists|t: Regex|
                is_pattern_of(regex@, t) && forall|w: Seq<char>| #[trigger] r.engine().accepts(w) == matches(t, w),
            r.failure() is None || r.failure() == Some(VregexError::ParsingError) || r.failure() == Some(
                VregexError::InternalFailure,
            ),
            2 * regex@.len() <= usize::MAX && (exists|t: Regex| is_pattern_of(regex@, t)) ==> r.failure() is None,
            regex@.len() == 1 && is_literal(regex@[0]) ==> r.failure() is None && r.engine() == literal_engine(
                regex@[0],
            ),
    {
        let mut out = Vregex { automaton: Automaton::new(), error: None };
        assert(out.automaton@ == AutomatonView {
            graph: GraphView { n: 0, sym: Set::empty(), eps: Set::empty() },
            entry: Set::empty(),
            exit: Set::empty(),
            active: Set::empty(),
        });
        match out.build(regex) {
            Ok(()) => {},
            Err(e) => {
                out.error = Some(e);
            },
        }
        out
    }

    /// Compiles `regex`, failing with the error that `new` would record.
    pub fn compile(regex: &str) -> (r: Result<Self, VregexError>)
        ensures
            r matches Ok(v) ==> v.wf() && v.failure() is None && exists|t: Regex|
                is_pattern_of(regex@, t) && forall|w: Seq<char>| #[trigger] v.engine().accepts(w) == matches(t, w),
            r == Err::<Self, _>(VregexError::ParsingError) <==> !exists|t: Regex| is_pattern_of(regex@, t),
            r is Err ==> r == Err::<Self, _>(VregexError::ParsingError) || r == Err::<Self, _>(
                VregexError::InternalFailure,
            ),
            2 * regex@.len() <= usize::MAX && (exists|t: Regex| is_pattern_of(regex@, t)) ==> r is Ok,
            regex@.len() == 1 && is_literal(regex@[0]) ==> (r matches Ok(v) && v.engine() == literal_engine(
                regex@[0],
            )),
    {
        let v = Vregex::new(regex);
        match v.error {
            Some(e) => Err(e),
            None => Ok(v),
        }
    }

    /// Whether `s` is in the language of the compiled pattern: the entry
    /// frontier is epsilon-closed for the empty string, or fed each symbol of
    /// `s` in order. The compiled automaton is not changed, so queries do not
    /// affect one another.
    pub fn validate(&mut self, s: &str) -> (r: Result<bool, VregexError>)
        requires
            old(self).wf(),
        ensures
            final(self).wf(),
            final(self).engine().same_build(old(self).engine()),
            final(self).failure() == old(self).failure(),
            r == match old(self).failure() {
                Some(e) => Err(e),
                None => Ok(old(self).engine().accepts(s@)),
            },
    {
        if let Some(e) = self.error {
            return Err(e);
        }
        let ghost a = self.automaton@;
        self.automaton.init_for_read();
        let n = s.unicode_len();
        if n == 0 {
            self.automaton.read_empty();
            return Ok(self.automaton.on_exit());
        }
        let mut i: usize = 0;
        while i < n
            invariant
                n == s@.len(),
                i <= n,
                self.wf(),
                self.error is None,
                self.automaton@.same_build(a),
                self.automaton@.active == a.run(a.entry, s@.subrange(0, i as int)),
            decreases n - i,
        {
            let c = s.get_char(i);
            self.automaton.read(&c);
            proof {
                let w = s@.subrange(0, i + 1);
                assert(w.drop_last() =~= s@.subrange(0, i as int));
                assert(w.last() == c);
                assert(a.advance(a.run(a.entry, s@.subrange(0, i as int)), c) == self.automaton@.advance(
                    a.run(a.entry, s@.subrange(0, i as int)),
                    c,
                ));
            }
            i += 1;
        }
        assert(s@.subrange(0, n as int) =~= s@);
        Ok(self.automaton.on_exit())
    }

    fn build(&mut self, s: &str) -> (r: Result<(), VregexError>)
        requires
            old(self).wf(),
            old(self).automaton@ == (AutomatonView {
                graph: GraphView { n: 0, sym: Set::empty(), eps: Set::empty() },
                entry: Set::empty(),
                exit: Set::empty(),
                active: Set::empty(),
            }),
        ensures
            final(self).wf(),
            final(self).error == old(self).error,
            r == Err::<(), _>(VregexError::ParsingError) <==> !exists|t: Regex| is_pattern_of(s@, t),
            r is Ok ==> exists|t: Regex|
                is_pattern_of(s@, t) && forall|w: Seq<char>| #[trigger] final(self).automaton@.accepts(w) == matches(t, w),
            r is Err ==> final(self).automaton@ == old(self).automaton@,
            r is Err ==> r == Err::<(), _>(VregexError::ParsingError) || r == Err::<(), _>(
                VregexError::InternalFailure,
            ),
            2 * s@.len() <= usize::MAX && (exists|t: Regex| is_pattern_of(s@, t)) ==> r is Ok,
            s@.len() == 1 && is_literal(s@[0]) ==> r is Ok && final(self).automaton@ == literal_engine(s@[0]),
    {
        proof {
            if s@.len() == 1 && is_literal(s@[0]) {
                lemma_single_letter_is_pattern(s@[0]);
                assert(s@ == seq![s@[0]]);
            }
        }
        let reg = match parse_regex(s) {
            Ok(t) => t,
            Err(_) => return Err(VregexError::ParsingError),
        };
        proof {
            lemma_states_needed_bound(s@, reg, 3);
        }
        if !has_room(&self.automaton, &reg) {
            return Err(VregexError::InternalFailure);
        }
        let r = build_automaton(&mut self.automaton, &reg);
        proof {
            lemma_accepts_lang(self.automaton@, reg);
            if s@.len() == 1 && is_literal(s@[0]) {
                assert(s@ == seq![s@[0]]);
                lemma_single_letter_tree(s@[0], reg);
                assert(set![(0usize, s@[0], 1usize)] =~= Set::<(usize, char, usize)>::empty().insert(
                    (0usize, s@[0], 1usize),
                ));
            }
        }
        r
    }
}

/// The engine compiled from the one-letter pattern `c`: states 0 and 1,
/// one edge `0 --c--> 1`, entry `{0}`, exit `{1}`.
pub open spec fn literal_engine(c: char) -> AutomatonView {
    AutomatonView {
        graph: GraphView { n: 2, sym: set![(0usize, c, 1usize)], eps: Set::empty() },
        entry: set![0usize],
        exit: set![1usize],
        active: Set::empty(),
    }
}

/// The only tree of a one-letter pattern is that literal.
pub proof fn lemma_single_letter_tree(c: char, t: Regex)
    requires
        is_pattern_of(seq![c], t),
    ensures
        t == Regex::Literal(c),
{
    let s = seq![c];
    assert(derives(s, t, 2));
    assert(derives(s, t, 1));
    if !derives(s, t, 0) {
        lemma_phrase_start(s.drop_last(), *t->Star_0, 1);
    }
    assert(s[0] == c);
}

/// A lowercase letter alone is a pattern.
pub proof fn lemma_single_letter_is_pattern(c: char)
    requires
        is_literal(c),
    ensures
        is_pattern_of(seq![c], Regex::Literal(c)),
{
    let s = seq![c];
    assert(derives(s, Regex::Literal(c), 0));
    assert(derives(s, Regex::Literal(c), 1));
    assert(derives(s, Regex::Literal(c), 2));
    assert(derives(s, Regex::Literal(c), 3));
}

proof fn lemma_literal_run(c: char, w: Seq<char>)
    requires
        w.len() >= 1,
    ensures
        literal_engine(c).run(set![0usize], w) == (if w == seq![c] {
            set![1usize]
        } else {
            Set::<usize>::empty()
        }),
    decreases w.len(),
{
    let a = literal_engine(c);
    let g = a.graph;
    assert forall|x: usize, y: usize| g.eps_reach(x, y) implies x == y by {
        let k = choose|k: nat| #[trigger] g.eps_reach_within(x, y, k);
        lemma_no_eps_reach_only_self(g, x, y, k);
    }
    assert forall|x: usize| #[trigger] g.eps_reach(x, x) by {
        lemma_eps_reach_refl(g, x);
    }
    let prev = a.run(set![0usize], w.drop_last());
    if w.len() == 1 {
        assert(w.drop_last().len() == 0);
        assert(prev == set![0usize]);
        let d = w.last();
        assert forall|t: usize| #[trigger] a.advance(prev, d).contains(t) == (d == c && t == 1) by {
            if a.advance(prev, d).contains(t) {
                let x = choose|x: usize| prev.contains(x) && #[trigger] g.step(x, d).contains(t);
                let m = choose|m: usize| #[trigger] g.after_symbol(x, d).contains(m) && g.eps_reach(m, t);
                let s0 = choose|s0: usize| g.eps_reach(x, s0) && #[trigger] g.sym.contains((s0, d, m));
            }
            if d == c && t == 1 {
                assert(g.sym.contains((0usize, c, 1usize)));
                assert(g.after_symbol(0, d).contains(1));
                assert(g.step(0, d).contains(1));
            }
        }
        if w == seq![c] {
            assert(a.advance(prev, d) =~= set![1usize]);
        } else {
            assert(d != c) by {
                if d == c {
                    assert(w =~= seq![c]);
                }
            }
            assert(a.advance(prev, d) =~= Set::<usize>::empty());
        }
    } else {
        lemma_literal_run(c, w.drop_last());
        assert(w.drop_last() != seq![c] || prev == set![1usize]);
        let d = w.last();
        assert forall|t: usize| !#[trigger] a.advance(prev, d).contains(t) by {
            if a.advance(prev, d).contains(t) {
                let x = choose|x: usize| prev.contains(x) && #[trigger] g.step(x, d).contains(t);
                let m = choose|m: usize| #[trigger] g.after_symbol(x, d).contains(m) && g.eps_reach(m, t);
                let s0 = choose|s0: usize| g.eps_reach(x, s0) && #[trigger] g.sym.contains((s0, d, m));
                assert(x == 1);
            }
        }
        assert(a.advance(prev, d) =~= Set::<usize>::empty());
        assert(w != seq![c]);
    }
}

/// A one-letter pattern matches that letter and nothing else: not the empty
/// string, not another letter, not a longer string.
pub proof fn lemma_single_letter_language(c: char, w: Seq<char>)
    ensures
        literal_engine(c).accepts(w) <==> w == seq![c],
{
    let a = literal_engine(c);
    if w.len() == 0 {
        assert forall|t: usize| #[trigger] a.close(a.entry).contains(t) implies t == 0 by {
            let x = choose|x: usize| a.entry.contains(x) && #[trigger] a.graph.eps_reach(x, t);
            let k = choose|k: nat| #[trigger] a.graph.eps_reach_within(x, t, k);
            lemma_no_eps_reach_only_self(a.graph, x, t, k);
        }
        assert(!a.hits_exit(a.close(a.entry)));
        assert(w != seq![c]);
    } else {
        lemma_literal_run(c, w);
        if w == seq![c] {
            assert(a.run(a.entry, w).contains(1usize));
            assert(a.exit.contains(1usize));
            assert(a.hits_exit(a.run(a.entry, w)));
        } else {
            assert(a.run(a.entry, w) == Set::<usize>::empty());
        }
    }
}

/// Queries do not leak into one another: the answer for a word depends
/// only on the compiled automaton, not on the active set that an earlier
/// query left behind. So two engines that differ only in that set, such as
/// one engine before and after any number of queries, give the same answer.
pub proof fn lemma_query_independent_of_history(a: AutomatonView, b: AutomatonView, w: Seq<char>)
    requires
        a.same_build(b),
    ensures
        a.accepts(w) == b.accepts(w),
{
    lemma_run_same_build(a, b, a.entry, w);
}

/// Any chain of queries leaves answers unchanged: if each engine state in
/// `states` is what a query left from the one before (same graph and
/// frontiers), the last answers every word as the first one does.
pub proof fn lemma_query_chain_independent(states: Seq<AutomatonView>, w: Seq<char>)
    requires
        states.len() >= 1,
        forall|i: int| 0 <= i < states.len() - 1 ==> (#[trigger] states[i + 1]).same_build(states[i]),
    ensures
        states.last().accepts(w) == states[0].accepts(w),
    decreases states.len(),
{
    if states.len() > 1 {
        let prefix = states.drop_last();
        assert forall|i: int| 0 <= i < prefix.len() - 1 implies (#[trigger] prefix[i + 1]).same_build(prefix[i]) by {
            assert(states[i + 1].same_build(states[i]));
        }
        lemma_query_chain_independent(prefix, w);
        let j = states.len() - 2;
        assert(states[j + 1].same_build(states[j]));
        assert(prefix.last() == states[j]);
        lemma_query_independent_of_history(states.last(), prefix.last(), w);
    }
}

proof fn lemma_run_same_build(a: AutomatonView, b: AutomatonView, s: Set<usize>, w: Seq<char>)
    requires
        a.same_build(b),
    ensures
        a.run(s, w) == b.run(s, w),
        a.close(s) == b.close(s),
    decreases w.len(),
{
    if w.len() > 0 {
        lemma_run_same_build(a, b, s, w.drop_last());
        assert(a.advance(a.run(s, w.drop_last()), w.last()) =~= b.advance(b.run(s, w.drop_last()), w.last()));
    }
    assert(a.close(s) =~= b.close(s));
}

/// Whether `r` can be built without the state count overflowing.
fn has_room(autom: &Automaton, r: &Regex) -> (b: bool)
    ensures
        b == (autom@.graph.n + states_needed(*r) <= usize::MAX),
{
    let need = count_states(r, usize::MAX - autom.nb_state());
    match need {
        Some(_) => true,
        None => false,
    }
}

/// `states_needed(r)` if it is at most `cap`.
fn count_states(r: &Regex, cap: usize) -> (out: Option<usize>)
    ensures
        out matches Some(k) ==> k == states_needed(*r) && k <= cap,
        out is None ==> states_needed(*r) > cap,
    decreases r,
{
    match r {
        Regex::Literal(_) => if cap >= 2 {
            Some(2)
        } else {
            None
        },
        Regex::Concat(l, rr) => match count_states(l, cap) {
            None => None,
            Some(a) => match count_states(rr, cap - a) {
                None => None,
                Some(b) => Some(a + b),
            },
        },
        Regex::Plus(l, rr) => match count_states(l, cap) {
            None => None,
            Some(a) => match count_states(rr, cap - a) {
                None => None,
                Some(b) => if a + b < cap {
                    Some(a + b + 1)
                } else {
                    None
                },
            },
        },
        Regex::Star(i) => match count_states(i, cap) {
            None => None,
            Some(a) => if cap - a >= 2 {
                Some(a + 2)
            } else {
                None
            },
        },
    }
}

/// Adds an epsilon edge from `from` to each state of `tos`.
fn connect_one(autom: &mut Automaton, from: usize, tos: &Vec<usize>) -> (r: Result<(), VregexError>)
    requires
        old(autom).wf(),
        from < old(autom)@.graph.n,
        old(autom)@.graph.all_valid(tos@.to_set()),
    ensures
        r is Ok,
        final(autom).wf(),
        final(autom)@ == (AutomatonView {
            graph: GraphView {
                eps: old(autom)@.graph.eps.union(pairs(set![from], tos@.to_set())),
                ..old(autom)@.graph
            },
            ..old(autom)@
        }),
{
    let ghost o = autom@;
    let mut j: usize = 0;
    assert(o.graph.eps.union(pairs(set![from], tos@.subrange(0, 0).to_set())) =~= o.graph.eps);
    assert(o.graph == GraphView { eps: o.graph.eps, ..o.graph });
    while j < tos.len()
        invariant
            j <= tos@.len(),
            autom.wf(),
            from < o.graph.n,
            o.graph.all_valid(tos@.to_set()),
            autom@ == (AutomatonView {
                graph: GraphView {
                    eps: o.graph.eps.union(pairs(set![from], tos@.subrange(0, j as int).to_set())),
                    ..o.graph
                },
                ..o
            }),
        decreases tos.len() - j,
    {
        let t = tos[j];
        assert(tos@.to_set().contains(t));
        match autom.add_eps_transition(from, t) {
            Ok(()) => {},
            Err(_) => return Err(VregexError::InternalFailure),
        }
        proof {
            let a = tos@.subrange(0, j as int);
            let b = tos@.subrange(0, j + 1);
            assert(b =~= a.push(t));
            assert forall|x: usize| #[trigger] b.to_set().contains(x) == (a.to_set().contains(x) || x == t) by {
                if a.to_set().contains(x) {
                    let k = choose|k: int| 0 <= k < a.len() && a[k] == x;
                    assert(b[k] == x);
                }
                if x == t {
                    assert(b[j as int] == x);
                }
                if b.to_set().contains(x) && x != t {
                    let k = choose|k: int| 0 <= k < b.len() && b[k] == x;
                    assert(a[k] == x);
                }
            }
            assert(o.graph.eps.union(pairs(set![from], a.to_set())).insert((from, t)) =~= o.graph.eps.union(
                pairs(set![from], b.to_set()),
            ));
        }
        j += 1;
    }
    assert(tos@.subrange(0, tos@.len() as int) =~= tos@);
    Ok(())
}

/// Adds an epsilon edge from each state of `froms` to each state of `tos`.
fn connect_all(autom: &mut Automaton, froms: &Vec<usize>, tos: &Vec<usize>) -> (r: Result<(), VregexError>)
    requires
        old(autom).wf(),
        old(autom)@.graph.all_valid(froms@.to_set()),
        old(autom)@.graph.all_valid(tos@.to_set()),
    ensures
        r is Ok,
        final(autom).wf(),
        final(autom)@ == (AutomatonView {
            graph: GraphView {
                eps: old(autom)@.graph.eps.union(pairs(froms@.to_set(), tos@.to_set())),
                ..old(autom)@.graph
            },
            ..old(autom)@
        }),
{
    let ghost o = autom@;
    let mut i: usize = 0;
    assert(o.graph.eps.union(pairs(froms@.subrange(0, 0).to_set(), tos@.to_set())) =~= o.graph.eps);
    assert(o.graph == GraphView { eps: o.graph.eps, ..o.graph });
    while i < froms.len()
        invariant
            i <= froms@.len(),
            autom.wf(),
            o.graph.all_valid(froms@.to_set()),
            o.graph.all_valid(tos@.to_set()),
            autom@ == (AutomatonView {
                graph: GraphView {
                    eps: o.graph.eps.union(pairs(froms@.subrange(0, i as int).to_set(), tos@.to_set())),
                    ..o.graph
                },
                ..o
            }),
        decreases froms.len() - i,
    {
        let f = froms[i];
        assert(froms@.to_set().contains(f));
        match connect_one(autom, f, tos) {
            Ok(()) => {},
            Err(e) => return Err(e),
        }
        proof {
            let a = froms@.subrange(0, i as int);
            let b = froms@.subrange(0, i + 1);
            assert forall|x: usize| #[trigger] b.to_set().contains(x) == (a.to_set().contains(x) || x == f) by {
                if a.to_set().contains(x) {
                    let k = choose|k: int| 0 <= k < a.len() && a[k] == x;
                    assert(b[k] == x);
                }
                if x == f {
                    assert(b[i as int] == x);
                }
                if b.to_set().contains(x) && x != f {
                    let k = choose|k: int| 0 <= k < b.len() && b[k] == x;
                    assert(a[k] == x);
                }
            }
            assert(o.graph.eps.union(pairs(a.to_set(), tos@.to_set())).union(pairs(set![f], tos@.to_set()))
                =~= o.graph.eps.union(pairs(b.to_set(), tos@.to_set())));
        }
        i += 1;
    }
    assert(froms@.subrange(0, froms@.len() as int) =~= froms@);
    Ok(())
}

/// Adds each state of `ids` to the entry frontier, or with `to_exit` to the exit frontier.
fn add_frontier(autom: &mut Automaton, ids: &Vec<usize>, to_exit: bool) -> (r: Result<(), VregexError>)
    requires
        old(autom).wf(),
        old(autom)@.graph.all_valid(ids@.to_set()),
    ensures
        r is Ok,
        final(autom).wf(),
        !to_exit ==> final(autom)@ == (AutomatonView {
            entry: old(autom)@.entry.union(ids@.to_set()),
            ..old(autom)@
        }),
        to_exit ==> final(autom)@ == (AutomatonView { exit: old(autom)@.exit.union(ids@.to_set()), ..old(autom)@ }),
{
    let ghost o = autom@;
    let mut i: usize = 0;
    assert(o.entry.union(ids@.subrange(0, 0).to_set()) =~= o.entry);
    assert(o.exit.union(ids@.subrange(0, 0).to_set()) =~= o.exit);
    while i < ids.len()
        invariant
            i <= ids@.len(),
            autom.wf(),
            o.graph.all_valid(ids@.to_set()),
            !to_exit ==> autom@ == (AutomatonView {
                entry: o.entry.union(ids@.subrange(0, i as int).to_set()),
                ..o
            }),
            to_exit ==> autom@ == (AutomatonView { exit: o.exit.union(ids@.subrange(0, i as int).to_set()), ..o }),
        decreases ids.len() - i,
    {
        let x = ids[i];
        assert(ids@.to_set().contains(x));
        let res = if to_exit {
            autom.add_exit(x)
        } else {
            autom.add_entry(x)
        };
        match res {
            Ok(()) => {},
            Err(_) => return Err(VregexError::InternalFailure),
        }
        proof {
            let a = ids@.subrange(0, i as int);
            let b = ids@.subrange(0, i + 1);
            assert forall|y: usize| #[trigger] b.to_set().contains(y) == (a.to_set().contains(y) || y == x) by {
                if a.to_set().contains(y) {
                    let k = choose|k: int| 0 <= k < a.len() && a[k] == y;
                    assert(b[k] == y);
                }
                if y == x {
                    assert(b[i as int] == y);
                }
                if b.to_set().contains(y) && y != x {
                    let k = choose|k: int| 0 <= k < b.len() && b[k] == y;
                    assert(a[k] == y);
                }
            }
            assert(o.entry.union(a.to_set()).insert(x) =~= o.entry.union(b.to_set()));
            assert(o.exit.union(a.to_set()).insert(x) =~= o.exit.union(b.to_set()));
        }
        i += 1;
    }
    assert(ids@.subrange(0, ids@.len() as int) =~= ids@);
    Ok(())
}

/// An automaton whose paths recognize the language of `t` accepts exactly
/// the words of that language.
pub proof fn lemma_accepts_lang(a: AutomatonView, t: Regex)
    requires
        recognizes_lang(a, t),
    ensures
        forall|w: Seq<char>| #[trigger] a.accepts(w) == matches(t, w),
{
    assert forall|w: Seq<char>| #[trigger] a.accepts(w) == matches(t, w) by {
        lemma_accepts_iff_path(a, w);
        assert(matches(t, w) == recognizes(a, w));
    }
}

/// The frontiers of a sub-automaton built on `g0`, ending with `a`.
pub open spec fn built_on(a: AutomatonView, g0: GraphView) -> bool {
    &&& a.graph.wf()
    &&& extends(a.graph, g0)
    &&& fresh_frontier(a.entry, g0.n, a.graph.n)
    &&& fresh_frontier(a.exit, g0.n, a.graph.n)
}

proof fn lemma_literal_lang(c: char, g0: GraphView, a: AutomatonView)
    requires
        g0.wf(),
        g0.n + 2 <= usize::MAX,
        a.graph == g0.with_states(2).with_sym(g0.n as usize, (g0.n + 1) as usize, c),
        a.entry == set![g0.n as usize],
        a.exit == set![(g0.n + 1) as usize],
    ensures
        recognizes_lang(a, Regex::Literal(c)),
{
    let p = g0.n as usize;
    let q = (g0.n + 1) as usize;
    let g = a.graph;
    assert forall|w: Seq<char>| matches(Regex::Literal(c), w) == recognizes(a, w) by {
        if recognizes(a, w) {
            let (x, y) = choose|x: usize, y: usize| a.entry.contains(x) && a.exit.contains(y) && #[trigger] g.reads(x, w, y);
            let inv = |u: Seq<char>, s: usize| (s == p && u.len() == 0) || (s == q && u == seq![c]);
            assert forall|u2: Seq<char>, x1: usize, y1: usize| #![trigger inv(u2, x1), g.eps.contains((x1, y1))] inv(u2, x1) && g.eps.contains((x1, y1)) implies inv(u2, y1) by {
                assert(g0.eps.contains((x1, y1)));
            }
            assert forall|u2: Seq<char>, x1: usize, c1: char, y1: usize| #![trigger inv(u2, x1), g.sym.contains((x1, c1, y1))] inv(u2, x1) && g.sym.contains((x1, c1, y1))
                implies inv(u2.push(c1), y1) by {
                if !g0.sym.contains((x1, c1, y1)) {
                    assert((x1, c1, y1) == (p, c, q));
                    assert(u2.push(c1) =~= seq![c]);
                }
            }
            assert(inv(Seq::empty(), x));
            lemma_reads_forward(g, x, inv, w, y);
        }
        if w == seq![c] {
            lemma_eps_reach_refl(g, p);
            assert(g.reads(p, Seq::<char>::empty(), p));
            assert(g.sym.contains((p, c, q)));
            lemma_reads_sym_edge(g, p, Seq::<char>::empty(), p, c, q);
            assert(Seq::<char>::empty().push(c) =~= w);
            assert(a.entry.contains(p) && a.exit.contains(q));
        }
    }
}

proof fn lemma_concat_lang(l: Regex, r: Regex, g0: GraphView, a1: AutomatonView, a2: AutomatonView, a3: AutomatonView)
    requires
        g0.wf(),
        built_on(a1, g0),
        built_on(a2, a1.graph),
        recognizes_lang(a1, l),
        recognizes_lang(a2, r),
        a3.graph == (GraphView { eps: a2.graph.eps.union(pairs(a1.exit, a2.entry)), ..a2.graph }),
        a3.entry == a1.entry,
        a3.exit == a2.exit,
    ensures
        recognizes_lang(a3, Regex::Concat(Box::new(l), Box::new(r))),
{
    let n0 = g0.n;
    let n1 = a1.graph.n;
    let n2 = a2.graph.n;
    let g = a3.graph;
    let t = Regex::Concat(Box::new(l), Box::new(r));
    assert forall|w: Seq<char>| matches(t, w) == recognizes(a3, w) by {
        if recognizes(a3, w) {
            let (x0, y) = choose|x: usize, y: usize| a3.entry.contains(x) && a3.exit.contains(y) && #[trigger] g.reads(x, w, y);
            let inv = |u: Seq<char>, s: usize|
                (n0 <= s < n1 && a1.graph.reads(x0, u, s)) || (n1 <= s < n2 && exists|k: int, e: usize|
                    0 <= k <= u.len() && matches(l, u.subrange(0, k)) && a2.entry.contains(e) && #[trigger] a2.graph.reads(
                        e,
                        u.subrange(k, u.len() as int),
                        s,
                    ));
            assert forall|u2: Seq<char>, x: usize, y1: usize| #![trigger inv(u2, x), g.eps.contains((x, y1))] inv(u2, x) && g.eps.contains((x, y1)) implies inv(u2, y1) by {
                if x < n1 {
                    if a2.graph.eps.contains((x, y1)) {
                        assert(a1.graph.eps.contains((x, y1)));
                        assert(!g0.eps.contains((x, y1)));
                        lemma_eps_edge_reach(a1.graph, x, y1);
                        lemma_reads_then_eps(a1.graph, x0, u2, x, y1);
                    } else {
                        assert(a1.exit.contains(x) && a2.entry.contains(y1));
                        assert(recognizes(a1, u2));
                        assert(matches(l, u2));
                        assert(u2.subrange(0, u2.len() as int) =~= u2);
                        assert(u2.subrange(u2.len() as int, u2.len() as int) =~= Seq::<char>::empty());
                        lemma_eps_reach_refl(a2.graph, y1);
                        assert(a2.graph.reads(y1, u2.subrange(u2.len() as int, u2.len() as int), y1));
                    }
                } else {
                    assert(!a1.exit.contains(x));
                    assert(a2.graph.eps.contains((x, y1)));
                    assert(!a1.graph.eps.contains((x, y1)));
                    let (k, e) = choose|k: int, e: usize|
                        0 <= k <= u2.len() && matches(l, u2.subrange(0, k)) && a2.entry.contains(e)
                            && #[trigger] a2.graph.reads(e, u2.subrange(k, u2.len() as int), x);
                    lemma_eps_edge_reach(a2.graph, x, y1);
                    lemma_reads_then_eps(a2.graph, e, u2.subrange(k, u2.len() as int), x, y1);
                }
            }
            assert forall|u2: Seq<char>, x: usize, c1: char, y1: usize| #![trigger inv(u2, x), g.sym.contains((x, c1, y1))] inv(u2, x) && g.sym.contains((x, c1, y1))
                implies inv(u2.push(c1), y1) by {
                if x < n1 {
                    assert(a1.graph.sym.contains((x, c1, y1)));
                    assert(!g0.sym.contains((x, c1, y1)));
                    lemma_reads_sym_edge(a1.graph, x0, u2, x, c1, y1);
                } else {
                    assert(!a1.graph.sym.contains((x, c1, y1)));
                    let (k, e) = choose|k: int, e: usize|
                        0 <= k <= u2.len() && matches(l, u2.subrange(0, k)) && a2.entry.contains(e)
                            && #[trigger] a2.graph.reads(e, u2.subrange(k, u2.len() as int), x);
                    let v = u2.push(c1);
                    lemma_reads_sym_edge(a2.graph, e, u2.subrange(k, u2.len() as int), x, c1, y1);
                    assert(v.subrange(0, k) =~= u2.subrange(0, k));
                    assert(v.subrange(k, v.len() as int) =~= u2.subrange(k, u2.len() as int).push(c1));
                    assert(a2.graph.reads(e, v.subrange(k, v.len() as int), y1));
                }
            }
            lemma_eps_reach_refl(a1.graph, x0);
            assert(a1.graph.reads(x0, Seq::<char>::empty(), x0));
            assert(inv(Seq::empty(), x0));
            lemma_reads_forward(g, x0, inv, w, y);
            let (k, e) = choose|k: int, e: usize|
                0 <= k <= w.len() && matches(l, w.subrange(0, k)) && a2.entry.contains(e) && #[trigger] a2.graph.reads(
                    e,
                    w.subrange(k, w.len() as int),
                    y,
                );
            assert(recognizes(a2, w.subrange(k, w.len() as int)));
            assert(matches(r, w.subrange(k, w.len() as int)));
            assert(matches(t, w));
        }
        if matches(t, w) {
            let i = choose|i: int| 0 <= i <= w.len() && matches(l, #[trigger] w.subrange(0, i)) && matches(r, w.subrange(i, w.len() as int));
            let u = w.subrange(0, i);
            let v = w.subrange(i, w.len() as int);
            assert(recognizes(a1, u));
            assert(recognizes(a2, v));
            let (x, x1) = choose|x: usize, y: usize| a1.entry.contains(x) && a1.exit.contains(y) && #[trigger] a1.graph.reads(x, u, y);
            let (e, y) = choose|x: usize, y: usize| a2.entry.contains(x) && a2.exit.contains(y) && #[trigger] a2.graph.reads(x, v, y);
            lemma_reads_mono(a1.graph, g, x, u, x1);
            lemma_reads_mono(a2.graph, g, e, v, y);
            assert(g.eps.contains((x1, e)));
            lemma_eps_edge_reach(g, x1, e);
            lemma_reads_then_eps(g, x, u, x1, e);
            lemma_reads_concat(g, x, u, e, v, y);
            assert(u + v =~= w);
            assert(recognizes(a3, w));
        }
    }
}

proof fn lemma_plus_lang(l: Regex, r: Regex, g0: GraphView, a1: AutomatonView, a2: AutomatonView, a3: AutomatonView)
    requires
        a2.graph.n < usize::MAX,
        g0.wf(),
        built_on(a1, g0),
        built_on(a2, a1.graph),
        recognizes_lang(a1, l),
        recognizes_lang(a2, r),
        a3.graph == (GraphView {
            n: a2.graph.n + 1,
            eps: a2.graph.eps.union(pairs(set![a2.graph.n as usize], a1.entry)).union(
                pairs(set![a2.graph.n as usize], a2.entry),
            ),
            ..a2.graph
        }),
        a3.entry == set![a2.graph.n as usize],
        a3.exit == a2.exit.union(a1.exit),
    ensures
        recognizes_lang(a3, Regex::Plus(Box::new(l), Box::new(r))),
{
    let n0 = g0.n;
    let n1 = a1.graph.n;
    let n2 = a2.graph.n;
    let d = n2 as usize;
    let g = a3.graph;
    let t = Regex::Plus(Box::new(l), Box::new(r));
    assert forall|w: Seq<char>| matches(t, w) == recognizes(a3, w) by {
        if recognizes(a3, w) {
            let (x0, y) = choose|x: usize, y: usize| a3.entry.contains(x) && a3.exit.contains(y) && #[trigger] g.reads(x, w, y);
            let inv = |u: Seq<char>, s: usize|
                (s == d && u.len() == 0) || (n0 <= s < n1 && exists|x: usize| a1.entry.contains(x) && #[trigger] a1.graph.reads(x, u, s))
                    || (n1 <= s < n2 && exists|x: usize| a2.entry.contains(x) && #[trigger] a2.graph.reads(x, u, s));
            assert forall|u2: Seq<char>, x: usize, y1: usize| #![trigger inv(u2, x), g.eps.contains((x, y1))] inv(u2, x) && g.eps.contains((x, y1)) implies inv(u2, y1) by {
                if x == d {
                    assert(!a2.graph.eps.contains((x, y1)));
                    assert(u2 =~= Seq::<char>::empty());
                    if a1.entry.contains(y1) {
                        lemma_eps_reach_refl(a1.graph, y1);
                        assert(a1.graph.reads(y1, u2, y1));
                    } else {
                        assert(a2.entry.contains(y1));
                        lemma_eps_reach_refl(a2.graph, y1);
                        assert(a2.graph.reads(y1, u2, y1));
                    }
                } else if x < n1 {
                    assert(a2.graph.eps.contains((x, y1)));
                    assert(a1.graph.eps.contains((x, y1)));
                    assert(!g0.eps.contains((x, y1)));
                    let x1 = choose|x1: usize| a1.entry.contains(x1) && #[trigger] a1.graph.reads(x1, u2, x);
                    lemma_eps_edge_reach(a1.graph, x, y1);
                    lemma_reads_then_eps(a1.graph, x1, u2, x, y1);
                } else {
                    assert(a2.graph.eps.contains((x, y1)));
                    assert(!a1.graph.eps.contains((x, y1)));
                    let x1 = choose|x1: usize| a2.entry.contains(x1) && #[trigger] a2.graph.reads(x1, u2, x);
                    lemma_eps_edge_reach(a2.graph, x, y1);
                    lemma_reads_then_eps(a2.graph, x1, u2, x, y1);
                }
            }
            assert forall|u2: Seq<char>, x: usize, c1: char, y1: usize| #![trigger inv(u2, x), g.sym.contains((x, c1, y1))] inv(u2, x) && g.sym.contains((x, c1, y1))
                implies inv(u2.push(c1), y1) by {
                if x == d {
                    assert(false);
                } else if x < n1 {
                    assert(a1.graph.sym.contains((x, c1, y1)));
                    assert(!g0.sym.contains((x, c1, y1)));
                    let x1 = choose|x1: usize| a1.entry.contains(x1) && #[trigger] a1.graph.reads(x1, u2, x);
                    lemma_reads_sym_edge(a1.graph, x1, u2, x, c1, y1);
                } else {
                    assert(!a1.graph.sym.contains((x, c1, y1)));
                    let x1 = choose|x1: usize| a2.entry.contains(x1) && #[trigger] a2.graph.reads(x1, u2, x);
                    lemma_reads_sym_edge(a2.graph, x1, u2, x, c1, y1);
                }
            }
            assert(inv(Seq::empty(), x0));
            lemma_reads_forward(g, x0, inv, w, y);
            if a1.exit.contains(y) {
                let x1 = choose|x1: usize| a1.entry.contains(x1) && #[trigger] a1.graph.reads(x1, w, y);
                assert(recognizes(a1, w));
            } else {
                let x1 = choose|x1: usize| a2.entry.contains(x1) && #[trigger] a2.graph.reads(x1, w, y);
                assert(recognizes(a2, w));
            }
        }
        if matches(t, w) {
            lemma_eps_reach_refl(g, d);
            if matches(l, w) {
                assert(recognizes(a1, w));
                let (x, y) = choose|x: usize, y: usize| a1.entry.contains(x) && a1.exit.contains(y) && #[trigger] a1.graph.reads(x, w, y);
                lemma_reads_mono(a1.graph, g, x, w, y);
                assert(g.eps.contains((d, x)));
                lemma_eps_edge_reach(g, d, x);
                lemma_reads_concat(g, d, Seq::<char>::empty(), x, w, y);
                assert(Seq::<char>::empty() + w =~= w);
                assert(a3.entry.contains(d) && a3.exit.contains(y));
            } else {
                assert(recognizes(a2, w));
                let (x, y) = choose|x: usize, y: usize| a2.entry.contains(x) && a2.exit.contains(y) && #[trigger] a2.graph.reads(x, w, y);
                lemma_reads_mono(a2.graph, g, x, w, y);
                assert(g.eps.contains((d, x)));
                lemma_eps_edge_reach(g, d, x);
                lemma_reads_concat(g, d, Seq::<char>::empty(), x, w, y);
                assert(Seq::<char>::empty() + w =~= w);
                assert(a3.entry.contains(d) && a3.exit.contains(y));
            }
        }
    }
}

/// Repeating once more at the end stays in the language of a star.
pub proof fn lemma_star_append(i: Regex, u: Seq<char>, v: Seq<char>)
    requires
        matches(Regex::Star(Box::new(i)), u),
        matches(i, v),
    ensures
        matches(Regex::Star(Box::new(i)), u + v),
    decreases u.len(),
{
    let t = Regex::Star(Box::new(i));
    let w = u + v;
    if u.len() == 0 {
        assert(w =~= v);
        if v.len() > 0 {
            assert(w.subrange(0, w.len() as int) =~= v);
            assert(w.subrange(w.len() as int, w.len() as int).len() == 0);
            assert(matches(t, w.subrange(w.len() as int, w.len() as int)));
        }
    } else {
        let k = choose|k: int| 0 < k <= u.len() && matches(i, #[trigger] u.subrange(0, k)) && matches(t, u.subrange(k, u.len() as int));
        lemma_star_append(i, u.subrange(k, u.len() as int), v);
        assert(w.subrange(0, k) =~= u.subrange(0, k));
        assert(w.subrange(k, w.len() as int) =~= u.subrange(k, u.len() as int) + v);
    }
}

proof fn lemma_star_paths(i: Regex, a1: AutomatonView, a2: AutomatonView, w: Seq<char>)
    requires
        recognizes_lang(a1, i),
        a1.graph.n + 2 <= usize::MAX,
        a2.graph == (GraphView {
            n: a1.graph.n + 2,
            eps: a1.graph.eps.insert((a1.graph.n as usize, (a1.graph.n + 1) as usize)).insert(
                ((a1.graph.n + 1) as usize, a1.graph.n as usize),
            ).union(pairs(set![a1.graph.n as usize], a1.entry)).union(pairs(a1.exit, set![(a1.graph.n + 1) as usize])),
            ..a1.graph
        }),
        matches(Regex::Star(Box::new(i)), w),
    ensures
        a2.graph.reads(a1.graph.n as usize, w, (a1.graph.n + 1) as usize),
    decreases w.len(),
{
    let b = a1.graph.n as usize;
    let e = (a1.graph.n + 1) as usize;
    let g = a2.graph;
    let t = Regex::Star(Box::new(i));
    assert(g.eps.contains((b, e)));
    assert(g.eps.contains((e, b)));
    if w.len() == 0 {
        lemma_eps_edge_reach(g, b, e);
    } else {
        let k = choose|k: int| 0 < k <= w.len() && matches(i, #[trigger] w.subrange(0, k)) && matches(t, w.subrange(k, w.len() as int));
        let u = w.subrange(0, k);
        let v = w.subrange(k, w.len() as int);
        assert(recognizes(a1, u));
        let (x, y) = choose|x: usize, y: usize| a1.entry.contains(x) && a1.exit.contains(y) && #[trigger] a1.graph.reads(x, u, y);
        lemma_reads_mono(a1.graph, g, x, u, y);
        assert(g.eps.contains((b, x)));
        lemma_eps_edge_reach(g, b, x);
        lemma_reads_concat(g, b, Seq::<char>::empty(), x, u, y);
        assert(Seq::<char>::empty() + u =~= u);
        assert(g.eps.contains((y, e)));
        lemma_eps_edge_reach(g, y, e);
        lemma_reads_then_eps(g, b, u, y, e);
        lemma_eps_edge_reach(g, e, b);
        lemma_reads_then_eps(g, b, u, e, b);
        lemma_star_paths(i, a1, a2, v);
        lemma_reads_concat(g, b, u, b, v, e);
        assert(u + v =~= w);
    }
}

proof fn lemma_star_lang(i: Regex, g0: GraphView, a1: AutomatonView, a2: AutomatonView)
    requires
        a1.graph.n + 2 <= usize::MAX,
        g0.wf(),
        built_on(a1, g0),
        recognizes_lang(a1, i),
        a2.graph == (GraphView {
            n: a1.graph.n + 2,
            eps: a1.graph.eps.insert((a1.graph.n as usize, (a1.graph.n + 1) as usize)).insert(
                ((a1.graph.n + 1) as usize, a1.graph.n as usize),
            ).union(pairs(set![a1.graph.n as usize], a1.entry)).union(pairs(a1.exit, set![(a1.graph.n + 1) as usize])),
            ..a1.graph
        }),
        a2.entry == set![a1.graph.n as usize],
        a2.exit == set![(a1.graph.n + 1) as usize],
    ensures
        recognizes_lang(a2, Regex::Star(Box::new(i))),
{
    let n0 = g0.n;
    let n1 = a1.graph.n;
    let b = n1 as usize;
    let e = (n1 + 1) as usize;
    let g = a2.graph;
    let t = Regex::Star(Box::new(i));
    assert(a1.graph.wf());
    assert forall|w: Seq<char>| matches(t, w) == recognizes(a2, w) by {
        if recognizes(a2, w) {
            let (x0, y) = choose|x: usize, y: usize| a2.entry.contains(x) && a2.exit.contains(y) && #[trigger] g.reads(x, w, y);
            let inv = |u: Seq<char>, s: usize|
                ((s == b || s == e) && matches(t, u)) || (n0 <= s < n1 && exists|k: int, x: usize|
                    0 <= k <= u.len() && matches(t, u.subrange(0, k)) && a1.entry.contains(x) && #[trigger] a1.graph.reads(
                        x,
                        u.subrange(k, u.len() as int),
                        s,
                    ));
            assert forall|u2: Seq<char>, x: usize, y1: usize| #![trigger inv(u2, x), g.eps.contains((x, y1))] inv(u2, x) && g.eps.contains((x, y1)) implies inv(u2, y1) by {
                if x == b || x == e {
                    if a1.entry.contains(y1) && x == b {
                        assert(u2.subrange(0, u2.len() as int) =~= u2);
                        assert(u2.subrange(u2.len() as int, u2.len() as int) =~= Seq::<char>::empty());
                        lemma_eps_reach_refl(a1.graph, y1);
                        assert(a1.graph.reads(y1, u2.subrange(u2.len() as int, u2.len() as int), y1));
                    } else {
                        assert(!a1.graph.eps.contains((x, y1)));
                        assert(!a1.exit.contains(x));
                    }
                } else {
                    let (k, x1) = choose|k: int, x1: usize|
                        0 <= k <= u2.len() && matches(t, u2.subrange(0, k)) && a1.entry.contains(x1)
                            && #[trigger] a1.graph.reads(x1, u2.subrange(k, u2.len() as int), x);
                    if a1.graph.eps.contains((x, y1)) {
                        assert(!g0.eps.contains((x, y1)));
                        lemma_eps_edge_reach(a1.graph, x, y1);
                        lemma_reads_then_eps(a1.graph, x1, u2.subrange(k, u2.len() as int), x, y1);
                    } else {
                        assert(a1.exit.contains(x) && y1 == e);
                        assert(recognizes(a1, u2.subrange(k, u2.len() as int)));
                        assert(matches(i, u2.subrange(k, u2.len() as int)));
                        lemma_star_append(i, u2.subrange(0, k), u2.subrange(k, u2.len() as int));
                        assert(u2.subrange(0, k) + u2.subrange(k, u2.len() as int) =~= u2);
                    }
                }
            }
            assert forall|u2: Seq<char>, x: usize, c1: char, y1: usize| #![trigger inv(u2, x), g.sym.contains((x, c1, y1))] inv(u2, x) && g.sym.contains((x, c1, y1))
                implies inv(u2.push(c1), y1) by {
                assert(a1.graph.sym.contains((x, c1, y1)));
                assert(x != b && x != e);
                assert(!g0.sym.contains((x, c1, y1)));
                let (k, x1) = choose|k: int, x1: usize|
                    0 <= k <= u2.len() && matches(t, u2.subrange(0, k)) && a1.entry.contains(x1)
                        && #[trigger] a1.graph.reads(x1, u2.subrange(k, u2.len() as int), x);
                let v = u2.push(c1);
                lemma_reads_sym_edge(a1.graph, x1, u2.subrange(k, u2.len() as int), x, c1, y1);
                assert(v.subrange(0, k) =~= u2.subrange(0, k));
                assert(v.subrange(k, v.len() as int) =~= u2.subrange(k, u2.len() as int).push(c1));
                assert(a1.graph.reads(x1, v.subrange(k, v.len() as int), y1));
            }
            assert(matches(t, Seq::<char>::empty()));
            assert(inv(Seq::empty(), x0));
            lemma_reads_forward(g, x0, inv, w, y);
        }
        if matches(t, w) {
            lemma_star_paths(i, a1, a2, w);
            assert(a2.entry.contains(b) && a2.exit.contains(e));
        }
    }
}

/// Builds the sub-automaton of `reg` from fresh states. The frontiers must
/// be empty on entry; on return they are the sub-automaton's own, and it
/// recognizes exactly the language of `reg`. Both frontiers are saved and
/// emptied before the second operand of a concatenation or an alternation is
/// built, so the operands' frontiers never mix: an alternation's exit
/// frontier is exactly the union of its operands'. New edges only join new
/// states, so what was built before is untouched by what comes after.
fn build_automaton(autom: &mut Automaton, reg: &Regex) -> (r: Result<(), VregexError>)
    requires
        old(autom).wf(),
        old(autom)@.entry == Set::<usize>::empty(),
        old(autom)@.exit == Set::<usize>::empty(),
        old(autom)@.graph.n + states_needed(*reg) <= usize::MAX,
    ensures
        r is Ok,
        final(autom).wf(),
        final(autom)@.graph.n == old(autom)@.graph.n + states_needed(*reg),
        extends(final(autom)@.graph, old(autom)@.graph),
        fresh_frontier(final(autom)@.entry, old(autom)@.graph.n, final(autom)@.graph.n),
        fresh_frontier(final(autom)@.exit, old(autom)@.graph.n, final(autom)@.graph.n),
        exists|x: usize| final(autom)@.entry == set![x],
        recognizes_lang(final(autom)@, *reg),
        final(autom)@.active == old(autom)@.active,
        *reg matches Regex::Literal(c) ==> final(autom)@ == (AutomatonView {
            graph: old(autom)@.graph.with_states(2).with_sym(
                old(autom)@.graph.n as usize,
                (old(autom)@.graph.n + 1) as usize,
                c,
            ),
            entry: set![old(autom)@.graph.n as usize],
            exit: set![(old(autom)@.graph.n + 1) as usize],
            ..old(autom)@
        }),
    decreases reg,
{
    let ghost o = autom@;
    match reg {
        Regex::Literal(c) => {
            build_literal(autom, *c)?;
            proof {
                assert(Set::<usize>::empty().insert(o.graph.n as usize) =~= set![o.graph.n as usize]);
                assert(Set::<usize>::empty().insert((o.graph.n + 1) as usize) =~= set![(o.graph.n + 1) as usize]);
                lemma_literal_lang(*c, o.graph, autom@);
                assert(autom@.entry.contains(o.graph.n as usize));
                assert(autom@.exit.contains((o.graph.n + 1) as usize));
            }
            Ok(())
        },
        Regex::Concat(left_ex, right_ex) => {
            build_automaton(autom, left_ex)?;
            let ghost a1 = autom@;
            let old_exits = autom.get_exit();
            let old_entries = autom.get_entry();
            autom.reset_entry();
            autom.reset_exit();
            build_automaton(autom, right_ex)?;
            let ghost a2 = autom@;
            build_concat(autom, &old_entries, &old_exits)?;
            proof {
                let g3 = autom@.graph;
                lemma_concat_lang(**left_ex, **right_ex, o.graph, a1, a2, autom@);
                assert forall|e: (usize, usize)| #[trigger] g3.eps.contains(e) && !o.graph.eps.contains(e)
                    implies e.0 >= o.graph.n && e.1 >= o.graph.n by {
                    if !a2.graph.eps.contains(e) {
                        assert(a1.exit.contains(e.0));
                        assert(a2.entry.contains(e.1));
                    } else if !a1.graph.eps.contains(e) {
                    }
                }
                assert(extends(g3, o.graph));
                assert forall|x: usize| #[trigger] autom@.entry.contains(x) implies o.graph.n <= x < g3.n by {
                    assert(a1.entry.contains(x));
                }
            }
            Ok(())
        },
        Regex::Plus(left_ex, right_ex) => {
            build_automaton(autom, left_ex)?;
            let ghost a1 = autom@;
            let old_exits = autom.get_exit();
            let old_entries = autom.get_entry();
            autom.reset_entry();
            autom.reset_exit();
            build_automaton(autom, right_ex)?;
            let ghost a2 = autom@;
            build_plus(autom, &old_entries, &old_exits)?;
            proof {
                let g3 = autom@.graph;
                lemma_plus_lang(**left_ex, **right_ex, o.graph, a1, a2, autom@);
                let d = a2.graph.n as usize;
                assert forall|e: (usize, usize)| #[trigger] g3.eps.contains(e) && !o.graph.eps.contains(e)
                    implies e.0 >= o.graph.n && e.1 >= o.graph.n by {
                    if !a2.graph.eps.contains(e) {
                        assert(e.0 == d);
                        assert(a1.entry.contains(e.1) || a2.entry.contains(e.1));
                    } else if !a1.graph.eps.contains(e) {
                    }
                }
                assert(extends(g3, o.graph));
                assert(autom@.entry.contains(d));
                assert forall|x: usize| #[trigger] autom@.exit.contains(x) implies o.graph.n <= x < g3.n by {
                    if !a2.exit.contains(x) {
                        assert(a1.exit.contains(x));
                    }
                }
                let w = choose|w: usize| #[trigger] a2.exit.contains(w);
                assert(autom@.exit.contains(w));
            }
            Ok(())
        },
        Regex::Star(ex) => {
            build_automaton(autom, ex)?;
            let ghost a1 = autom@;
            build_star(autom)?;
            proof {
                let g2 = autom@.graph;
                lemma_star_lang(**ex, o.graph, a1, autom@);
                let b = a1.graph.n as usize;
                let e = (a1.graph.n + 1) as usize;
                assert forall|ed: (usize, usize)| #[trigger] g2.eps.contains(ed) && !o.graph.eps.contains(ed)
                    implies ed.0 >= o.graph.n && ed.1 >= o.graph.n by {
                    if !a1.graph.eps.contains(ed) {
                        if ed.0 != b && ed.0 != e {
                            assert(a1.exit.contains(ed.0));
                        }
                        if ed.1 != b && ed.1 != e {
                            assert(a1.entry.contains(ed.1));
                        }
                    }
                }
                assert(extends(g2, o.graph));
                assert(autom@.entry.contains(b));
                assert(autom@.exit.contains(e));
            }
            Ok(())
        },
    }
}

/// Two fresh states `p`, `q` with `p --c--> q`; `p` joins the entry
/// frontier and `q` the exit frontier.
fn build_literal(autom: &mut Automaton, c: char) -> (r: Result<(), VregexError>)
    requires
        old(autom).wf(),
        old(autom)@.graph.n + 2 <= usize::MAX,
    ensures
        r is Ok,
        final(autom).wf(),
        ({
            let n = old(autom)@.graph.n;
            final(autom)@ == AutomatonView {
                graph: old(autom)@.graph.with_states(2).with_sym(n as usize, (n + 1) as usize, c),
                entry: old(autom)@.entry.insert(n as usize),
                exit: old(autom)@.exit.insert((n + 1) as usize),
                active: old(autom)@.active,
            }
        }),
{
    let state_added = autom.add_n_state(2);
    let p = state_added[0];
    let q = state_added[1];
    if autom.add_entry(p).is_err() || autom.add_exit(q).is_err() || autom.add_transition(p, q, c).is_err() {
        return Err(VregexError::InternalFailure);
    }
    Ok(())
}

/// Wires every old exit to every entry of the sub-automaton just built, and
/// restores the old entry frontier.
fn build_concat(autom: &mut Automaton, old_entries: &Vec<usize>, old_exits: &Vec<usize>) -> (r: Result<(), VregexError>)
    requires
        old(autom).wf(),
        old(autom)@.graph.all_valid(old_entries@.to_set()),
        old(autom)@.graph.all_valid(old_exits@.to_set()),
    ensures
        r is Ok,
        final(autom).wf(),
        final(autom)@ == (AutomatonView {
            graph: GraphView {
                eps: old(autom)@.graph.eps.union(pairs(old_exits@.to_set(), old(autom)@.entry)),
                ..old(autom)@.graph
            },
            entry: old_entries@.to_set(),
            ..old(autom)@
        }),
{
    let new_entries = autom.get_entry();
    connect_all(autom, old_exits, &new_entries)?;
    autom.reset_entry();
    add_frontier(autom, old_entries, false)?;
    assert(Set::<usize>::empty().union(old_entries@.to_set()) =~= old_entries@.to_set());
    Ok(())
}

/// A fresh dispatch state with epsilon edges to both entry frontiers becomes
/// the entry; the exit frontier is the union of both.
fn build_plus(autom: &mut Automaton, old_entries: &Vec<usize>, old_exits: &Vec<usize>) -> (r: Result<(), VregexError>)
    requires
        old(autom).wf(),
        old(autom)@.graph.n < usize::MAX,
        old(autom)@.graph.all_valid(old_entries@.to_set()),
        old(autom)@.graph.all_valid(old_exits@.to_set()),
    ensures
        r is Ok,
        final(autom).wf(),
        ({
            let o = old(autom)@;
            let d = o.graph.n as usize;
            final(autom)@ == AutomatonView {
                graph: GraphView {
                    n: o.graph.n + 1,
                    eps: o.graph.eps.union(pairs(set![d], old_entries@.to_set())).union(pairs(set![d], o.entry)),
                    ..o.graph
                },
                entry: set![d],
                exit: o.exit.union(old_exits@.to_set()),
                active: o.active,
            }
        }),
{
    let new_entries = autom.get_entry();
    autom.reset_entry();
    let new_entry = autom.add_state();
    if autom.add_entry(new_entry).is_err() {
        return Err(VregexError::InternalFailure);
    }
    connect_one(autom, new_entry, old_entries)?;
    connect_one(autom, new_entry, &new_entries)?;
    add_frontier(autom, old_exits, true)?;
    assert(Set::<usize>::empty().insert(new_entry) =~= set![new_entry]);
    Ok(())
}

/// Wraps the current sub-automaton between a fresh entry and a fresh exit,
/// with epsilon edges entry to exit, exit back to entry, entry to each old
/// entry, and each old exit to the fresh exit.
fn build_star(autom: &mut Automaton) -> (r: Result<(), VregexError>)
    requires
        old(autom).wf(),
        old(autom)@.graph.n + 2 <= usize::MAX,
    ensures
        r is Ok,
        final(autom).wf(),
        ({
            let o = old(autom)@;
            let b = o.graph.n as usize;
            let e = (o.graph.n + 1) as usize;
            final(autom)@ == AutomatonView {
                graph: GraphView {
                    n: o.graph.n + 2,
                    eps: o.graph.eps.insert((b, e)).insert((e, b)).union(pairs(set![b], o.entry)).union(
                        pairs(o.exit, set![e]),
                    ),
                    ..o.graph
                },
                entry: set![b],
                exit: set![e],
                active: o.active,
            }
        }),
{
    let old_entries = autom.get_entry();
    let old_exits = autom.get_exit();
    autom.reset_entry();
    autom.reset_exit();
    let new_entry = autom.add_state();
    let new_exit = autom.add_state();
    if autom.add_entry(new_entry).is_err() || autom.add_exit(new_exit).is_err() || autom.add_eps_transition(
        new_entry,
        new_exit,
    ).is_err() || autom.add_eps_transition(new_exit, new_entry).is_err() {
        return Err(VregexError::InternalFailure);
    }
    connect_one(autom, new_entry, &old_entries)?;
    let single_exit = vec![new_exit];
    connect_all(autom, &old_exits, &single_exit)?;
    assert(single_exit@.to_set() =~= set![new_exit]) by {
        assert(single_exit@[0] == new_exit);
    }
    assert(Set::<usize>::empty().insert(new_entry) =~= set![new_entry]);
    assert(Set::<usize>::empty().insert(new_exit) =~= set![new_exit]);
    Ok(())
}

} // verus!
