//! Turning deterministic and nondeterministic automata into automata with
//! epsilon transitions.
use crate::cfg::cfg::clone_terminals;
use crate::collections::{IndexMap, IndexSet, IndexSetMap};
use crate::fa::dfa::DFA;
use crate::fa::epsilon_nfa::ENFA;
use crate::fa::nfa::NFA;
use crate::fa::state::{clone_states, State};
use crate::input_symbol::{epsilon, epsilon_name};
use crate::language::word_of;
use vstd::prelude::*;

verus! {

/// The transitions of `row` as a map to one-element sets.
fn singleton_row(row: &IndexMap) -> (r: IndexSetMap)
    ensures
        r@.dom() == row@.dom(),
        forall|a: usize| #[trigger] r@.contains_key(a) ==> r@[a] == set![row@[a]],
{
    let entries = row.to_vec();
    let mut r = IndexSetMap::new();
    let mut i: usize = 0;
    while i < entries.len()
        invariant
            i <= entries@.len(),
            forall|j: int| 0 <= j < entries@.len() ==> row@.contains_key(#[trigger] entries@[j].0) && row@[entries@[j].0] == entries@[j].1,
            forall|k: usize| #[trigger] r@.contains_key(k) <==> exists|j: int| 0 <= j < i && entries@[j].0 == k,
            forall|a: usize| #[trigger] r@.contains_key(a) ==> r@[a] == set![row@[a]],
        decreases entries@.len() - i,
    {
        let (k, v) = entries[i];
        let mut s = IndexSet::new();
        s.insert(v);
        let ghost old_r = r@;
        r.insert(k, s);
        proof {
            assert(s@ =~= set![v]);
            assert forall|x: usize| #[trigger] r@.contains_key(x) <==> exists|j: int| 0 <= j < i + 1 && entries@[j].0 == x by {
                if x == k {
                    assert(entries@[i as int].0 == x);
                }
                if exists|j: int| 0 <= j < i + 1 && entries@[j].0 == x {
                    let j = choose|j: int| 0 <= j < i + 1 && entries@[j].0 == x;
                    if j < i {
                        assert(old_r.contains_key(x));
                    }
                }
            }
            assert(row@.contains_key(entries@[i as int].0));
        }
        i = i + 1;
    }
    proof {
        assert forall|k: usize| #[trigger] r@.dom().contains(k) == row@.dom().contains(k) by {
            if row@.contains_key(k) {
                let j = choose|j: int| 0 <= j < entries@.len() && #[trigger] entries@[j].0 == k;
            }
        }
        assert(r@.dom() =~= row@.dom());
    }
    r
}

impl DFA {
    /// The state sets that the automaton reaches by `u` from the start:
    /// the state of the run, or nothing where it gets stuck.
    pub open spec fn run_set(&self, u: Seq<usize>) -> Set<usize> {
        match self.run(self.start_state, u) {
            Some(q) => set![q],
            None => Set::empty(),
        }
    }

    /// The same automaton with epsilon transitions: every move goes to the
    /// set of its one target. Where the alphabet has no symbol named epsilon,
    /// it accepts the same words.
    pub fn to_epsilon_automaton(&self) -> (r: ENFA)
        requires
            self.wf(),
        ensures
            r.wf(),
            r.states@ == self.states@,
            r.alphabet@ == self.alphabet@,
            r.state_index_map@ == self.state_index_map@,
            r.alphabet_index_map@ == self.alphabet_index_map@,
            r.start_state == self.start_state,
            r.accept_states@ == self.accept_states@,
            forall|p: usize, a: usize| #[trigger] r.edges(p, a) == (match self.step(p, a) {
                Some(q) => set![q],
                None => Set::<usize>::empty(),
            }),
            !self.alphabet_index_map@.contains_key(epsilon_name()) ==> forall|w: Seq<Seq<char>>| #[trigger] r.accepts_word(w) == self.accepts_word(w),
    {
        let mut transitions: Vec<IndexSetMap> = Vec::new();
        let mut p: usize = 0;
        while p < self.transitions.len()
            invariant
                p <= self.transitions@.len(),
                transitions@.len() == p,
                forall|k: int| 0 <= k < p ==> (#[trigger] transitions@[k]@).dom() == self.transitions@[k]@.dom(),
                forall|k: int, a: usize| 0 <= k < p && #[trigger] transitions@[k]@.contains_key(a) ==> transitions@[k]@[a] == set![self.transitions@[k]@[a]],
            decreases self.transitions@.len() - p,
        {
            let row = singleton_row(&self.transitions[p]);
            transitions.push(row);
            p = p + 1;
        }
        let r = ENFA::new(
            self.state_index_map.clone(),
            self.alphabet_index_map.clone(),
            clone_states(&self.states),
            clone_terminals(&self.alphabet),
            transitions,
            self.start_state,
            self.accept_states.clone(),
        );
        proof {
            assert forall|p: usize, a: usize| #[trigger] r.edges(p, a) == (match self.step(p, a) {
                Some(q) => set![q],
                None => Set::<usize>::empty(),
            }) by {
                if p < r.transitions@.len() {
                    assert(r.transitions@[p as int]@.dom() == self.transitions@[p as int]@.dom());
                    if self.transitions@[p as int]@.contains_key(a) {
                        assert(r.transitions@[p as int]@.contains_key(a));
                    }
                }
            }
            assert forall|p: int, a: usize| 0 <= p < r.transitions@.len() && #[trigger] r.transitions@[p]@.contains_key(a) implies a < r.alphabet@.len()
                && forall|q: usize| #[trigger] r.transitions@[p]@[a].contains(q) ==> q < r.states@.len() by {
                assert(transitions@[p]@.dom() == self.transitions@[p]@.dom());
                assert(self.transitions@[p]@.contains_key(a));
            }
            if !self.alphabet_index_map@.contains_key(epsilon_name()) {
                assert forall|w: Seq<Seq<char>>| #[trigger] r.accepts_word(w) == self.accepts_word(w) by {
                    if self.over_alphabet(w) {
                        let u = self.symbol_indices(w);
                        assert(r.symbol_indices(w) == u);
                        self.lemma_epsilon_reach(&r, u);
                    }
                }
            }
        }
        r
    }

    /// Without an epsilon symbol, the automaton with epsilon transitions
    /// reaches by `u` the state of the run.
    proof fn lemma_epsilon_reach(&self, r: &ENFA, u: Seq<usize>)
        requires
            self.wf(),
            r.epsilon_index() is None,
            r.start_state == self.start_state,
            r.accept_states@ == self.accept_states@,
            forall|p: usize, a: usize| #[trigger] r.edges(p, a) == (match self.step(p, a) {
                Some(q) => set![q],
                None => Set::<usize>::empty(),
            }),
        ensures
            r.reach(u) == self.run_set(u),
            r.accepts_indices(u) == self.accepts_indices(u),
        decreases u.len(),
    {
        if u.len() == 0 {
            r.lemma_closure_none(set![r.start_state]);
        } else {
            self.lemma_epsilon_reach(r, u.drop_last());
            let prev = r.reach(u.drop_last());
            let a = u.last();
            r.lemma_closure_none(r.step(prev, a));
            assert(r.step(prev, a) =~= self.run_set(u)) by {
                match self.run(self.start_state, u.drop_last()) {
                    Some(q) => {
                        assert(r.edges(q, a) == (match self.step(q, a) {
                            Some(x) => set![x],
                            None => Set::<usize>::empty(),
                        }));
                    },
                    None => {},
                }
            }
        }
        if r.accepts_indices(u) {
            let q = choose|q: usize| #[trigger] r.reach(u).contains(q) && r.accept_states@.contains(q);
        }
        if self.accepts_indices(u) {
            let q = self.run(self.start_state, u).unwrap();
            assert(r.reach(u).contains(q));
        }
    }
}

impl NFA {
    /// The alphabet map and names of the automaton with epsilon transitions
    /// made from `self`: epsilon appended where the map lacks it.
    pub open spec fn with_epsilon_symbols(&self) -> (Map<Seq<char>, usize>, Seq<Seq<char>>) {
        if self.alphabet_index_map@.contains_key(epsilon_name()) {
            (self.alphabet_index_map@, word_of(self.alphabet@))
        } else {
            (self.alphabet_index_map@.insert(epsilon_name(), self.alphabet@.len() as usize), word_of(self.alphabet@).push(epsilon_name()))
        }
    }

    /// The same automaton with epsilon transitions: a new start state named
    /// `q0` moves without reading to the start states. Where the alphabet
    /// has no symbol named epsilon, it accepts the same words without epsilon.
    pub fn to_epsilon_automaton(&self) -> (r: ENFA)
        requires
            self.wf(),
            self.n() + 1 <= usize::MAX,
            self.alphabet@.len() + 1 <= usize::MAX,
        ensures
            r.wf(),
            r.n() == self.n() + 1,
            forall|i: int| 0 <= i < self.n() ==> #[trigger] r.states@[i] == self.states@[i],
            r.states@[self.n() as int]@ == "q0"@,
            r.state_index_map@ == self.state_index_map@.insert("q0"@, self.n() as usize),
            (r.alphabet_index_map@, word_of(r.alphabet@)) == self.with_epsilon_symbols(),
            r.start_state == self.n(),
            r.accept_states@ == self.accept_states@,
            forall|p: usize, a: usize| p < self.n() ==> #[trigger] r.edges(p, a) == self.edges(p, a),
            r.transitions@[self.n() as int]@ == map![r.alphabet_index_map@[epsilon_name()] => self.start_states@],
            !self.alphabet_index_map@.contains_key(epsilon_name()) ==> forall|w: Seq<Seq<char>>|
                (forall|i: int| 0 <= i < w.len() ==> #[trigger] w[i] != epsilon_name()) ==> (#[trigger] r.accepts_word(w) == self.accepts_word(w)),
    {
        let mut alphabet = clone_terminals(&self.alphabet);
        let mut alphabet_index_map = self.alphabet_index_map.clone();
        let ghost old_alpha = alphabet@;
        let epsilon_symbol = match self.alphabet_index_map.get(&epsilon()) {
            Some(e) => e,
            None => {
                alphabet.push(epsilon());
                let e = alphabet.len() - 1;
                alphabet_index_map.insert(epsilon(), e);
                proof {
                    assert(word_of(alphabet@) =~= word_of(old_alpha).push(epsilon_name()));
                }
                e
            },
        };
        let mut transitions: Vec<IndexSetMap> = Vec::new();
        let mut p: usize = 0;
        while p < self.transitions.len()
            invariant
                p <= self.transitions@.len(),
                transitions@.len() == p,
                forall|k: int| 0 <= k < p ==> #[trigger] transitions@[k]@ == self.transitions@[k]@,
            decreases self.transitions@.len() - p,
        {
            transitions.push(self.transitions[p].clone());
            p = p + 1;
        }
        let new_start = self.states.len();
        let mut start_row = IndexSetMap::new();
        start_row.insert(epsilon_symbol, self.start_states.clone());
        transitions.push(start_row);
        let mut states = clone_states(&self.states);
        states.push(State::new("q0"));
        let mut state_index_map = self.state_index_map.clone();
        state_index_map.insert(State::new("q0"), new_start);
        let r = ENFA::new(state_index_map, alphabet_index_map, states, alphabet, transitions, new_start, self.accept_states.clone());
        proof {
            let n = self.n();
            assert(start_row@ =~= map![epsilon_symbol => self.start_states@]);
            assert forall|p: usize, a: usize| p < self.n() implies #[trigger] r.edges(p, a) == self.edges(p, a) by {
                assert(r.transitions@[p as int] == transitions@[p as int]);
            }
            assert forall|p: int, a: usize| 0 <= p < r.transitions@.len() && #[trigger] r.transitions@[p]@.contains_key(a) implies a < r.alphabet@.len()
                && forall|q: usize| #[trigger] r.transitions@[p]@[a].contains(q) ==> q < r.states@.len() by {
                if p < n {
                    assert(r.transitions@[p] == transitions@[p]);
                    assert(self.transitions@[p]@.contains_key(a));
                }
            }
            assert forall|x: Seq<char>| #[trigger] r.alphabet_index_map@.contains_key(x) implies r.alphabet_index_map@[x] < r.alphabet@.len()
                && r.alphabet@[r.alphabet_index_map@[x] as int]@ == x by {
                if x != epsilon_name() || self.alphabet_index_map@.contains_key(epsilon_name()) {
                    assert(self.alphabet_index_map@.contains_key(x));
                    assert(r.alphabet@[self.alphabet_index_map@[x] as int] == self.alphabet@[self.alphabet_index_map@[x] as int]);
                } else {
                    assert(word_of(r.alphabet@)[self.alphabet@.len() as int] == epsilon_name());
                }
            }
            assert forall|x: Seq<char>| #[trigger] r.state_index_map@.contains_key(x) implies r.state_index_map@[x] < r.states@.len()
                && r.states@[r.state_index_map@[x] as int]@ == x by {
                if x != "q0"@ {
                    assert(self.state_index_map@.contains_key(x));
                }
            }
            if !self.alphabet_index_map@.contains_key(epsilon_name()) {
                assert forall|w: Seq<Seq<char>>| (forall|i: int| 0 <= i < w.len() ==> #[trigger] w[i] != epsilon_name())
                    implies (#[trigger] r.accepts_word(w) == self.accepts_word(w)) by {
                    assert forall|i: int| 0 <= i < w.len() implies (r.alphabet_index_map@.contains_key(#[trigger] w[i]) == self.alphabet_index_map@.contains_key(w[i])) by {
                        assert(w[i] != epsilon_name());
                    }
                    if self.over_alphabet(w) {
                        let u = self.symbol_indices(w);
                        assert(r.symbol_indices(w) =~= u) by {
                            assert forall|i: int| 0 <= i < w.len() implies r.alphabet_index_map@[#[trigger] w[i]] == self.alphabet_index_map@[w[i]] by {
                                assert(w[i] != epsilon_name());
                            }
                        }
                        assert forall|i: int| 0 <= i < u.len() implies #[trigger] u[i] != epsilon_symbol by {
                            assert(self.alphabet_index_map@.contains_key(w[i]));
                        }
                        self.lemma_epsilon_reach(&r, epsilon_symbol, u);
                    }
                }
            }
        }
        r
    }

    /// The automaton with epsilon transitions made from `self` (where `self`
    /// had no epsilon symbol) reaches by a word that does not read epsilon
    /// what `self` reaches, and at first also its new start state.
    proof fn lemma_epsilon_reach(&self, r: &ENFA, e: usize, u: Seq<usize>)
        requires
            self.wf(),
            r.wf(),
            e == self.alphabet@.len(),
            r.epsilon_index() == Some(e),
            r.n() == self.n() + 1,
            r.start_state == self.n(),
            r.accept_states@ == self.accept_states@,
            forall|p: usize, a: usize| p < self.n() ==> #[trigger] r.edges(p, a) == self.edges(p, a),
            r.transitions@[self.n() as int]@ == map![e => self.start_states@],
            forall|i: int| 0 <= i < u.len() ==> #[trigger] u[i] != e,
        ensures
            r.reach(u) == (if u.len() == 0 { self.reach(u).insert(r.start_state) } else { self.reach(u) }),
            r.accepts_indices(u) == self.accepts_indices(u),
        decreases u.len(),
    {
        let re = r.epsilon_index();
        let q0 = r.start_state;
        // no state of self moves without reading
        assert forall|p: usize| p < self.n() implies #[trigger] r.eps_edges(re, p) == Set::<usize>::empty() by {
            assert(r.edges(p, e) == self.edges(p, e));
            assert(!self.transitions@[p as int]@.contains_key(e));
        }
        assert forall|q: usize| #[trigger] self.reach(u).contains(q) implies q < self.n() by {
            self.lemma_reach_in_range(u, q);
        }
        if u.len() == 0 {
            let c = self.start_states@.insert(q0);
            assert forall|p: usize, q: usize| #![trigger c.contains(p), r.eps_edges(re, p).contains(q)]
                c.contains(p) && r.eps_edges(re, p).contains(q) implies c.contains(q) by {
                if p != q0 {
                    assert(p < self.n());
                }
            }
            assert forall|q: usize| #[trigger] r.closure(set![q0]).contains(q) == c.contains(q) by {
                if r.closure(set![q0]).contains(q) {
                    let path = choose|path: Seq<usize>| #[trigger] r.eps_path(re, path) && set![q0].contains(path[0]) && path.last() == q;
                    r.lemma_closed_holds_path(re, c, path, path.len() - 1);
                }
                if c.contains(q) {
                    if q == q0 {
                        r.lemma_closure_holds(re, set![q0], q0);
                    } else {
                        let path = seq![q0, q];
                        let z = 0int;
                        assert(r.eps_edges(re, path[z]).contains(path[z + 1]));
                        assert(r.eps_path(re, path));
                    }
                }
            }
            assert(r.reach(u) =~= c);
        } else {
            let w1 = u.drop_last();
            assert forall|i: int| 0 <= i < w1.len() implies #[trigger] w1[i] != e by {
                assert(w1[i] == u[i]);
            }
            self.lemma_epsilon_reach(r, e, w1);
            let a = u.last();
            assert(a != e) by {
                assert(u[u.len() - 1] != e);
            }
            let prev = r.reach(w1);
            let st = r.step(prev, a);
            assert(st =~= self.reach(u)) by {
                assert forall|q: usize| #[trigger] st.contains(q) == self.reach(u).contains(q) by {
                    if st.contains(q) {
                        let p = choose|p: usize| prev.contains(p) && #[trigger] r.edges(p, a).contains(q);
                        if p == q0 {
                            assert(r.edges(q0, a) == Set::<usize>::empty());
                        }
                        assert(self.edges(p, a).contains(q));
                    }
                    if self.reach(u).contains(q) {
                        let p = choose|p: usize| self.reach(w1).contains(p) && #[trigger] self.edges(p, a).contains(q);
                        assert(self.reach(w1).contains(p));
                        assert(p < self.n());
                        assert(r.edges(p, a).contains(q));
                    }
                }
            }
            // nothing more is reached without reading
            assert forall|q: usize| #[trigger] r.closure(st).contains(q) == st.contains(q) by {
                if r.closure(st).contains(q) {
                    let path = choose|path: Seq<usize>| #[trigger] r.eps_path(re, path) && st.contains(path[0]) && path.last() == q;
                    if path.len() > 1 {
                        let z = 0int;
                        assert(r.eps_edges(re, path[z]).contains(path[z + 1]));
                        assert(path[z] < self.n());
                    }
                }
                if st.contains(q) {
                    r.lemma_closure_holds(re, st, q);
                }
            }
            assert(r.reach(u) =~= st);
        }
        if r.accepts_indices(u) {
            let q = choose|q: usize| #[trigger] r.reach(u).contains(q) && r.accept_states@.contains(q);
            assert(q < self.n());
            assert(self.reach(u).contains(q));
        }
        if self.accepts_indices(u) {
            let q = choose|q: usize| #[trigger] self.reach(u).contains(q) && self.accept_states@.contains(q);
            assert(r.reach(u).contains(q));
        }
    }
}

} // verus!
