//! Nondeterministic finite automata with epsilon transitions.
use crate::collections::{IndexSet, IndexSetMap, StateIndexMap, SymbolIndexMap};
use crate::fa::nfa::NFA;
use crate::fa::state::State;
use crate::input_symbol::{epsilon, epsilon_name, InputSymbol};
use crate::language::{word_of, Language};
use vstd::prelude::*;

verus! {

/// A nondeterministic finite automaton with epsilon transitions: states and
/// symbols are numbered, every state maps symbol numbers to sets of next
/// states, and the symbol named `epsilon` moves without reading.
pub struct ENFA {
    pub state_index_map: StateIndexMap,
    pub alphabet_index_map: SymbolIndexMap,
    pub states: Vec<State>,
    pub alphabet: Vec<InputSymbol>,
    pub transitions: Vec<IndexSetMap>,
    pub start_state: usize,
    pub accept_states: IndexSet,
}

impl ENFA {
    /// The number of states.
    pub open spec fn n(&self) -> nat {
        self.states@.len()
    }

    /// The states that `p` goes to on symbol number `a`.
    pub open spec fn edges(&self, p: usize, a: usize) -> Set<usize> {
        if p < self.transitions@.len() && self.transitions@[p as int]@.contains_key(a) {
            self.transitions@[p as int]@[a]
        } else {
            Set::empty()
        }
    }

    /// The number of the epsilon symbol, where the alphabet map has it.
    pub open spec fn epsilon_index(&self) -> Option<usize> {
        if self.alphabet_index_map@.contains_key(epsilon_name()) {
            Some(self.alphabet_index_map@[epsilon_name()])
        } else {
            None
        }
    }

    /// The states that `p` goes to without reading, where `e` numbers epsilon.
    pub open spec fn eps_edges(&self, e: Option<usize>, p: usize) -> Set<usize> {
        match e {
            Some(x) => self.edges(p, x),
            None => Set::empty(),
        }
    }

    /// Whether `path` is a chain of states, each going to the next without reading.
    pub open spec fn eps_path(&self, e: Option<usize>, path: Seq<usize>) -> bool {
        &&& path.len() >= 1
        &&& forall|i: int| 0 <= i < path.len() - 1 ==> #[trigger] self.eps_edges(e, path[i]).contains(path[i + 1])
    }

    /// The states that the states of `s` reach without reading, where `e` numbers epsilon.
    pub open spec fn closure_with(&self, e: Option<usize>, s: Set<usize>) -> Set<usize> {
        Set::new(|q: usize| exists|path: Seq<usize>| #[trigger] self.eps_path(e, path) && s.contains(path[0]) && path.last() == q)
    }

    /// The states that the states of `s` reach without reading.
    pub open spec fn closure(&self, s: Set<usize>) -> Set<usize> {
        self.closure_with(self.epsilon_index(), s)
    }

    /// The states that the states of `s` go to on symbol number `a`.
    pub open spec fn step(&self, s: Set<usize>, a: usize) -> Set<usize> {
        Set::new(|q: usize| exists|p: usize| s.contains(p) && #[trigger] self.edges(p, a).contains(q))
    }

    /// The states that the start state reaches by the symbol numbers `w`,
    /// moving without reading before, between and after the symbols.
    pub open spec fn reach(&self, w: Seq<usize>) -> Set<usize>
        decreases w.len(),
    {
        if w.len() == 0 {
            self.closure(set![self.start_state])
        } else {
            self.closure(self.step(self.reach(w.drop_last()), w.last()))
        }
    }

    /// Whether the automaton accepts the word of symbol numbers `w`.
    pub open spec fn accepts_indices(&self, w: Seq<usize>) -> bool {
        exists|q: usize| #[trigger] self.reach(w).contains(q) && self.accept_states@.contains(q)
    }

    /// Whether every symbol of `w` has a number in the alphabet map.
    pub open spec fn over_alphabet(&self, w: Seq<Seq<char>>) -> bool {
        forall|i: int| 0 <= i < w.len() ==> self.alphabet_index_map@.contains_key(#[trigger] w[i])
    }

    /// The symbol numbers of the names in `w`.
    pub open spec fn symbol_indices(&self, w: Seq<Seq<char>>) -> Seq<usize> {
        w.map_values(|s: Seq<char>| self.alphabet_index_map@[s])
    }

    /// The language of the automaton: words over its alphabet whose symbol numbers it accepts.
    pub open spec fn accepts_word(&self, w: Seq<Seq<char>>) -> bool {
        self.over_alphabet(w) && self.accepts_indices(self.symbol_indices(w))
    }

    /// Well-formedness: one transition row per state, every number in range,
    /// and the name maps point at entries of that name.
    pub open spec fn wf(&self) -> bool {
        &&& self.transitions@.len() == self.states@.len()
        &&& self.start_state < self.states@.len()
        &&& forall|q: usize| #[trigger] self.accept_states@.contains(q) ==> q < self.states@.len()
        &&& forall|p: int, a: usize|
            0 <= p < self.transitions@.len() && #[trigger] self.transitions@[p]@.contains_key(a) ==> a < self.alphabet@.len()
                && forall|q: usize| #[trigger] self.transitions@[p]@[a].contains(q) ==> q < self.states@.len()
        &&& forall|s: Seq<char>| #[trigger]
            self.alphabet_index_map@.contains_key(s) ==> self.alphabet_index_map@[s] < self.alphabet@.len()
                && self.alphabet@[self.alphabet_index_map@[s] as int]@ == s
        &&& forall|s: Seq<char>| #[trigger]
            self.state_index_map@.contains_key(s) ==> self.state_index_map@[s] < self.states@.len()
                && self.states@[self.state_index_map@[s] as int]@ == s
    }

    /// The states of a well-formed automaton go to states in range.
    pub proof fn lemma_edges_in_range(&self, p: usize, a: usize, q: usize)
        requires
            self.wf(),
            self.edges(p, a).contains(q),
        ensures
            q < self.n(),
            p < self.n(),
    {
        assert(self.transitions@[p as int]@.contains_key(a));
    }

    /// Every state reaches itself without reading.
    pub proof fn lemma_closure_holds(&self, e: Option<usize>, s: Set<usize>, q: usize)
        requires
            s.contains(q),
        ensures
            self.closure_with(e, s).contains(q),
    {
        let path = seq![q];
        assert(self.eps_path(e, path));
    }

    /// A set that holds `s` and is closed under moves without reading holds
    /// the states that a chain reaches.
    pub proof fn lemma_closed_holds_path(&self, e: Option<usize>, c: Set<usize>, path: Seq<usize>, i: int)
        requires
            self.eps_path(e, path),
            c.contains(path[0]),
            0 <= i < path.len(),
            forall|p: usize, q: usize| #![trigger c.contains(p), self.eps_edges(e, p).contains(q)]
                c.contains(p) && self.eps_edges(e, p).contains(q) ==> c.contains(q),
        ensures
            c.contains(path[i]),
        decreases i,
    {
        if i > 0 {
            self.lemma_closed_holds_path(e, c, path, i - 1);
            let j = i - 1;
            assert(self.eps_edges(e, path[j]).contains(path[j + 1]));
        }
    }

    /// Without an epsilon symbol, nothing moves without reading.
    pub proof fn lemma_closure_none(&self, s: Set<usize>)
        ensures
            self.closure_with(None, s) == s,
    {
        assert forall|q: usize| #[trigger] self.closure_with(None, s).contains(q) == s.contains(q) by {
            if self.closure_with(None, s).contains(q) {
                let path = choose|path: Seq<usize>| #[trigger] self.eps_path(None, path) && s.contains(path[0]) && path.last() == q;
                if path.len() > 1 {
                    let j = 0int;
                    assert(self.eps_edges(None, path[j]).contains(path[j + 1]));
                }
            }
            if s.contains(q) {
                self.lemma_closure_holds(None, s, q);
            }
        }
        assert(self.closure_with(None, s) =~= s);
    }

    /// Creates an automaton from its parts.
    pub fn new(
        state_index_map: StateIndexMap,
        alphabet_index_map: SymbolIndexMap,
        states: Vec<State>,
        alphabet: Vec<InputSymbol>,
        transitions: Vec<IndexSetMap>,
        start_state: usize,
        accept_states: IndexSet,
    ) -> (r: Self)
        ensures
            r.state_index_map@ == state_index_map@,
            r.alphabet_index_map@ == alphabet_index_map@,
            r.states@ == states@,
            r.alphabet@ == alphabet@,
            r.transitions@ == transitions@,
            r.start_state == start_state,
            r.accept_states@ == accept_states@,
    {
        ENFA { state_index_map, alphabet_index_map, states, alphabet, transitions, start_state, accept_states }
    }

    /// The closure of the states of `states` under moves without reading,
    /// where `epsilon_index` numbers epsilon.
    pub fn _epsilon_closure(&self, states: &IndexSet, epsilon_index: Option<usize>) -> (r: IndexSet)
        requires
            self.wf(),
            forall|q: usize| #[trigger] states@.contains(q) ==> q < self.n(),
        ensures
            r@ == self.closure_with(epsilon_index, states@),
            forall|q: usize| #[trigger] r@.contains(q) ==> q < self.n(),
    {
        let mut closure = states.clone();
        if epsilon_index.is_none() {
            proof {
                self.lemma_closure_none(states@);
            }
            return closure;
        }
        let e = epsilon_index.unwrap();
        let mut stack = states.to_vec();
        let ghost mut done: Set<usize> = Set::empty();
        proof {
            crate::util::lemma_bounded_set(closure@, self.n());
            assert forall|q: usize| #[trigger] closure@.contains(q) implies self.closure_with(epsilon_index, states@).contains(q) by {
                self.lemma_closure_holds(epsilon_index, states@, q);
            }
            assert forall|q: usize| #[trigger] closure@.contains(q) implies done.contains(q) || stack@.contains(q) by {
                assert(stack@.to_set().contains(q));
            }
        }
        while stack.len() > 0
            invariant
                self.wf(),
                epsilon_index == Some(e),
                forall|q: usize| #[trigger] states@.contains(q) ==> closure@.contains(q),
                forall|q: usize| #[trigger] closure@.contains(q) ==> self.closure_with(epsilon_index, states@).contains(q) && q < self.n(),
                forall|k: int| 0 <= k < stack@.len() ==> #[trigger] closure@.contains(stack@[k]),
                forall|q: usize| #[trigger] closure@.contains(q) ==> done.contains(q) || stack@.contains(q),
                forall|p: usize, q: usize| #![trigger done.contains(p), self.edges(p, e).contains(q)]
                    done.contains(p) && self.edges(p, e).contains(q) ==> closure@.contains(q),
                forall|p: usize| #[trigger] done.contains(p) ==> closure@.contains(p),
                closure@.finite(),
                closure@.len() <= self.n(),
            decreases self.n() - closure@.len(), stack@.len(),
        {
            let ghost stack0 = stack@;
            let state = stack.pop().unwrap();
            proof {
                assert(stack0 == stack@.push(state));
                assert(stack0[stack0.len() - 1] == state);
                assert(closure@.contains(state));
            }
            let nexts = self.transitions[state].targets(e);
            proof {
                assert(nexts@.to_set() == self.edges(state, e));
            }
            let ghost c0 = closure@;
            let ghost st1 = stack@;
            let mut k: usize = 0;
            while k < nexts.len()
                invariant
                    self.wf(),
                    epsilon_index == Some(e),
                    nexts@.to_set() == self.edges(state, e),
                    c0.contains(state),
                    self.closure_with(epsilon_index, states@).contains(state),
                    k <= nexts@.len(),
                    forall|q: usize| #[trigger] closure@.contains(q) <==> c0.contains(q) || exists|k2: int| 0 <= k2 < k && nexts@[k2] == q,
                    stack@.len() >= st1.len(),
                    forall|i: int| 0 <= i < st1.len() ==> #[trigger] stack@[i] == st1[i],
                    forall|i: int| st1.len() <= i < stack@.len() ==> #[trigger] closure@.contains(stack@[i]),
                    forall|q: usize| #[trigger] closure@.contains(q) && !c0.contains(q) ==> stack@.contains(q),
                    closure@.finite(),
                    closure@.len() >= c0.len(),
                    closure@.len() == c0.len() ==> stack@.len() == st1.len(),
                decreases nexts@.len() - k,
            {
                let next_state = nexts[k];
                let ghost s1 = closure@;
                let ghost stk1 = stack@;
                if closure.insert(next_state) {
                    stack.push(next_state);
                }
                proof {
                    assert forall|q: usize| #[trigger] closure@.contains(q) <==> c0.contains(q) || exists|k2: int| 0 <= k2 < k + 1 && nexts@[k2] == q by {
                        if q == next_state {
                            assert(nexts@[k as int] == q);
                        }
                    }
                    assert forall|q: usize| #[trigger] closure@.contains(q) && !c0.contains(q) implies stack@.contains(q) by {
                        if s1.contains(q) {
                            let i = choose|i: int| 0 <= i < stk1.len() && stk1[i] == q;
                            assert(stack@[i] == q);
                        } else {
                            assert(stack@[stack@.len() - 1] == q);
                        }
                    }
                }
                k = k + 1;
            }
            proof {
                assert forall|q: usize| #[trigger] closure@.contains(q) implies self.closure_with(epsilon_index, states@).contains(q) && q < self.n() by {
                    if !c0.contains(q) {
                        let k2 = choose|k2: int| 0 <= k2 < k && nexts@[k2] == q;
                        assert(nexts@.to_set().contains(q));
                        self.lemma_edges_in_range(state, e, q);
                        let path = choose|path: Seq<usize>| #[trigger] self.eps_path(epsilon_index, path) && states@.contains(path[0]) && path.last() == state;
                        let path2 = path.push(q);
                        assert forall|i: int| 0 <= i < path2.len() - 1 implies #[trigger] self.eps_edges(epsilon_index, path2[i]).contains(path2[i + 1]) by {
                            if i < path.len() - 1 {
                                assert(path2[i] == path[i] && path2[i + 1] == path[i + 1]);
                            }
                        }
                        assert(self.eps_path(epsilon_index, path2));
                    }
                }
                done = done.insert(state);
                assert forall|q: usize| self.edges(state, e).contains(q) implies closure@.contains(q) by {
                    assert(nexts@.to_set().contains(q));
                    let k2 = choose|k2: int| 0 <= k2 < nexts@.len() && nexts@[k2] == q;
                }
                assert forall|q: usize| #[trigger] closure@.contains(q) implies done.contains(q) || stack@.contains(q) by {
                    if c0.contains(q) && !done.contains(q) {
                        assert(stack0.contains(q));
                        let i = choose|i: int| 0 <= i < stack0.len() && stack0[i] == q;
                        assert(i < st1.len());
                        assert(stack@[i] == q);
                    }
                }
                assert forall|k2: int| 0 <= k2 < stack@.len() implies #[trigger] closure@.contains(stack@[k2]) by {
                    if k2 < st1.len() {
                        assert(stack@[k2] == st1[k2]);
                        assert(st1[k2] == stack0[k2]);
                    }
                }
                crate::util::lemma_bounded_set(closure@, self.n());
            }
        }
        proof {
            assert forall|q: usize| #[trigger] self.closure_with(epsilon_index, states@).contains(q) implies closure@.contains(q) by {
                let path = choose|path: Seq<usize>| #[trigger] self.eps_path(epsilon_index, path) && states@.contains(path[0]) && path.last() == q;
                self.lemma_closed_holds_path(epsilon_index, closure@, path, path.len() - 1);
            }
            assert(closure@ =~= self.closure_with(epsilon_index, states@));
        }
        closure
    }
}

impl ENFA {
    /// Whether `self` is `old` with some states appended, each with no
    /// transitions, registered under its name, nothing else differing in the states.
    pub open spec fn grown_from(&self, old: &ENFA) -> bool {
        &&& self.states@.len() >= old.states@.len()
        &&& forall|i: int| 0 <= i < old.states@.len() ==> #[trigger] self.states@[i] == old.states@[i]
        &&& self.transitions@.len() == self.states@.len()
        &&& forall|s: Seq<char>| #[trigger] old.state_index_map@.contains_key(s) ==> self.state_index_map@.contains_key(s)
            && self.state_index_map@[s] == old.state_index_map@[s]
    }

    /// Returns the number of the state named like `state`, appending it first where it is new.
    fn intern_state(&mut self, state: &State) -> (idx: usize)
        requires
            old(self).wf(),
        ensures
            final(self).wf(),
            final(self).grown_from(old(self)),
            final(self).state_index_map@.contains_key(state@),
            idx == final(self).state_index_map@[state@],
            idx < final(self).n(),
            forall|p: usize, a: usize| #[trigger] final(self).edges(p, a) == old(self).edges(p, a),
            final(self).alphabet@ == old(self).alphabet@,
            final(self).alphabet_index_map@ == old(self).alphabet_index_map@,
            final(self).start_state == old(self).start_state,
            final(self).accept_states@ == old(self).accept_states@,
    {
        match self.state_index_map.get(state) {
            Some(idx) => idx,
            None => {
                let idx = self.states.len();
                self.states.push(state.clone());
                self.transitions.push(IndexSetMap::new());
                self.state_index_map.insert(state.clone(), idx);
                proof {
                    assert forall|p: usize, a: usize| #[trigger] self.edges(p, a) == old(self).edges(p, a) by {
                        if p == idx {
                            assert(self.transitions@[idx as int]@ == Map::<usize, Set<usize>>::empty());
                        }
                    }
                    assert forall|p: int, a: usize|
                        0 <= p < self.transitions@.len() && #[trigger] self.transitions@[p]@.contains_key(a) implies a < self.alphabet@.len()
                            && forall|q: usize| #[trigger] self.transitions@[p]@[a].contains(q) ==> q < self.states@.len() by {
                        assert(p < old(self).transitions@.len());
                        assert(self.transitions@[p] == old(self).transitions@[p]);
                    }
                }
                idx
            },
        }
    }

    /// Sets the start state, adding the state where it is new.
    pub fn set_start_state(&mut self, start_state: State)
        requires
            old(self).wf(),
        ensures
            final(self).wf(),
            final(self).grown_from(old(self)),
            final(self).state_index_map@.contains_key(start_state@),
            final(self).start_state == final(self).state_index_map@[start_state@],
            final(self).accept_states@ == old(self).accept_states@,
            forall|p: usize, a: usize| #[trigger] final(self).edges(p, a) == old(self).edges(p, a),
            final(self).alphabet@ == old(self).alphabet@,
            final(self).alphabet_index_map@ == old(self).alphabet_index_map@,
    {
        let idx = self.intern_state(&start_state);
        let ghost mid = *self;
        self.start_state = idx;
        proof {
            assert forall|p: usize, a: usize| #[trigger] self.edges(p, a) == old(self).edges(p, a) by {
                assert(self.edges(p, a) == mid.edges(p, a));
            }
        }
    }

    /// Adds an accept state, adding the state where it is new.
    pub fn add_accept_state(&mut self, accept_state: State)
        requires
            old(self).wf(),
        ensures
            final(self).wf(),
            final(self).grown_from(old(self)),
            final(self).state_index_map@.contains_key(accept_state@),
            final(self).accept_states@ == old(self).accept_states@.insert(final(self).state_index_map@[accept_state@]),
            final(self).start_state == old(self).start_state,
            forall|p: usize, a: usize| #[trigger] final(self).edges(p, a) == old(self).edges(p, a),
            final(self).alphabet@ == old(self).alphabet@,
            final(self).alphabet_index_map@ == old(self).alphabet_index_map@,
    {
        let idx = self.intern_state(&accept_state);
        let ghost mid = *self;
        self.accept_states.insert(idx);
        proof {
            assert forall|p: usize, a: usize| #[trigger] self.edges(p, a) == old(self).edges(p, a) by {
                assert(self.edges(p, a) == mid.edges(p, a));
            }
        }
    }

    /// Returns the number of `symbol`, appending it to the alphabet where it is new.
    fn intern_symbol(&mut self, symbol: &InputSymbol) -> (idx: usize)
        requires
            old(self).wf(),
        ensures
            final(self).wf(),
            idx == final(self).alphabet_index_map@[symbol@],
            final(self).alphabet_index_map@ == old(self).alphabet_index_map@.insert(symbol@, idx),
            old(self).alphabet_index_map@.contains_key(symbol@) ==> final(self).alphabet@ == old(self).alphabet@,
            !old(self).alphabet_index_map@.contains_key(symbol@) ==> final(self).alphabet@ == old(self).alphabet@.push(*symbol),
            final(self).states@ == old(self).states@,
            final(self).transitions@ == old(self).transitions@,
            final(self).state_index_map@ == old(self).state_index_map@,
            final(self).start_state == old(self).start_state,
            final(self).accept_states@ == old(self).accept_states@,
    {
        match self.alphabet_index_map.get(symbol) {
            Some(idx) => {
                assert(self.alphabet_index_map@ =~= old(self).alphabet_index_map@.insert(symbol@, idx));
                idx
            },
            None => {
                let idx = self.alphabet.len();
                self.alphabet.push(symbol.clone());
                self.alphabet_index_map.insert(symbol.clone(), idx);
                idx
            },
        }
    }

    /// Adds a transition from `from` on `symbol` to `to`, adding the states
    /// and the symbol where they are new.
    pub fn add_transition(&mut self, from: &State, symbol: &InputSymbol, to: &State)
        requires
            old(self).wf(),
        ensures
            final(self).wf(),
            final(self).grown_from(old(self)),
            final(self).state_index_map@.contains_key(from@),
            final(self).state_index_map@.contains_key(to@),
            final(self).alphabet_index_map@ == old(self).alphabet_index_map@.insert(symbol@, final(self).alphabet_index_map@[symbol@]),
            ({
                let f = final(self).state_index_map@[from@];
                let t = final(self).state_index_map@[to@];
                let a = final(self).alphabet_index_map@[symbol@];
                &&& final(self).edges(f, a) == old(self).edges(f, a).insert(t)
                &&& forall|p: usize, b: usize| (p != f || b != a) ==> #[trigger] final(self).edges(p, b) == old(self).edges(p, b)
            }),
            final(self).start_state == old(self).start_state,
            final(self).accept_states@ == old(self).accept_states@,
    {
        let from_index = self.intern_state(from);
        let ghost m1 = *self;
        let to_index = self.intern_state(to);
        let ghost m2 = *self;
        let symbol_index = self.intern_symbol(symbol);
        let ghost before = *self;
        proof {
            assert forall|p: usize, b: usize| #[trigger] before.edges(p, b) == old(self).edges(p, b) by {
                assert(before.edges(p, b) == m2.edges(p, b));
                assert(m2.edges(p, b) == m1.edges(p, b));
            }
            assert(m1.state_index_map@.contains_key(from@));
            assert(before.state_index_map@[from@] == from_index);
        }
        let mut row = self.transitions[from_index].clone();
        row.add(symbol_index, to_index);
        self.transitions.set(from_index, row);
        proof {
            assert forall|p: usize, b: usize| (p != from_index || b != symbol_index) implies #[trigger] self.edges(p, b) == before.edges(p, b) by {
                if p < self.transitions@.len() && p != from_index {
                    assert(self.transitions@[p as int] == before.transitions@[p as int]);
                }
            }
            assert(self.edges(from_index, symbol_index) =~= before.edges(from_index, symbol_index).insert(to_index));
            assert forall|p: int, a: usize|
                0 <= p < self.transitions@.len() && #[trigger] self.transitions@[p]@.contains_key(a) implies a < self.alphabet@.len()
                    && forall|q: usize| #[trigger] self.transitions@[p]@[a].contains(q) ==> q < self.states@.len() by {
                if p != from_index {
                    assert(self.transitions@[p] == before.transitions@[p]);
                } else if a != symbol_index {
                    assert(before.transitions@[p]@.contains_key(a));
                    assert(self.transitions@[p]@[a] == before.transitions@[p]@[a]);
                } else {
                    assert(self.alphabet_index_map@.contains_key(symbol@));
                    assert(symbol_index < self.alphabet@.len());
                    let old_set = if before.transitions@[p]@.contains_key(a) { before.transitions@[p]@[a] } else { Set::<usize>::empty() };
                    assert(self.transitions@[p]@[a] == old_set.insert(to_index));
                    assert forall|q: usize| #[trigger] self.transitions@[p]@[a].contains(q) implies q < self.states@.len() by {
                        if q != to_index {
                            assert(old_set.contains(q));
                            assert(before.transitions@[p]@.contains_key(a));
                        }
                    }
                }
            }
        }
    }

    /// The states that the states of `states` go to on symbol number `symbol`.
    pub fn _next_states(&self, states: &IndexSet, symbol: usize) -> (r: IndexSet)
        requires
            self.wf(),
            forall|q: usize| #[trigger] states@.contains(q) ==> q < self.n(),
        ensures
            r@ == self.step(states@, symbol),
            forall|q: usize| #[trigger] r@.contains(q) ==> q < self.n(),
    {
        let list = states.to_vec();
        let mut next_states = IndexSet::new();
        let mut i: usize = 0;
        while i < list.len()
            invariant
                self.wf(),
                list@.to_set() == states@,
                forall|q: usize| #[trigger] states@.contains(q) ==> q < self.n(),
                i <= list@.len(),
                forall|q: usize| #[trigger] next_states@.contains(q) <==> exists|k: int| 0 <= k < i && #[trigger] self.edges(list@[k], symbol).contains(q),
            decreases list@.len() - i,
        {
            let p = list[i];
            proof {
                assert(list@.to_set().contains(p));
            }
            let targets = self.transitions[p].targets(symbol);
            proof {
                assert(targets@.to_set() == self.edges(p, symbol));
            }
            let ghost n0 = next_states@;
            let mut k: usize = 0;
            while k < targets.len()
                invariant
                    k <= targets@.len(),
                    forall|q: usize| #[trigger] next_states@.contains(q) <==> n0.contains(q) || exists|k2: int| 0 <= k2 < k && targets@[k2] == q,
                decreases targets@.len() - k,
            {
                next_states.insert(targets[k]);
                proof {
                    assert forall|q: usize| #[trigger] next_states@.contains(q) <==> n0.contains(q) || exists|k2: int| 0 <= k2 < k + 1 && targets@[k2] == q by {
                        if q == targets@[k as int] {
                            assert(exists|k2: int| 0 <= k2 < k + 1 && targets@[k2] == q);
                        }
                    }
                }
                k = k + 1;
            }
            proof {
                assert forall|q: usize| #[trigger] next_states@.contains(q) <==> exists|k2: int| 0 <= k2 < i + 1 && #[trigger] self.edges(list@[k2], symbol).contains(q) by {
                    if next_states@.contains(q) && !n0.contains(q) {
                        let k2 = choose|k2: int| 0 <= k2 < k && targets@[k2] == q;
                        assert(targets@.to_set().contains(q));
                        assert(self.edges(list@[i as int], symbol).contains(q));
                    }
                    if self.edges(list@[i as int], symbol).contains(q) {
                        assert(targets@.to_set().contains(q));
                        let k2 = choose|k2: int| 0 <= k2 < targets@.len() && targets@[k2] == q;
                    }
                }
            }
            i = i + 1;
        }
        proof {
            assert forall|q: usize| #[trigger] next_states@.contains(q) == self.step(states@, symbol).contains(q) by {
                if next_states@.contains(q) {
                    let k = choose|k: int| 0 <= k < list@.len() && #[trigger] self.edges(list@[k], symbol).contains(q);
                    assert(list@.to_set().contains(list@[k]));
                }
                if self.step(states@, symbol).contains(q) {
                    let p = choose|p: usize| states@.contains(p) && #[trigger] self.edges(p, symbol).contains(q);
                    assert(list@.to_set().contains(p));
                    let k = choose|k: int| 0 <= k < list@.len() && list@[k] == p;
                    assert(self.edges(list@[k], symbol).contains(q));
                }
            }
            assert(next_states@ =~= self.step(states@, symbol));
            assert forall|q: usize| #[trigger] next_states@.contains(q) implies q < self.n() by {
                let p = choose|p: usize| states@.contains(p) && #[trigger] self.edges(p, symbol).contains(q);
                self.lemma_edges_in_range(p, symbol, q);
            }
        }
        next_states
    }

    /// The automaton with the one state `0` and nothing else.
    pub fn empty() -> (r: Self)
        ensures
            r.wf(),
            r.n() == 1,
            r.start_state == 0,
            r.alphabet@.len() == 0,
            r.accept_states@ == Set::<usize>::empty(),
            forall|p: usize, a: usize| #[trigger] r.edges(p, a) == Set::<usize>::empty(),
    {
        let mut state_index_map = StateIndexMap::new();
        state_index_map.insert(State::new("0"), 0);
        let mut states: Vec<State> = Vec::new();
        states.push(State::new("0"));
        let mut transitions: Vec<IndexSetMap> = Vec::new();
        transitions.push(IndexSetMap::new());
        let r = ENFA {
            state_index_map,
            alphabet_index_map: SymbolIndexMap::new(),
            states,
            alphabet: Vec::new(),
            transitions,
            start_state: 0,
            accept_states: IndexSet::new(),
        };
        proof {
            assert(r.alphabet_index_map@ == Map::<Seq<char>, usize>::empty());
            assert forall|s: Seq<char>| #[trigger] r.state_index_map@.contains_key(s) implies r.state_index_map@[s] < r.states@.len() && r.states@[r.state_index_map@[s] as int]@ == s by {
                reveal_strlit("0");
            }
            assert forall|p: usize, a: usize| #[trigger] r.edges(p, a) == Set::<usize>::empty() by {
                if p < r.transitions@.len() {
                    assert(r.transitions@[p as int]@ == Map::<usize, Set<usize>>::empty());
                }
            }
        }
        r
    }
}

impl ENFA {
    /// The number of the epsilon symbol, where the alphabet map has it.
    pub fn get_epsilon_index(&self) -> (r: Option<usize>)
        ensures
            r == self.epsilon_index(),
    {
        let e = epsilon();
        self.alphabet_index_map.get(&e)
    }

    /// The set holding the state `q` alone.
    pub(crate) fn singleton(q: usize) -> (r: IndexSet)
        ensures
            r@ == set![q],
    {
        let mut r = IndexSet::new();
        r.insert(q);
        assert(r@ =~= set![q]);
        r
    }
}

impl Language for ENFA {
    open spec fn ready(&self) -> bool {
        self.wf()
    }

    open spec fn language(&self, w: Seq<Seq<char>>) -> bool {
        self.accepts_word(w)
    }

    fn accepts(&self, input: &Vec<InputSymbol>) -> (r: bool) {
        let ghost w = word_of(input@);
        let epsilon_index = self.get_epsilon_index();
        let mut current_states = self._epsilon_closure(&ENFA::singleton(self.start_state), epsilon_index);
        let mut i: usize = 0;
        proof {
            assert(w.take(0) =~= Seq::<Seq<char>>::empty());
            assert(self.symbol_indices(w.take(0)) =~= Seq::<usize>::empty());
        }
        while i < input.len()
            invariant
                self.wf(),
                epsilon_index == self.epsilon_index(),
                w == word_of(input@),
                i <= input@.len(),
                self.over_alphabet(w.take(i as int)),
                current_states@ == self.reach(self.symbol_indices(w.take(i as int))),
                forall|q: usize| #[trigger] current_states@.contains(q) ==> q < self.n(),
            decreases input@.len() - i,
        {
            match self.alphabet_index_map.get(&input[i]) {
                Some(symbol_index) => {
                    let ghost u = self.symbol_indices(w.take(i as int));
                    let next = self._next_states(&current_states, symbol_index);
                    current_states = self._epsilon_closure(&next, epsilon_index);
                    proof {
                        assert(w[i as int] == input@[i as int]@);
                        assert(w.take(i + 1).drop_last() =~= w.take(i as int));
                        assert(self.symbol_indices(w.take(i + 1)) =~= u.push(symbol_index));
                        assert(u.push(symbol_index).drop_last() =~= u);
                    }
                    i = i + 1;
                },
                None => {
                    proof {
                        assert(w[i as int] == input@[i as int]@);
                        assert(!self.over_alphabet(w));
                    }
                    return false;
                },
            }
        }
        proof {
            assert(w.take(input@.len() as int) =~= w);
        }
        let list = current_states.to_vec();
        let mut k: usize = 0;
        while k < list.len()
            invariant
                k <= list@.len(),
                list@.to_set() == current_states@,
                current_states@ == self.reach(self.symbol_indices(w)),
                self.over_alphabet(w),
                w == word_of(input@),
                forall|k2: int| 0 <= k2 < k ==> !self.accept_states@.contains(#[trigger] list@[k2]),
            decreases list@.len() - k,
        {
            if self.accept_states.contains(list[k]) {
                proof {
                    assert(list@.to_set().contains(list@[k as int]));
                }
                return true;
            }
            k = k + 1;
        }
        proof {
            assert forall|q: usize| #[trigger] self.reach(self.symbol_indices(w)).contains(q) implies !self.accept_states@.contains(q) by {
                assert(list@.to_set().contains(q));
                let k2 = choose|k2: int| 0 <= k2 < list@.len() && list@[k2] == q;
            }
        }
        false
    }
}

/// The states that a row maps symbol number `a` to.
pub open spec fn row_edges(row: Map<usize, Set<usize>>, a: usize) -> Set<usize> {
    if row.contains_key(a) {
        row[a]
    } else {
        Set::empty()
    }
}

impl ENFA {
    /// The states that the states `s` reaches without reading go to on symbol number `a`.
    pub open spec fn merged(&self, s: usize, a: usize) -> Set<usize> {
        Set::new(|q: usize| exists|c: usize| self.closure(set![s]).contains(c) && #[trigger] self.edges(c, a).contains(q))
    }

    /// Whether state `s` reaches an accept state without reading.
    pub open spec fn closure_accepts(&self, s: usize) -> bool {
        exists|c: usize| #[trigger] self.closure(set![s]).contains(c) && self.accept_states@.contains(c)
    }

    /// The transitions of state `s` once moves without reading are folded
    /// in, and whether `s` reaches an accept state without reading.
    fn merged_row(&self, s: usize, epsilon_index: Option<usize>) -> (r: (IndexSetMap, bool))
        requires
            self.wf(),
            s < self.n(),
            epsilon_index == self.epsilon_index(),
        ensures
            forall|a: usize| #[trigger] row_edges(r.0@, a) == (if epsilon_index == Some(a) { Set::<usize>::empty() } else { self.merged(s, a) }),
            forall|a: usize| #[trigger] r.0@.contains_key(a) ==> a < self.alphabet@.len() && epsilon_index != Some(a)
                && forall|q: usize| #[trigger] r.0@[a].contains(q) ==> q < self.n(),
            r.1 == self.closure_accepts(s),
    {
        let closure = self._epsilon_closure(&ENFA::singleton(s), epsilon_index);
        let list = closure.to_vec();
        let mut row = IndexSetMap::new();
        let mut hits = false;
        let mut k: usize = 0;
        while k < list.len()
            invariant
                self.wf(),
                epsilon_index == self.epsilon_index(),
                list@.to_set() == self.closure(set![s]),
                forall|q: usize| #[trigger] closure@.contains(q) ==> q < self.n(),
                closure@ == self.closure(set![s]),
                k <= list@.len(),
                forall|a: usize| #[trigger] row_edges(row@, a) == (if epsilon_index == Some(a) { Set::<usize>::empty() } else {
                    Set::new(|q: usize| exists|k2: int| 0 <= k2 < k && #[trigger] self.edges(list@[k2], a).contains(q))
                }),
                forall|a: usize| #[trigger] row@.contains_key(a) ==> a < self.alphabet@.len() && epsilon_index != Some(a)
                    && forall|q: usize| #[trigger] row@[a].contains(q) ==> q < self.n(),
                hits <==> exists|k2: int| 0 <= k2 < k && self.accept_states@.contains(#[trigger] list@[k2]),
            decreases list@.len() - k,
        {
            let c = list[k];
            proof {
                assert(list@.to_set().contains(c));
            }
            let keys = self.transitions[c].keys();
            let ghost row0 = row@;
            let mut t: usize = 0;
            while t < keys.len()
                invariant
                    self.wf(),
                    c < self.n(),
                    keys@.to_set() == self.transitions@[c as int]@.dom(),
                    t <= keys@.len(),
                    forall|a: usize| #[trigger] row_edges(row@, a) == (if epsilon_index == Some(a) { Set::<usize>::empty() } else {
                        row_edges(row0, a).union(if exists|t2: int| 0 <= t2 < t && keys@[t2] == a { self.edges(c, a) } else { Set::<usize>::empty() })
                    }),
                    forall|a: usize| #[trigger] row@.contains_key(a) ==> a < self.alphabet@.len() && epsilon_index != Some(a)
                        && forall|q: usize| #[trigger] row@[a].contains(q) ==> q < self.n(),
                    keys@.no_duplicates(),
                decreases keys@.len() - t,
            {
                let sym = keys[t];
                proof {
                    assert(keys@.to_set().contains(sym));
                }
                if epsilon_index == Some(sym) {
                    t = t + 1;
                    proof {
                        assert forall|a: usize| #[trigger] row_edges(row@, a) == (if epsilon_index == Some(a) { Set::<usize>::empty() } else {
                            row_edges(row0, a).union(if exists|t2: int| 0 <= t2 < t && keys@[t2] == a { self.edges(c, a) } else { Set::<usize>::empty() })
                        }) by {
                            if a != sym && exists|t2: int| 0 <= t2 < t && keys@[t2] == a {
                                let t2 = choose|t2: int| 0 <= t2 < t && keys@[t2] == a;
                                assert(t2 < t - 1);
                            }
                        }
                    }
                    continue;
                }
                let targets = self.transitions[c].targets(sym);
                proof {
                    assert(targets@.to_set() == self.edges(c, sym));
                }
                let ghost row1 = row@;
                let mut x: usize = 0;
                while x < targets.len()
                    invariant
                        self.wf(),
                        c < self.n(),
                        targets@.to_set() == self.edges(c, sym),
                        epsilon_index != Some(sym),
                        sym < self.alphabet@.len(),
                        x <= targets@.len(),
                        forall|a: usize| a != sym ==> #[trigger] row_edges(row@, a) == row_edges(row1, a),
                        row_edges(row@, sym) == row_edges(row1, sym).union(Set::new(|q: usize| exists|x2: int| 0 <= x2 < x && targets@[x2] == q)),
                        forall|a: usize| #[trigger] row@.contains_key(a) ==> a < self.alphabet@.len() && epsilon_index != Some(a)
                            && forall|q: usize| #[trigger] row@[a].contains(q) ==> q < self.n(),
                    decreases targets@.len() - x,
                {
                    let tq = targets[x];
                    proof {
                        assert(targets@.to_set().contains(tq));
                        self.lemma_edges_in_range(c, sym, tq);
                    }
                    let ghost row2 = row@;
                    row.add(sym, tq);
                    proof {
                        assert forall|a: usize| a != sym implies #[trigger] row_edges(row@, a) == row_edges(row1, a) by {
                            assert(row_edges(row@, a) == row_edges(row2, a));
                        }
                        assert(row_edges(row@, sym) =~= row_edges(row1, sym).union(Set::new(|q: usize| exists|x2: int| 0 <= x2 < x + 1 && targets@[x2] == q)));
                        assert forall|a: usize| #[trigger] row@.contains_key(a) implies a < self.alphabet@.len() && epsilon_index != Some(a)
                            && forall|q: usize| #[trigger] row@[a].contains(q) ==> q < self.n() by {
                            if a == sym {
                                assert forall|q: usize| #[trigger] row@[a].contains(q) implies q < self.n() by {
                                    if q != tq {
                                        assert(row2.contains_key(a) && row2[a].contains(q));
                                    }
                                }
                            }
                        }
                    }
                    x = x + 1;
                }
                proof {
                    assert(Set::new(|q: usize| exists|x2: int| 0 <= x2 < targets@.len() && targets@[x2] == q) =~= self.edges(c, sym));
                    assert forall|a: usize| #[trigger] row_edges(row@, a) == (if epsilon_index == Some(a) { Set::<usize>::empty() } else {
                        row_edges(row0, a).union(if exists|t2: int| 0 <= t2 < t + 1 && keys@[t2] == a { self.edges(c, a) } else { Set::<usize>::empty() })
                    }) by {
                        if a == sym {
                            assert(keys@[t as int] == a);
                            if epsilon_index != Some(a) {
                                if exists|t2: int| 0 <= t2 < t && keys@[t2] == a {
                                    let t2 = choose|t2: int| 0 <= t2 < t && keys@[t2] == a;
                                    assert(keys@[t2] == keys@[t as int]);
                                }
                                assert(row_edges(row@, a) =~= row_edges(row0, a).union(self.edges(c, a)));
                            }
                        } else if exists|t2: int| 0 <= t2 < t + 1 && keys@[t2] == a {
                            let t2 = choose|t2: int| 0 <= t2 < t + 1 && keys@[t2] == a;
                            assert(t2 < t);
                        }
                    }
                }
                t = t + 1;
            }
            if self.accept_states.contains(c) {
                hits = true;
            }
            proof {
                assert forall|a: usize| #[trigger] row_edges(row@, a) == (if epsilon_index == Some(a) { Set::<usize>::empty() } else {
                    Set::new(|q: usize| exists|k2: int| 0 <= k2 < k + 1 && #[trigger] self.edges(list@[k2], a).contains(q))
                }) by {
                    if epsilon_index != Some(a) {
                        let prev = Set::new(|q: usize| exists|k2: int| 0 <= k2 < k && #[trigger] self.edges(list@[k2], a).contains(q));
                        let cur = Set::new(|q: usize| exists|k2: int| 0 <= k2 < k + 1 && #[trigger] self.edges(list@[k2], a).contains(q));
                        assert(row_edges(row0, a) == prev);
                        let added = if exists|t2: int| 0 <= t2 < keys@.len() && keys@[t2] == a { self.edges(c, a) } else { Set::<usize>::empty() };
                        assert(added == self.edges(c, a)) by {
                            if !(exists|t2: int| 0 <= t2 < keys@.len() && keys@[t2] == a) {
                                if self.transitions@[c as int]@.contains_key(a) {
                                    assert(keys@.to_set().contains(a));
                                    let t2 = choose|t2: int| 0 <= t2 < keys@.len() && keys@[t2] == a;
                                }
                                assert(self.edges(c, a) =~= Set::<usize>::empty());
                            }
                        }
                        assert forall|q: usize| cur.contains(q) == prev.union(self.edges(c, a)).contains(q) by {
                            if cur.contains(q) {
                                let k2 = choose|k2: int| 0 <= k2 < k + 1 && #[trigger] self.edges(list@[k2], a).contains(q);
                                if k2 < k {
                                    assert(prev.contains(q));
                                }
                            }
                            if prev.contains(q) {
                                let k2 = choose|k2: int| 0 <= k2 < k && #[trigger] self.edges(list@[k2], a).contains(q);
                                assert(cur.contains(q));
                            }
                            if self.edges(c, a).contains(q) {
                                assert(self.edges(list@[k as int], a).contains(q));
                                assert(cur.contains(q));
                            }
                        }
                        assert(cur =~= prev.union(self.edges(c, a)));
                    }
                }
            }
            k = k + 1;
        }
        proof {
            assert forall|a: usize| #[trigger] row_edges(row@, a) == (if epsilon_index == Some(a) { Set::<usize>::empty() } else { self.merged(s, a) }) by {
                if epsilon_index != Some(a) {
                    let got = Set::new(|q: usize| exists|k2: int| 0 <= k2 < list@.len() && #[trigger] self.edges(list@[k2], a).contains(q));
                    assert forall|q: usize| got.contains(q) == self.merged(s, a).contains(q) by {
                        if got.contains(q) {
                            let k2 = choose|k2: int| 0 <= k2 < list@.len() && #[trigger] self.edges(list@[k2], a).contains(q);
                            assert(list@.to_set().contains(list@[k2]));
                        }
                        if self.merged(s, a).contains(q) {
                            let c = choose|c: usize| self.closure(set![s]).contains(c) && #[trigger] self.edges(c, a).contains(q);
                            assert(list@.to_set().contains(c));
                            let k2 = choose|k2: int| 0 <= k2 < list@.len() && list@[k2] == c;
                            assert(self.edges(list@[k2], a).contains(q));
                        }
                    }
                    assert(got =~= self.merged(s, a));
                }
            }
            if hits {
                let k2 = choose|k2: int| 0 <= k2 < list@.len() && self.accept_states@.contains(#[trigger] list@[k2]);
                assert(list@.to_set().contains(list@[k2]));
            }
            if self.closure_accepts(s) {
                let c = choose|c: usize| #[trigger] self.closure(set![s]).contains(c) && self.accept_states@.contains(c);
                assert(list@.to_set().contains(c));
                let k2 = choose|k2: int| 0 <= k2 < list@.len() && list@[k2] == c;
                assert(self.accept_states@.contains(list@[k2]));
            }
        }
        (row, hits)
    }
}

/// Whether no symbol number of `u` is `e`.
pub open spec fn avoids(u: Seq<usize>, e: Option<usize>) -> bool {
    forall|i: int| 0 <= i < u.len() ==> e != Some(#[trigger] u[i])
}

impl ENFA {
    /// Two chains joined end to start make a chain.
    pub proof fn lemma_path_join(&self, e: Option<usize>, p1: Seq<usize>, p2: Seq<usize>)
        requires
            self.eps_path(e, p1),
            self.eps_path(e, p2),
            p1.last() == p2[0],
        ensures
            self.eps_path(e, p1 + p2.drop_first()),
            (p1 + p2.drop_first())[0] == p1[0],
            (p1 + p2.drop_first()).last() == p2.last(),
    {
        let j = p1 + p2.drop_first();
        assert forall|i: int| 0 <= i < j.len() - 1 implies #[trigger] self.eps_edges(e, j[i]).contains(j[i + 1]) by {
            if i < p1.len() - 1 {
                assert(j[i] == p1[i] && j[i + 1] == p1[i + 1]);
            } else {
                let k = i - (p1.len() - 1);
                assert(j[i] == p2[k]);
                assert(j[i + 1] == p2[k + 1]);
            }
        }
        if p2.len() > 1 {
            assert(j.last() == p2.last());
        }
    }

    /// Closing twice is closing once.
    pub proof fn lemma_closure_idem(&self, s: Set<usize>)
        ensures
            self.closure(self.closure(s)) == self.closure(s),
    {
        let e = self.epsilon_index();
        assert forall|q: usize| #[trigger] self.closure(self.closure(s)).contains(q) == self.closure(s).contains(q) by {
            if self.closure(self.closure(s)).contains(q) {
                let p2 = choose|path: Seq<usize>| #[trigger] self.eps_path(e, path) && self.closure(s).contains(path[0]) && path.last() == q;
                let p1 = choose|path: Seq<usize>| #[trigger] self.eps_path(e, path) && s.contains(path[0]) && path.last() == p2[0];
                self.lemma_path_join(e, p1, p2);
            }
            if self.closure(s).contains(q) {
                self.lemma_closure_holds(e, self.closure(s), q);
            }
        }
        assert(self.closure(self.closure(s)) =~= self.closure(s));
    }

    /// A state is in the closure of a set exactly when it is in the closure
    /// of one of its states.
    pub proof fn lemma_closure_of_one(&self, s: Set<usize>, q: usize)
        ensures
            self.closure(s).contains(q) <==> exists|p: usize| s.contains(p) && #[trigger] self.closure(set![p]).contains(q),
    {
        let e = self.epsilon_index();
        if self.closure(s).contains(q) {
            let path = choose|path: Seq<usize>| #[trigger] self.eps_path(e, path) && s.contains(path[0]) && path.last() == q;
            assert(set![path[0]].contains(path[0]));
            assert(self.closure(set![path[0]]).contains(q));
        }
        if exists|p: usize| s.contains(p) && #[trigger] self.closure(set![p]).contains(q) {
            let p = choose|p: usize| s.contains(p) && #[trigger] self.closure(set![p]).contains(q);
            let path = choose|path: Seq<usize>| #[trigger] self.eps_path(e, path) && set![p].contains(path[0]) && path.last() == q;
            assert(self.closure(s).contains(q));
        }
    }

    /// The closures of the sets that an automaton without moves that read
    /// nothing reaches, when each of its states takes the moves of its closure,
    /// are the sets that this automaton reaches.
    pub proof fn lemma_folded_reach(&self, nfa: NFA, u: Seq<usize>)
        requires
            self.wf(),
            nfa.wf(),
            nfa.n() == self.n(),
            nfa.start_states@ == self.closure(set![self.start_state]),
            forall|p: usize, a: usize| p < self.n() && self.epsilon_index() != Some(a) ==> #[trigger] nfa.edges(p, a) == self.merged(p, a),
            avoids(u, self.epsilon_index()),
        ensures
            self.closure(nfa.reach(u)) == self.reach(u),
        decreases u.len(),
    {
        if u.len() == 0 {
            self.lemma_closure_idem(set![self.start_state]);
        } else {
            let u0 = u.drop_last();
            let a = u.last();
            assert(avoids(u0, self.epsilon_index()));
            assert(self.epsilon_index() != Some(u[u.len() - 1]));
            self.lemma_folded_reach(nfa, u0);
            let x = nfa.reach(u0);
            assert(nfa.reach(u) == nfa.next_set(x, a));
            assert forall|q: usize| #[trigger] nfa.next_set(x, a).contains(q) == self.step(self.reach(u0), a).contains(q) by {
                if nfa.next_set(x, a).contains(q) {
                    let p = choose|p: usize| x.contains(p) && #[trigger] nfa.edges(p, a).contains(q);
                    nfa.lemma_edges_in_range(p, a, q);
                    assert(self.merged(p, a).contains(q));
                    let c = choose|c: usize| self.closure(set![p]).contains(c) && #[trigger] self.edges(c, a).contains(q);
                    self.lemma_closure_of_one(x, c);
                    assert(self.closure(x).contains(c));
                }
                if self.step(self.reach(u0), a).contains(q) {
                    let c = choose|c: usize| self.reach(u0).contains(c) && #[trigger] self.edges(c, a).contains(q);
                    assert(self.closure(x).contains(c));
                    self.lemma_closure_of_one(x, c);
                    let p = choose|p: usize| x.contains(p) && #[trigger] self.closure(set![p]).contains(c);
                    let w = u0;
                    if w.len() == 0 {
                        assert(nfa.start_states@.contains(p));
                    } else {
                        assert(nfa.next_set(nfa.reach(w.drop_last()), w.last()).contains(p));
                        let pp = choose|pp: usize| nfa.reach(w.drop_last()).contains(pp) && #[trigger] nfa.edges(pp, w.last()).contains(p);
                        nfa.lemma_edges_in_range(pp, w.last(), p);
                    }
                    assert(self.merged(p, a).contains(q));
                    assert(nfa.edges(p, a).contains(q));
                }
            }
            assert(nfa.next_set(x, a) =~= self.step(self.reach(u0), a));
        }
    }

    /// The same automaton without moves that read nothing: every state takes
    /// the moves of the states it reaches without reading, the start states
    /// are those the start state reaches without reading, and a state
    /// accepts when it reaches an accept state without reading. It accepts
    /// the same words that do not use the epsilon symbol.
    pub fn remove_epsilon_transitions(&self) -> (r: NFA)
        requires
            self.wf(),
        ensures
            r.wf(),
            r.states@ == self.states@,
            r.alphabet@ == self.alphabet@,
            r.alphabet_index_map@ == self.alphabet_index_map@.remove(epsilon_name()),
            r.start_states@ == self.closure(set![self.start_state]),
            forall|p: usize, a: usize| p < self.n() && self.epsilon_index() != Some(a) ==> #[trigger] r.edges(p, a) == self.merged(p, a),
            forall|q: usize| #[trigger] r.accept_states@.contains(q) <==> q < self.n() && self.closure_accepts(q),
            forall|u: Seq<usize>| avoids(u, self.epsilon_index()) ==> (#[trigger] r.accepts_indices(u) <==> self.accepts_indices(u)),
            forall|w: Seq<Seq<char>>| (forall|i: int| 0 <= i < w.len() ==> #[trigger] w[i] != epsilon_name())
                ==> (#[trigger] r.accepts_word(w) <==> self.accepts_word(w)),
    {
        let epsilon_index = self.get_epsilon_index();
        let start_states = self._epsilon_closure(&ENFA::singleton(self.start_state), epsilon_index);
        let mut final_states = self.accept_states.clone();
        let mut new_transitions: Vec<IndexSetMap> = Vec::new();
        let mut state: usize = 0;
        while state < self.states.len()
            invariant
                self.wf(),
                epsilon_index == self.epsilon_index(),
                state <= self.n(),
                new_transitions@.len() == state,
                forall|p: int, a: usize| 0 <= p < state && self.epsilon_index() != Some(a) ==> #[trigger] row_edges(new_transitions@[p]@, a) == self.merged(p as usize, a),
                forall|p: int, a: usize| 0 <= p < state && #[trigger] new_transitions@[p]@.contains_key(a) ==> a < self.alphabet@.len() && epsilon_index != Some(a)
                    && forall|q: usize| #[trigger] new_transitions@[p]@[a].contains(q) ==> q < self.n(),
                forall|q: usize| #[trigger] final_states@.contains(q) <==> self.accept_states@.contains(q) || (q < state && self.closure_accepts(q)),
            decreases self.n() - state,
        {
            let (row, hits) = self.merged_row(state, epsilon_index);
            new_transitions.push(row);
            if hits {
                final_states.insert(state);
            }
            proof {
                assert forall|p: int, a: usize| 0 <= p < state + 1 && self.epsilon_index() != Some(a) implies #[trigger] row_edges(new_transitions@[p]@, a) == self.merged(p as usize, a) by {
                    if p == state {
                        assert(row_edges(row@, a) == self.merged(state, a));
                    }
                }
            }
            state = state + 1;
        }
        let mut alphabet_index_map = self.alphabet_index_map.clone();
        alphabet_index_map.remove(&epsilon());
        let r = NFA::new(
            self.state_index_map.clone(),
            alphabet_index_map,
            crate::fa::state::clone_states(&self.states),
            crate::cfg::cfg::clone_terminals(&self.alphabet),
            new_transitions,
            start_states,
            final_states,
        );
        proof {
            assert forall|p: usize, a: usize| p < self.n() && self.epsilon_index() != Some(a) implies #[trigger] r.edges(p, a) == self.merged(p, a) by {
                assert(row_edges(new_transitions@[p as int]@, a) == self.merged(p, a));
            }
            assert forall|q: usize| #[trigger] r.accept_states@.contains(q) <==> q < self.n() && self.closure_accepts(q) by {
                if self.accept_states@.contains(q) {
                    self.lemma_closure_holds(self.epsilon_index(), set![q], q);
                    assert(self.closure(set![q]).contains(q));
                }
            }
            assert forall|u: Seq<usize>| avoids(u, self.epsilon_index()) implies (#[trigger] r.accepts_indices(u) <==> self.accepts_indices(u)) by {
                self.lemma_folded_reach(r, u);
                let x = r.reach(u);
                if r.accepts_indices(u) {
                    let q = choose|q: usize| #[trigger] x.contains(q) && r.accept_states@.contains(q);
                    let c = choose|c: usize| #[trigger] self.closure(set![q]).contains(c) && self.accept_states@.contains(c);
                    self.lemma_closure_of_one(x, c);
                    assert(self.reach(u).contains(c));
                }
                if self.accepts_indices(u) {
                    let c = choose|c: usize| #[trigger] self.reach(u).contains(c) && self.accept_states@.contains(c);
                    assert(self.closure(x).contains(c));
                    self.lemma_closure_of_one(x, c);
                    let p = choose|p: usize| x.contains(p) && #[trigger] self.closure(set![p]).contains(c);
                    r.lemma_reach_in_range(u, p);
                    assert(self.closure_accepts(p));
                    assert(r.accept_states@.contains(p));
                }
            }
            assert forall|w: Seq<Seq<char>>| (forall|i: int| 0 <= i < w.len() ==> #[trigger] w[i] != epsilon_name())
                implies (#[trigger] r.accepts_word(w) <==> self.accepts_word(w)) by {
                assert forall|i: int| 0 <= i < w.len() implies (r.alphabet_index_map@.contains_key(#[trigger] w[i]) == self.alphabet_index_map@.contains_key(w[i])) by {
                    assert(w[i] != epsilon_name());
                }
                if self.over_alphabet(w) {
                    assert(r.symbol_indices(w) =~= self.symbol_indices(w)) by {
                        assert forall|i: int| 0 <= i < w.len() implies r.alphabet_index_map@[#[trigger] w[i]] == self.alphabet_index_map@[w[i]] by {
                            assert(w[i] != epsilon_name());
                        }
                    }
                    let u = self.symbol_indices(w);
                    assert forall|i: int| 0 <= i < u.len() implies self.epsilon_index() != Some(#[trigger] u[i]) by {
                        assert(w[i] != epsilon_name());
                        if self.epsilon_index() == Some(u[i]) {
                            assert(self.alphabet_index_map@.contains_key(w[i]));
                            assert(self.alphabet@[u[i] as int]@ == w[i]);
                            assert(self.alphabet@[u[i] as int]@ == epsilon_name());
                        }
                    }
                }
            }
        }
        r
    }
}

} // verus!
