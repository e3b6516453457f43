//! Deterministic finite automata.
use crate::collections::{FxIndexSet, IndexMap, IndexPairMap, IndexSet, PairParentMap, PairSet, StateIndexMap, StateSet, SymbolIndexMap};
use crate::fa::state::State;
use crate::input_symbol::{bytes_word, same_symbol, InputSymbol};
use crate::language::{bytes_to_symbols, word_of, Language};
use crate::text::push_char;
use crate::util::{lemma_bounded_pair_set, lemma_bounded_set, lemma_pair_index_bound, lemma_pair_index_injective, lemma_pair_index_split};
use vstd::prelude::*;

verus! {

/// A deterministic finite automaton. States and symbols are numbered by
/// their positions in `states` and `alphabet`; `transitions[p]` maps a
/// symbol number to the state that `p` goes to on it.
pub struct DFA {
    pub state_index_map: StateIndexMap,
    pub alphabet_index_map: SymbolIndexMap,
    pub states: Vec<State>,
    pub alphabet: Vec<InputSymbol>,
    pub transitions: Vec<IndexMap>,
    pub start_state: usize,
    pub accept_states: IndexSet,
}

impl DFA {
    /// The number of states.
    pub open spec fn n(&self) -> nat {
        self.states@.len()
    }

    /// The transitions out of state `p`, by symbol number.
    pub open spec fn row(&self, p: int) -> Map<usize, usize> {
        self.transitions@[p]@
    }

    /// Well-formedness: one transition row per state, every number in range,
    /// and the name maps point at entries of that name.
    pub open spec fn wf(&self) -> bool {
        &&& self.transitions@.len() == self.states@.len()
        &&& self.start_state < self.states@.len()
        &&& forall|q: usize| #[trigger] self.accept_states@.contains(q) ==> q < self.states@.len()
        &&& forall|p: int, a: usize|
            0 <= p < self.transitions@.len() && #[trigger] self.transitions@[p]@.contains_key(a) ==> a
                < self.alphabet@.len() && self.transitions@[p]@[a] < self.states@.len()
        &&& forall|s: Seq<char>| #[trigger]
            self.alphabet_index_map@.contains_key(s) ==> self.alphabet_index_map@[s]
                < self.alphabet@.len() && self.alphabet@[self.alphabet_index_map@[s] as int]@ == s
        &&& forall|s: Seq<char>| #[trigger]
            self.state_index_map@.contains_key(s) ==> self.state_index_map@[s] < self.states@.len()
                && self.states@[self.state_index_map@[s] as int]@ == s
    }

    /// Every symbol number that a transition uses is the number that the
    /// symbol's name maps to (so that transitions can be taken by name).
    pub open spec fn symbols_mapped(&self) -> bool {
        forall|p: int, a: usize|
            0 <= p < self.transitions@.len() && #[trigger] self.transitions@[p]@.contains_key(a)
                ==> self.alphabet_index_map@.contains_key(self.alphabet@[a as int]@)
                && self.alphabet_index_map@[self.alphabet@[a as int]@] == a
    }

    /// Every entry of the alphabet is the one that its name maps to
    /// (so the alphabet holds no name twice and every name is mapped).
    pub open spec fn alphabet_mapped(&self) -> bool {
        forall|i: int|
            0 <= i < self.alphabet@.len() ==> self.alphabet_index_map@.contains_key(
                #[trigger] self.alphabet@[i]@,
            ) && self.alphabet_index_map@[self.alphabet@[i]@] == i
    }

    /// The state that `p` goes to on symbol number `a`, if any.
    pub open spec fn step(&self, p: usize, a: usize) -> Option<usize> {
        if p < self.transitions@.len() && self.transitions@[p as int]@.contains_key(a) {
            Some(self.transitions@[p as int]@[a])
        } else {
            None
        }
    }

    /// The state that `q` reaches by the symbol numbers `w`, if the run does not get stuck.
    pub open spec fn run(&self, q: usize, w: Seq<usize>) -> Option<usize>
        decreases w.len(),
    {
        if w.len() == 0 {
            Some(q)
        } else {
            match self.run(q, w.drop_last()) {
                Some(p) => self.step(p, w.last()),
                None => None,
            }
        }
    }

    /// Whether the automaton accepts the word of symbol numbers `w`.
    pub open spec fn accepts_indices(&self, w: Seq<usize>) -> bool {
        match self.run(self.start_state, w) {
            Some(q) => self.accept_states@.contains(q),
            None => false,
        }
    }

    /// Whether state `q` reaches state `p`.
    pub open spec fn reaches(&self, q: usize, p: usize) -> bool {
        exists|w: Seq<usize>| #[trigger] self.run(q, w) == Some(p)
    }

    /// Whether the word of symbol numbers `u` leads from `q` to an accept state.
    pub open spec fn accepts_from(&self, q: usize, u: Seq<usize>) -> bool {
        self.run(q, u) matches Some(f) && self.accept_states@.contains(f)
    }

    /// Whether state `q` reaches an accept state.
    pub open spec fn leads_to_accept(&self, q: usize) -> bool {
        exists|w: Seq<usize>| #[trigger] self.run(q, w) matches Some(f) && self.accept_states@.contains(f)
    }

    /// Whether every symbol of `w` has a number in the alphabet map.
    pub open spec fn over_alphabet(&self, w: Seq<Seq<char>>) -> bool {
        forall|i: int| 0 <= i < w.len() ==> self.alphabet_index_map@.contains_key(#[trigger] w[i])
    }

    /// The symbol numbers of the names in `w`.
    pub open spec fn symbol_indices(&self, w: Seq<Seq<char>>) -> Seq<usize> {
        w.map_values(|s: Seq<char>| self.alphabet_index_map@[s])
    }

    /// The language of the automaton: words over its alphabet whose symbol numbers it accepts.
    pub open spec fn accepts_word(&self, w: Seq<Seq<char>>) -> bool {
        self.over_alphabet(w) && self.accepts_indices(self.symbol_indices(w))
    }

    /// Running `u` then `v` is running `u + v`.
    pub proof fn lemma_run_concat(&self, q: usize, u: Seq<usize>, v: Seq<usize>)
        ensures
            self.run(q, u + v) == (match self.run(q, u) {
                Some(p) => self.run(p, v),
                None => None,
            }),
        decreases v.len(),
    {
        if v.len() == 0 {
            assert(u + v =~= u);
        } else {
            self.lemma_run_concat(q, u, v.drop_last());
            assert((u + v).drop_last() =~= u + v.drop_last());
            assert((u + v).last() == v.last());
        }
    }

    /// Running `a` followed by `w` from `q` is running `w` from where `a` leads.
    pub proof fn lemma_run_cons(&self, q: usize, a: usize, w: Seq<usize>)
        ensures
            self.run(q, seq![a] + w) == (match self.step(q, a) {
                Some(p) => self.run(p, w),
                None => None,
            }),
    {
        self.lemma_run_concat(q, seq![a], w);
        assert(seq![a].drop_last() =~= Seq::<usize>::empty());
        assert(self.run(q, Seq::<usize>::empty()) == Some(q));
        assert(self.run(q, seq![a]) == self.step(q, a));
    }

    /// A run that gets stuck on a prefix gets stuck on the whole word.
    pub proof fn lemma_run_prefix_stuck(&self, q: usize, w: Seq<usize>, k: int)
        requires
            0 <= k <= w.len(),
            self.run(q, w.take(k)) is None,
        ensures
            self.run(q, w) is None,
    {
        self.lemma_run_concat(q, w.take(k), w.skip(k));
        assert(w.take(k) + w.skip(k) =~= w);
    }

    /// Runs stay among the states of a well-formed automaton.
    pub proof fn lemma_run_in_range(&self, q: usize, w: Seq<usize>)
        requires
            self.wf(),
            q < self.n(),
        ensures
            self.run(q, w) matches Some(p) ==> p < self.n(),
        decreases w.len(),
    {
        if w.len() > 0 {
            self.lemma_run_in_range(q, w.drop_last());
        }
    }

    /// A set that holds `q` and is closed under transitions holds every state `q` reaches.
    pub proof fn lemma_closed_holds_runs(&self, s: Set<usize>, q: usize, w: Seq<usize>)
        requires
            s.contains(q),
            forall|p: usize, a: usize| s.contains(p) && #[trigger] self.step(p, a) is Some ==> s.contains(self.step(p, a)->0),
        ensures
            self.run(q, w) matches Some(p) ==> s.contains(p),
        decreases w.len(),
    {
        if w.len() > 0 {
            self.lemma_closed_holds_runs(s, q, w.drop_last());
        }
    }

    /// A set that holds the accept states and every state with a transition into
    /// the set holds every state that leads to acceptance.
    pub proof fn lemma_back_closed_holds(&self, s: Set<usize>, q: usize, w: Seq<usize>)
        requires
            forall|f: usize| #[trigger] self.accept_states@.contains(f) ==> s.contains(f),
            forall|p: usize, a: usize| #[trigger] self.step(p, a) is Some && s.contains(self.step(p, a)->0) ==> s.contains(p),
            self.run(q, w) matches Some(f) && self.accept_states@.contains(f),
        ensures
            s.contains(q),
        decreases w.len(),
    {
        if w.len() > 0 {
            self.lemma_run_cons(q, w[0], w.drop_first());
            assert(seq![w[0]] + w.drop_first() =~= w);
            let p = self.step(q, w[0])->0;
            self.lemma_back_closed_holds(s, p, w.drop_first());
        }
    }

    /// Creates a DFA from its parts.
    pub fn new(
        state_index_map: StateIndexMap,
        alphabet_index_map: SymbolIndexMap,
        states: Vec<State>,
        alphabet: Vec<InputSymbol>,
        transitions: Vec<IndexMap>,
        start_state: usize,
        accept_states: IndexSet,
    ) -> (d: Self)
        ensures
            d.state_index_map@ == state_index_map@,
            d.alphabet_index_map@ == alphabet_index_map@,
            d.states@ == states@,
            d.alphabet@ == alphabet@,
            d.transitions@ == transitions@,
            d.start_state == start_state,
            d.accept_states@ == accept_states@,
    {
        DFA {
            state_index_map,
            alphabet_index_map,
            states,
            alphabet,
            transitions,
            start_state,
            accept_states,
        }
    }

    /// The automaton with one state "0", no symbols, no transitions and no accept state.
    pub fn empty() -> (d: Self)
        ensures
            d.wf(),
            d.symbols_mapped(),
            d.alphabet_mapped(),
            d.n() == 1,
            d.states@[0]@ == seq!['0'],
            d.alphabet@.len() == 0,
            d.transitions@[0]@ == Map::<usize, usize>::empty(),
            d.start_state == 0,
            d.accept_states@ == Set::<usize>::empty(),
            d.state_index_map@ == map![seq!['0'] => 0usize],
            d.alphabet_index_map@ == Map::<Seq<char>, usize>::empty(),
            forall|w: Seq<Seq<char>>| !d.accepts_word(w),
    {
        proof {
            reveal_strlit("0");
        }
        let mut state_index_map = StateIndexMap::new();
        let s0 = State::new("0");
        assert(s0@ == seq!['0']);
        state_index_map.insert(s0, 0);
        assert(state_index_map@ =~= map![seq!['0'] => 0usize]);
        let mut states: Vec<State> = Vec::new();
        states.push(State::new("0"));
        let mut transitions: Vec<IndexMap> = Vec::new();
        transitions.push(IndexMap::new());
        let d = DFA {
            state_index_map,
            alphabet_index_map: SymbolIndexMap::new(),
            states,
            alphabet: Vec::new(),
            transitions,
            start_state: 0,
            accept_states: IndexSet::new(),
        };
        d
    }

    /// The start state.
    pub fn get_start_state(&self) -> (s: &State)
        requires
            self.wf(),
        ensures
            *s == self.states@[self.start_state as int],
    {
        &self.states[self.start_state]
    }

    /// The state that `state` goes to on symbol number `symbol`, if any.
    pub(crate) fn next_state(&self, state: usize, symbol: usize) -> (r: Option<usize>)
        requires
            self.wf(),
            state < self.n(),
        ensures
            r == self.step(state, symbol),
    {
        self.transitions[state].get(symbol)
    }

    /// Returns the states reachable from `state`, `state` included.
    pub fn reachable_states(&self, state: usize) -> (r: IndexSet)
        requires
            self.wf(),
            state < self.n(),
        ensures
            forall|p: usize| r@.contains(p) <==> self.reaches(state, p),
    {
        let mut reachable = IndexSet::new();
        reachable.insert(state);
        let mut stack: Vec<usize> = Vec::new();
        stack.push(state);
        proof {
            assert(self.run(state, Seq::<usize>::empty()) == Some(state));
            assert(stack@[0] == state);
        }
        while stack.len() > 0
            invariant
                self.wf(),
                state < self.n(),
                reachable@.finite(),
                reachable@.contains(state),
                forall|p: usize| #[trigger] reachable@.contains(p) ==> p < self.n() && self.reaches(state, p),
                forall|i: int| 0 <= i < stack@.len() ==> reachable@.contains(#[trigger] stack@[i]),
                forall|p: usize, a: usize|
                    reachable@.contains(p) && !stack@.contains(p) && #[trigger] self.step(p, a) is Some
                        ==> reachable@.contains(self.step(p, a)->0),
            decreases self.n() - reachable@.len(), stack@.len(),
        {
            proof {
                lemma_bounded_set(reachable@, self.n());
            }
            let ghost old_stack = stack@;
            let current = stack.pop().unwrap();
            assert(old_stack == stack@.push(current));
            assert forall|p: usize| old_stack.contains(p) && p != current implies stack@.contains(p) by {
                let i = choose|i: int| 0 <= i < old_stack.len() && old_stack[i] == p;
                assert(stack@[i] == p);
            }
            let pairs = self.transitions[current].to_vec();
            let ghost before = reachable@;
            let ghost stack_len0 = stack@.len();
            let mut k: usize = 0;
            while k < pairs.len()
                invariant
                    self.wf(),
                    state < self.n(),
                    current < self.n(),
                    reachable@.finite(),
                    before.finite(),
                    reachable@.contains(current),
                    before.subset_of(reachable@),
                    stack@.len() - stack_len0 == reachable@.len() - before.len(),
                    reachable@.contains(state),
                    forall|p: usize| #[trigger] reachable@.contains(p) ==> p < self.n() && self.reaches(state, p),
                    forall|i: int| 0 <= i < stack@.len() ==> reachable@.contains(#[trigger] stack@[i]),
                    forall|p: usize, a: usize|
                        reachable@.contains(p) && !stack@.contains(p) && p != current && #[trigger] self.step(p, a) is Some
                            ==> reachable@.contains(self.step(p, a)->0),
                    k <= pairs@.len(),
                    forall|i: int| 0 <= i < pairs@.len() ==> self.row(current as int).contains_key(#[trigger] pairs@[i].0) && self.row(current as int)[pairs@[i].0] == pairs@[i].1,
                    forall|i: int| 0 <= i < k ==> reachable@.contains(#[trigger] pairs@[i].1),
                decreases pairs@.len() - k,
            {
                let next = pairs[k].1;
                proof {
                    let a = pairs@[k as int].0;
                    let w = choose|w: Seq<usize>| #[trigger] self.run(state, w) == Some(current);
                    assert(w.push(a).drop_last() =~= w);
                    assert(self.run(state, w.push(a)) == Some(next));
                }
                let ghost r0 = reachable@;
                let ghost s0 = stack@;
                if reachable.insert(next) {
                    stack.push(next);
                    assert forall|p: usize| s0.contains(p) implies stack@.contains(p) by {
                        let i = choose|i: int| 0 <= i < s0.len() && s0[i] == p;
                        assert(stack@[i] == p);
                    }
                    assert(stack@[stack@.len() - 1] == next);
                } else {
                    assert(reachable@ =~= r0);
                }
                k = k + 1;
            }
            proof {
                assert forall|a: usize| self.step(current, a) is Some implies reachable@.contains(self.step(current, a)->0) by {
                    let i = choose|i: int| 0 <= i < pairs@.len() && #[trigger] pairs@[i].0 == a;
                }
                lemma_bounded_set(reachable@, self.n());
                assert(stack_len0 == old_stack.len() - 1);
                vstd::set_lib::lemma_len_subset(before, reachable@);
                if reachable@.len() == before.len() {
                    assert(stack@.len() < old_stack.len());
                } else {
                    assert(self.n() - reachable@.len() < self.n() - before.len());
                }
            }
        }
        proof {
            assert forall|p: usize| self.reaches(state, p) implies reachable@.contains(p) by {
                let w = choose|w: Seq<usize>| #[trigger] self.run(state, w) == Some(p);
                self.lemma_closed_holds_runs(reachable@, state, w);
            }
        }
        reachable
    }

    /// Whether the automaton reaches no accept state from its start state,
    /// that is, accepts no word of symbol numbers.
    pub fn is_empty(&self) -> (r: bool)
        requires
            self.wf(),
        ensures
            r == !self.leads_to_accept(self.start_state),
    {
        let mut reachable = FxIndexSet::singleton(self.start_state);
        let mut stack: Vec<usize> = Vec::new();
        stack.push(self.start_state);
        let ghost start = self.start_state;
        proof {
            assert(self.run(start, Seq::<usize>::empty()) == Some(start));
            assert(stack@[0] == start);
        }
        while stack.len() > 0
            invariant
                self.wf(),
                start == self.start_state,
                reachable@.finite(),
                reachable@.contains(start),
                forall|p: usize| #[trigger] reachable@.contains(p) ==> p < self.n() && self.reaches(start, p),
                forall|i: int| 0 <= i < stack@.len() ==> reachable@.contains(#[trigger] stack@[i]),
                forall|p: usize| reachable@.contains(p) && !stack@.contains(p) ==> !#[trigger] self.accept_states@.contains(p),
                forall|p: usize, a: usize|
                    reachable@.contains(p) && !stack@.contains(p) && #[trigger] self.step(p, a) is Some
                        ==> reachable@.contains(self.step(p, a)->0),
            decreases self.n() - reachable@.len(), stack@.len(),
        {
            proof {
                lemma_bounded_set(reachable@, self.n());
            }
            let ghost old_stack = stack@;
            let current = stack.pop().unwrap();
            assert(old_stack == stack@.push(current));
            assert forall|p: usize| old_stack.contains(p) && p != current implies stack@.contains(p) by {
                let i = choose|i: int| 0 <= i < old_stack.len() && old_stack[i] == p;
                assert(stack@[i] == p);
            }
            if self.accept_states.contains(current) {
                proof {
                    let w = choose|w: Seq<usize>| #[trigger] self.run(start, w) == Some(current);
                    assert(self.run(start, w) matches Some(f) && self.accept_states@.contains(f));
                }
                return false;
            }
            let pairs = self.transitions[current].to_vec();
            let ghost before = reachable@;
            let ghost stack_len0 = stack@.len();
            let mut k: usize = 0;
            while k < pairs.len()
                invariant
                    self.wf(),
                    start == self.start_state,
                    current < self.n(),
                    !self.accept_states@.contains(current),
                    reachable@.finite(),
                    before.finite(),
                    reachable@.contains(current),
                    before.subset_of(reachable@),
                    stack@.len() - stack_len0 == reachable@.len() - before.len(),
                    reachable@.contains(start),
                    forall|p: usize| #[trigger] reachable@.contains(p) ==> p < self.n() && self.reaches(start, p),
                    forall|i: int| 0 <= i < stack@.len() ==> reachable@.contains(#[trigger] stack@[i]),
                    forall|p: usize| reachable@.contains(p) && !stack@.contains(p) && p != current ==> !#[trigger] self.accept_states@.contains(p),
                    forall|p: usize, a: usize|
                        reachable@.contains(p) && !stack@.contains(p) && p != current && #[trigger] self.step(p, a) is Some
                            ==> reachable@.contains(self.step(p, a)->0),
                    k <= pairs@.len(),
                    forall|i: int| 0 <= i < pairs@.len() ==> self.row(current as int).contains_key(#[trigger] pairs@[i].0) && self.row(current as int)[pairs@[i].0] == pairs@[i].1,
                    forall|i: int| 0 <= i < k ==> reachable@.contains(#[trigger] pairs@[i].1),
                decreases pairs@.len() - k,
            {
                let next = pairs[k].1;
                proof {
                    let a = pairs@[k as int].0;
                    let w = choose|w: Seq<usize>| #[trigger] self.run(start, w) == Some(current);
                    assert(w.push(a).drop_last() =~= w);
                    assert(self.run(start, w.push(a)) == Some(next));
                }
                let ghost r0 = reachable@;
                let ghost s0 = stack@;
                if reachable.insert(next) {
                    stack.push(next);
                    assert forall|p: usize| s0.contains(p) implies stack@.contains(p) by {
                        let i = choose|i: int| 0 <= i < s0.len() && s0[i] == p;
                        assert(stack@[i] == p);
                    }
                    assert(stack@[stack@.len() - 1] == next);
                } else {
                    assert(reachable@ =~= r0);
                }
                k = k + 1;
            }
            proof {
                assert forall|a: usize| self.step(current, a) is Some implies reachable@.contains(self.step(current, a)->0) by {
                    let i = choose|i: int| 0 <= i < pairs@.len() && #[trigger] pairs@[i].0 == a;
                }
                lemma_bounded_set(reachable@, self.n());
                assert(stack_len0 == old_stack.len() - 1);
                vstd::set_lib::lemma_len_subset(before, reachable@);
                if reachable@.len() == before.len() {
                    assert(stack@.len() < old_stack.len());
                } else {
                    assert(self.n() - reachable@.len() < self.n() - before.len());
                }
            }
        }
        proof {
            if self.leads_to_accept(start) {
                let w = choose|w: Seq<usize>| #[trigger] self.run(start, w) matches Some(f) && self.accept_states@.contains(f);
                self.lemma_closed_holds_runs(reachable@, start, w);
                let f = self.run(start, w)->0;
                assert(reachable@.contains(f));
                assert(!stack@.contains(f));
            }
        }
        true
    }

    /// Returns the states from which an accept state is reachable.
    pub fn leading_to_accept_states(&self) -> (r: IndexSet)
        requires
            self.wf(),
        ensures
            forall|p: usize| #[trigger] r@.contains(p) <==> p < self.n() && self.leads_to_accept(p),
    {
        let n = self.states.len();
        // invert the transition map
        let mut inverted: Vec<IndexSet> = Vec::new();
        let mut i: usize = 0;
        while i < n
            invariant
                n == self.n(),
                i <= n,
                inverted@.len() == i,
                forall|j: int| 0 <= j < i ==> (#[trigger] inverted@[j])@ == Set::<usize>::empty(),
            decreases n - i,
        {
            inverted.push(IndexSet::new());
            i = i + 1;
        }
        let mut from_state: usize = 0;
        while from_state < n
            invariant
                self.wf(),
                n == self.n(),
                from_state <= n,
                inverted@.len() == n,
                forall|t: int, p: usize| #![trigger inverted@[t]@.contains(p)] 0 <= t < n ==> (inverted@[t]@.contains(p) <==>
                    p < from_state && exists|a: usize| #[trigger] self.step(p, a) == Some(t as usize)),
            decreases n - from_state,
        {
            let pairs = self.transitions[from_state].to_vec();
            let ghost inv0 = inverted@;
            let mut k: usize = 0;
            while k < pairs.len()
                invariant
                    self.wf(),
                    n == self.n(),
                    from_state < n,
                    inverted@.len() == n,
                    k <= pairs@.len(),
                    forall|i: int| 0 <= i < pairs@.len() ==> self.row(from_state as int).contains_key(#[trigger] pairs@[i].0) && self.row(from_state as int)[pairs@[i].0] == pairs@[i].1,
                    forall|t: int, p: usize| #![trigger inverted@[t]@.contains(p)] 0 <= t < n ==> (inverted@[t]@.contains(p) <==>
                        (p < from_state && exists|a: usize| #[trigger] self.step(p, a) == Some(t as usize))
                        || (p == from_state && exists|i: int| 0 <= i < k && #[trigger] pairs@[i].1 == t)),
                decreases pairs@.len() - k,
            {
                let to_state = pairs[k].1;
                assert(self.transitions@[from_state as int]@.contains_key(pairs@[k as int].0));
                let mut set = inverted[to_state].clone();
                set.insert(from_state);
                let ghost before = inverted@;
                inverted.set(to_state, set);
                proof {
                    assert forall|t: int, p: usize| #![trigger inverted@[t]@.contains(p)] 0 <= t < n implies (inverted@[t]@.contains(p) <==>
                        (p < from_state && exists|a: usize| #[trigger] self.step(p, a) == Some(t as usize))
                        || (p == from_state && exists|i: int| 0 <= i < k + 1 && #[trigger] pairs@[i].1 == t)) by {
                        if t == to_state && p == from_state {
                            assert(pairs@[k as int].1 == t);
                        }
                        if t != to_state {
                            assert(inverted@[t] == before[t]);
                            if p == from_state && exists|i: int| 0 <= i < k + 1 && #[trigger] pairs@[i].1 == t {
                                let i = choose|i: int| 0 <= i < k + 1 && #[trigger] pairs@[i].1 == t;
                                assert(i < k);
                            }
                        }
                    }
                }
                k = k + 1;
            }
            proof {
                assert forall|t: int, p: usize| #![trigger inverted@[t]@.contains(p)] 0 <= t < n implies (inverted@[t]@.contains(p) <==>
                    p < from_state + 1 && exists|a: usize| #[trigger] self.step(p, a) == Some(t as usize)) by {
                    if p == from_state {
                        if exists|a: usize| #[trigger] self.step(p, a) == Some(t as usize) {
                            let a = choose|a: usize| #[trigger] self.step(p, a) == Some(t as usize);
                            let i = choose|i: int| 0 <= i < pairs@.len() && #[trigger] pairs@[i].0 == a;
                            assert(pairs@[i].1 == t);
                        }
                        if exists|i: int| 0 <= i < k && #[trigger] pairs@[i].1 == t {
                            let i = choose|i: int| 0 <= i < k && #[trigger] pairs@[i].1 == t;
                            assert(self.step(p, pairs@[i].0) == Some(t as usize));
                        }
                    }
                }
            }
            from_state = from_state + 1;
        }
        // search backwards from the accept states
        let mut reachable = self.accept_states.clone();
        let mut stack = self.accept_states.to_vec();
        proof {
            assert forall|f: usize| self.accept_states@.contains(f) implies self.leads_to_accept(f) by {
                assert(self.run(f, Seq::<usize>::empty()) == Some(f));
            }
            assert forall|f: usize| reachable@.contains(f) implies stack@.contains(f) by {
                assert(stack@.to_set().contains(f));
            }
            lemma_bounded_set(reachable@, self.n());
        }
        while stack.len() > 0
            invariant
                self.wf(),
                n == self.n(),
                inverted@.len() == n,
                forall|t: int, p: usize| #![trigger inverted@[t]@.contains(p)] 0 <= t < n ==> (inverted@[t]@.contains(p) <==>
                    p < n && exists|a: usize| #[trigger] self.step(p, a) == Some(t as usize)),
                reachable@.finite(),
                forall|f: usize| #[trigger] self.accept_states@.contains(f) ==> reachable@.contains(f),
                forall|p: usize| #[trigger] reachable@.contains(p) ==> p < self.n() && self.leads_to_accept(p),
                forall|i: int| 0 <= i < stack@.len() ==> reachable@.contains(#[trigger] stack@[i]),
                forall|p: usize, a: usize|
                    #[trigger] self.step(p, a) is Some && reachable@.contains(self.step(p, a)->0) && !stack@.contains(self.step(p, a)->0)
                        ==> reachable@.contains(p),
            decreases self.n() - reachable@.len(), stack@.len(),
        {
            proof {
                lemma_bounded_set(reachable@, self.n());
            }
            let ghost old_stack = stack@;
            let current = stack.pop().unwrap();
            assert(old_stack == stack@.push(current));
            assert forall|p: usize| old_stack.contains(p) && p != current implies stack@.contains(p) by {
                let i = choose|i: int| 0 <= i < old_stack.len() && old_stack[i] == p;
                assert(stack@[i] == p);
            }
            let preds = inverted[current].to_vec();
            let ghost before = reachable@;
            let ghost stack_len0 = stack@.len();
            let mut k: usize = 0;
            while k < preds.len()
                invariant
                    self.wf(),
                    n == self.n(),
                    current < n,
                    reachable@.contains(current),
                    reachable@.finite(),
                    before.finite(),
                    before.subset_of(reachable@),
                    stack@.len() - stack_len0 == reachable@.len() - before.len(),
                    preds@.to_set() == inverted@[current as int]@,
                    forall|t: int, p: usize| #![trigger inverted@[t]@.contains(p)] 0 <= t < n ==> (inverted@[t]@.contains(p) <==>
                        p < n && exists|a: usize| #[trigger] self.step(p, a) == Some(t as usize)),
                    forall|f: usize| #[trigger] self.accept_states@.contains(f) ==> reachable@.contains(f),
                    forall|p: usize| #[trigger] reachable@.contains(p) ==> p < self.n() && self.leads_to_accept(p),
                    forall|i: int| 0 <= i < stack@.len() ==> reachable@.contains(#[trigger] stack@[i]),
                    forall|p: usize, a: usize|
                        #[trigger] self.step(p, a) is Some && reachable@.contains(self.step(p, a)->0) && !stack@.contains(self.step(p, a)->0)
                            && self.step(p, a)->0 != current ==> reachable@.contains(p),
                    k <= preds@.len(),
                    forall|i: int| 0 <= i < k ==> reachable@.contains(#[trigger] preds@[i]),
                decreases preds@.len() - k,
            {
                let prev = preds[k];
                proof {
                    assert(preds@.to_set().contains(prev));
                    assert(inverted@[current as int]@.contains(prev));
                    let a = choose|a: usize| #[trigger] self.step(prev, a) == Some(current);
                    let w = choose|w: Seq<usize>| #[trigger] self.run(current, w) matches Some(f) && self.accept_states@.contains(f);
                    self.lemma_run_cons(prev, a, w);
                    assert(self.run(prev, seq![a] + w) == self.run(current, w));
                }
                let ghost r0 = reachable@;
                let ghost s0 = stack@;
                if reachable.insert(prev) {
                    stack.push(prev);
                    assert forall|p: usize| s0.contains(p) implies stack@.contains(p) by {
                        let i = choose|i: int| 0 <= i < s0.len() && s0[i] == p;
                        assert(stack@[i] == p);
                    }
                    assert(stack@[stack@.len() - 1] == prev);
                } else {
                    assert(reachable@ =~= r0);
                }
                k = k + 1;
            }
            proof {
                assert forall|p: usize, a: usize| #[trigger] self.step(p, a) == Some(current) implies reachable@.contains(p) by {
                    assert(p < n);
                    assert(inverted@[current as int]@.contains(p));
                    assert(preds@.to_set().contains(p));
                    let i = choose|i: int| 0 <= i < preds@.len() && #[trigger] preds@[i] == p;
                }
                lemma_bounded_set(reachable@, self.n());
                assert(stack_len0 == old_stack.len() - 1);
                vstd::set_lib::lemma_len_subset(before, reachable@);
                if reachable@.len() == before.len() {
                    assert(stack@.len() < old_stack.len());
                } else {
                    assert(self.n() - reachable@.len() < self.n() - before.len());
                }
            }
        }
        proof {
            assert forall|p: usize| p < self.n() && self.leads_to_accept(p) implies reachable@.contains(p) by {
                let w = choose|w: Seq<usize>| #[trigger] self.run(p, w) matches Some(f) && self.accept_states@.contains(f);
                self.lemma_back_closed_holds(reachable@, p, w);
            }
        }
        reachable
    }

    /// The state names that registering `a` and then `b` adds to a state map.
    pub open spec fn names_added(map: Map<Seq<char>, usize>, a: Seq<char>, b: Seq<char>) -> Seq<Seq<char>> {
        (if map.contains_key(a) { Seq::<Seq<char>>::empty() } else { seq![a] }) + (if map.contains_key(b)
            || b == a { Seq::<Seq<char>>::empty() } else { seq![b] })
    }

    /// `self` is `old` with the states named `added` appended, each with no
    /// transitions and registered under its name; nothing else differs.
    pub open spec fn states_appended(&self, old: &DFA, added: Seq<Seq<char>>) -> bool {
        &&& self.states@.len() == old.states@.len() + added.len()
        &&& forall|i: int| 0 <= i < old.states@.len() ==> #[trigger] self.states@[i] == old.states@[i]
        &&& forall|i: int| 0 <= i < added.len() ==> #[trigger] self.states@[old.states@.len() + i]@ == added[i]
        &&& self.transitions@.len() == old.transitions@.len() + added.len()
        &&& forall|i: int| 0 <= i < old.transitions@.len() ==> #[trigger] self.transitions@[i] == old.transitions@[i]
        &&& forall|i: int| old.transitions@.len() <= i < self.transitions@.len() ==> #[trigger] self.transitions@[i]@ == Map::<usize, usize>::empty()
        &&& forall|s: Seq<char>| #[trigger] self.state_index_map@.contains_key(s) <==> old.state_index_map@.contains_key(s) || added.contains(s)
        &&& forall|s: Seq<char>| #[trigger] old.state_index_map@.contains_key(s) ==> self.state_index_map@[s] == old.state_index_map@[s]
        &&& forall|i: int| 0 <= i < added.len() ==> self.state_index_map@[#[trigger] added[i]] == old.states@.len() + i
    }

    /// Returns the index of the state named like `state`, appending it first where it is new.
    fn intern_state(&mut self, state: &State) -> (idx: usize)
        requires
            old(self).wf(),
        ensures
            final(self).wf(),
            final(self).state_index_map@.contains_key(state@),
            idx == final(self).state_index_map@[state@],
            idx < final(self).n(),
            final(self).states_appended(
                old(self),
                if old(self).state_index_map@.contains_key(state@) { Seq::empty() } else { seq![state@] },
            ),
            final(self).alphabet@ == old(self).alphabet@,
            final(self).alphabet_index_map@ == old(self).alphabet_index_map@,
            final(self).start_state == old(self).start_state,
            final(self).accept_states@ == old(self).accept_states@,
    {
        match self.state_index_map.get(state) {
            Some(idx) => {
                assert(self.states_appended(old(self), Seq::empty()));
                idx
            },
            None => {
                let idx = self.states.len();
                self.states.push(state.clone());
                self.transitions.push(IndexMap::new());
                self.state_index_map.insert(state.clone(), idx);
                proof {
                    let added = seq![state@];
                    assert(added[0] == state@);
                    assert forall|s: Seq<char>| #[trigger] self.state_index_map@.contains_key(s) <==> old(self).state_index_map@.contains_key(s) || added.contains(s) by {
                        if s == state@ {
                            assert(added[0] == s);
                        }
                    }
                    assert(self.states_appended(old(self), added));
                }
                idx
            },
        }
    }

    /// Sets the start state, adding it where it is new.
    pub fn set_start_state(&mut self, start_state: State)
        requires
            old(self).wf(),
        ensures
            final(self).wf(),
            final(self).states_appended(
                old(self),
                if old(self).state_index_map@.contains_key(start_state@) { Seq::empty() } else { seq![start_state@] },
            ),
            final(self).start_state == final(self).state_index_map@[start_state@],
            final(self).alphabet@ == old(self).alphabet@,
            final(self).alphabet_index_map@ == old(self).alphabet_index_map@,
            final(self).accept_states@ == old(self).accept_states@,
    {
        let idx = self.intern_state(&start_state);
        self.start_state = idx;
    }

    /// Adds an accept state, adding the state where it is new.
    pub fn add_accept_state(&mut self, accept_state: State)
        requires
            old(self).wf(),
        ensures
            final(self).wf(),
            final(self).states_appended(
                old(self),
                if old(self).state_index_map@.contains_key(accept_state@) { Seq::empty() } else { seq![accept_state@] },
            ),
            final(self).accept_states@ == old(self).accept_states@.insert(final(self).state_index_map@[accept_state@]),
            final(self).alphabet@ == old(self).alphabet@,
            final(self).alphabet_index_map@ == old(self).alphabet_index_map@,
            final(self).start_state == old(self).start_state,
    {
        let idx = self.intern_state(&accept_state);
        self.accept_states.insert(idx);
    }

    /// Returns the number of `symbol`, appending it to the alphabet where it is new.
    fn intern_symbol(&mut self, symbol: &InputSymbol) -> (idx: usize)
        requires
            old(self).wf(),
        ensures
            final(self).wf(),
            idx == final(self).alphabet_index_map@[symbol@],
            final(self).alphabet_index_map@ == old(self).alphabet_index_map@.insert(symbol@, idx),
            old(self).alphabet_index_map@.contains_key(symbol@) ==> final(self).alphabet@ == old(self).alphabet@,
            !old(self).alphabet_index_map@.contains_key(symbol@) ==> final(self).alphabet@ == old(self).alphabet@.push(*symbol),
            final(self).states@ == old(self).states@,
            final(self).transitions@ == old(self).transitions@,
            final(self).state_index_map@ == old(self).state_index_map@,
            final(self).start_state == old(self).start_state,
            final(self).accept_states@ == old(self).accept_states@,
    {
        match self.alphabet_index_map.get(symbol) {
            Some(idx) => {
                assert(self.alphabet_index_map@ =~= old(self).alphabet_index_map@.insert(symbol@, idx));
                idx
            },
            None => {
                let idx = self.alphabet.len();
                self.alphabet.push(symbol.clone());
                self.alphabet_index_map.insert(symbol.clone(), idx);
                idx
            },
        }
    }

    /// Adds the transition from `from` on `symbol` to `to`, adding the states
    /// and the symbol where they are new; it replaces any transition from
    /// `from` on `symbol`.
    pub fn add_transition(&mut self, from: &State, symbol: &InputSymbol, to: &State)
        requires
            old(self).wf(),
        ensures
            final(self).wf(),
            final(self).states@.len() == old(self).states@.len() + Self::names_added(old(self).state_index_map@, from@, to@).len(),
            forall|i: int| 0 <= i < old(self).states@.len() ==> #[trigger] final(self).states@[i] == old(self).states@[i],
            forall|i: int| 0 <= i < Self::names_added(old(self).state_index_map@, from@, to@).len()
                ==> #[trigger] final(self).states@[old(self).states@.len() + i]@ == Self::names_added(old(self).state_index_map@, from@, to@)[i],
            forall|s: Seq<char>| #[trigger] old(self).state_index_map@.contains_key(s) ==> final(self).state_index_map@.contains_key(s)
                && final(self).state_index_map@[s] == old(self).state_index_map@[s],
            final(self).state_index_map@.contains_key(from@),
            final(self).state_index_map@.contains_key(to@),
            final(self).alphabet_index_map@.contains_key(symbol@),
            old(self).alphabet_index_map@.contains_key(symbol@) ==> final(self).alphabet@ == old(self).alphabet@,
            !old(self).alphabet_index_map@.contains_key(symbol@) ==> final(self).alphabet@ == old(self).alphabet@.push(*symbol),
            final(self).alphabet_index_map@ == old(self).alphabet_index_map@.insert(symbol@, final(self).alphabet_index_map@[symbol@]),
            ({
                let f = final(self).state_index_map@[from@] as int;
                let t = final(self).state_index_map@[to@];
                let a = final(self).alphabet_index_map@[symbol@];
                &&& final(self).row(f) == (if f < old(self).n() { old(self).row(f) } else { Map::empty() }).insert(a, t)
                &&& forall|p: int| 0 <= p < final(self).n() && p != f ==> #[trigger] final(self).row(p) == (if p < old(self).n() { old(self).row(p) } else { Map::empty() })
            }),
            final(self).start_state == old(self).start_state,
            final(self).accept_states@ == old(self).accept_states@,
    {
        let ghost o = *old(self);
        let from_index = self.intern_state(from);
        let ghost mid = *self;
        let to_index = self.intern_state(to);
        let symbol_index = self.intern_symbol(symbol);
        let ghost before_set = *self;
        let mut row = self.transitions[from_index].clone();
        row.insert(symbol_index, to_index);
        self.transitions.set(from_index, row);
        proof {
            assert forall|s: Seq<char>| #[trigger] o.state_index_map@.contains_key(s) implies self.state_index_map@[s] == o.state_index_map@[s] by {
                assert(mid.state_index_map@.contains_key(s));
            }
            assert forall|p: int, a: usize|
                0 <= p < self.transitions@.len() && #[trigger] self.transitions@[p]@.contains_key(a) implies a
                    < self.alphabet@.len() && self.transitions@[p]@[a] < self.states@.len() by {
                if p != from_index {
                    assert(self.transitions@[p] == before_set.transitions@[p]);
                } else {
                    assert(self.transitions@[p]@ == before_set.transitions@[p]@.insert(symbol_index, to_index));
                    assert(before_set.alphabet_index_map@.contains_key(symbol@));
                    assert(symbol_index < self.alphabet@.len());
                    assert(to_index < self.states@.len());
                    if a != symbol_index {
                        assert(before_set.transitions@[p]@.contains_key(a));
                    }
                }
            }
            let added = Self::names_added(o.state_index_map@, from@, to@);
            let a1: Seq<Seq<char>> = if o.state_index_map@.contains_key(from@) { Seq::empty() } else { seq![from@] };
            let a2: Seq<Seq<char>> = if mid.state_index_map@.contains_key(to@) { Seq::empty() } else { seq![to@] };
            assert(added =~= a1 + a2);
            assert forall|i: int| 0 <= i < added.len() implies #[trigger] self.states@[o.states@.len() + i]@ == added[i] by {
                if i >= a1.len() {
                    assert(self.states@[o.states@.len() + i] == self.states@[mid.states@.len() + (i - a1.len())]);
                }
            }
        }
    }

    /// Whether a prefix of length `k` of `w` is over the alphabet and does not get stuck.
    pub open spec fn prefix_runs(&self, w: Seq<Seq<char>>, k: int) -> bool {
        self.over_alphabet(w.take(k)) && self.run(self.start_state, self.symbol_indices(w.take(k))) is Some
    }

    /// Prefixes of prefixes that run also run.
    proof fn lemma_prefix_runs_shorter(&self, w: Seq<Seq<char>>, k: int, m: int)
        requires
            0 <= k <= m <= w.len(),
            self.prefix_runs(w, m),
        ensures
            self.prefix_runs(w, k),
    {
        assert(self.symbol_indices(w.take(m)).take(k) =~= self.symbol_indices(w.take(k)));
        if self.run(self.start_state, self.symbol_indices(w.take(k))) is None {
            self.lemma_run_prefix_stuck(self.start_state, self.symbol_indices(w.take(m)), k);
        }
        assert forall|i: int| 0 <= i < w.take(k).len() implies self.alphabet_index_map@.contains_key(#[trigger] w.take(k)[i]) by {
            assert(w.take(k)[i] == w.take(m)[i]);
        }
    }

    /// Extending a running prefix by one symbol.
    proof fn lemma_prefix_step(&self, w: Seq<Seq<char>>, k: int)
        requires
            0 <= k < w.len(),
            self.over_alphabet(w.take(k)),
        ensures
            self.alphabet_index_map@.contains_key(w[k]) ==> self.over_alphabet(w.take(k + 1))
                && self.symbol_indices(w.take(k + 1)) == self.symbol_indices(w.take(k)).push(self.alphabet_index_map@[w[k]])
                && self.run(self.start_state, self.symbol_indices(w.take(k + 1))) == (match self.run(self.start_state, self.symbol_indices(w.take(k))) {
                    Some(p) => self.step(p, self.alphabet_index_map@[w[k]]),
                    None => None,
                }),
            !self.alphabet_index_map@.contains_key(w[k]) ==> !self.over_alphabet(w.take(k + 1)),
    {
        if self.alphabet_index_map@.contains_key(w[k]) {
            assert forall|i: int| 0 <= i < w.take(k + 1).len() implies self.alphabet_index_map@.contains_key(#[trigger] w.take(k + 1)[i]) by {
                if i < k {
                    assert(w.take(k + 1)[i] == w.take(k)[i]);
                }
            }
            assert(self.symbol_indices(w.take(k + 1)) =~= self.symbol_indices(w.take(k)).push(self.alphabet_index_map@[w[k]]));
            assert(self.symbol_indices(w.take(k + 1)).drop_last() =~= self.symbol_indices(w.take(k)));
        } else {
            assert(w.take(k + 1)[k] == w[k]);
        }
    }

    /// Returns the length of the longest prefix of `input` that the automaton
    /// accepts, or `None` where it accepts no prefix.
    pub fn accept_prefix(&self, input: &Vec<InputSymbol>) -> (r: Option<usize>)
        requires
            self.wf(),
        ensures
            match r {
                Some(k) => k <= input@.len() && self.accepts_word(word_of(input@).take(k as int))
                    && forall|m: int| k < m <= input@.len() ==> !#[trigger] self.accepts_word(word_of(input@).take(m)),
                None => forall|m: int| 0 <= m <= input@.len() ==> !#[trigger] self.accepts_word(word_of(input@).take(m)),
            },
    {
        let ghost w = word_of(input@);
        let mut current = self.start_state;
        proof {
            assert(w.take(0) =~= Seq::<Seq<char>>::empty());
            assert(self.symbol_indices(w.take(0)) =~= Seq::<usize>::empty());
        }
        let mut max_accepted: Option<usize> = if self.accept_states.contains(current) {
            Some(0)
        } else {
            None
        };
        let mut consumed: usize = 0;
        let mut stuck = false;
        while !stuck && consumed < input.len()
            invariant
                self.wf(),
                w == word_of(input@),
                consumed <= input@.len(),
                stuck ==> forall|m: int| consumed < m <= input@.len() ==> !#[trigger] self.accepts_word(w.take(m)),
                current < self.n(),
                self.over_alphabet(w.take(consumed as int)),
                self.run(self.start_state, self.symbol_indices(w.take(consumed as int))) == Some(current),
                match max_accepted {
                    Some(k) => k <= consumed && self.accepts_word(w.take(k as int))
                        && forall|m: int| k < m <= consumed ==> !#[trigger] self.accepts_word(w.take(m)),
                    None => forall|m: int| 0 <= m <= consumed ==> !#[trigger] self.accepts_word(w.take(m)),
                },
            decreases input@.len() - consumed + (if stuck { 0int } else { 1int }),
        {
            let ghost k = consumed as int;
            proof {
                self.lemma_prefix_step(w, k);
            }
            let next = match self.alphabet_index_map.get(&input[consumed]) {
                Some(symbol_index) => self.next_state(current, symbol_index),
                None => None,
            };
            match next {
                Some(next_state) => {
                    proof {
                        self.lemma_run_in_range(self.start_state, self.symbol_indices(w.take(k + 1)));
                    }
                    current = next_state;
                    consumed = consumed + 1;
                    if self.accept_states.contains(current) {
                        max_accepted = Some(consumed);
                    }
                },
                None => {
                    proof {
                        assert forall|m: int| k < m <= input@.len() implies !#[trigger] self.accepts_word(w.take(m)) by {
                            if self.accepts_word(w.take(m)) {
                                assert(self.prefix_runs(w, m));
                                self.lemma_prefix_runs_shorter(w, k + 1, m);
                            }
                        }
                    }
                    stuck = true;
                },
            }
        }
        max_accepted
    }

    /// `accept_prefix` on the symbols of the bytes of `input`.
    pub fn accept_prefix_string(&self, input: &str) -> (r: Option<usize>)
        requires
            self.wf(),
        ensures
            ({
                let w = bytes_word(vstd::utf8::encode_utf8(input@));
                match r {
                    Some(k) => k <= w.len() && self.accepts_word(w.take(k as int))
                        && forall|m: int| k < m <= w.len() ==> !#[trigger] self.accepts_word(w.take(m)),
                    None => forall|m: int| 0 <= m <= w.len() ==> !#[trigger] self.accepts_word(w.take(m)),
                }
            }),
    {
        let symbols = bytes_to_symbols(input.as_bytes());
        self.accept_prefix(&symbols)
    }

    /// `accept_prefix` on the symbols of the bytes `input`.
    pub fn accept_prefix_bytes(&self, input: &[u8]) -> (r: Option<usize>)
        requires
            self.wf(),
        ensures
            ({
                let w = bytes_word(input@);
                match r {
                    Some(k) => k <= w.len() && self.accepts_word(w.take(k as int))
                        && forall|m: int| k < m <= w.len() ==> !#[trigger] self.accepts_word(w.take(m)),
                    None => forall|m: int| 0 <= m <= w.len() ==> !#[trigger] self.accepts_word(w.take(m)),
                }
            }),
    {
        let symbols = bytes_to_symbols(input);
        self.accept_prefix(&symbols)
    }

    /// Every symbol number in `w` is a number of the alphabet.
    pub open spec fn within_alphabet(&self, w: Seq<usize>) -> bool {
        forall|i: int| 0 <= i < w.len() ==> #[trigger] w[i] < self.alphabet@.len()
    }

    /// The symbol numbers of a word over the alphabet are numbers of the alphabet.
    pub proof fn lemma_symbol_indices_within(&self, w: Seq<Seq<char>>)
        requires
            self.wf(),
            self.over_alphabet(w),
        ensures
            self.within_alphabet(self.symbol_indices(w)),
            self.symbol_indices(w).len() == w.len(),
    {
        assert forall|i: int| 0 <= i < self.symbol_indices(w).len() implies #[trigger] self.symbol_indices(w)[i] < self.alphabet@.len() by {
            assert(self.alphabet_index_map@.contains_key(w[i]));
        }
    }

    /// Returns the automaton of the complement language over the alphabet:
    /// a "trash" state is added, every missing transition goes to it, and
    /// the accept states are swapped.
    pub fn complement(&self) -> (r: DFA)
        requires
            self.wf(),
            self.n() < usize::MAX,
        ensures
            r.wf(),
            r.n() == self.n() + 1,
            r.states@[self.n() as int]@ == seq!['t', 'r', 'a', 's', 'h'],
            forall|i: int| 0 <= i < self.n() ==> #[trigger] r.states@[i] == self.states@[i],
            r.alphabet@ == self.alphabet@,
            r.alphabet_index_map@ == self.alphabet_index_map@,
            r.start_state == self.start_state,
            self.alphabet_mapped() ==> r.alphabet_mapped(),
            self.alphabet_mapped() ==> r.symbols_mapped(),
            forall|w: Seq<usize>| #[trigger] r.accepts_indices(w) && self.within_alphabet(w) <==> self.within_alphabet(w) && !self.accepts_indices(w),
            forall|w: Seq<Seq<char>>| #[trigger] r.accepts_word(w) <==> self.over_alphabet(w) && !self.accepts_word(w),
    {
        let n = self.states.len();
        let k = self.alphabet.len();
        let trash = n;
        let mut states = self.states.clone();
        assert(states@ =~= self.states@);
        proof {
            reveal_strlit("trash");
        }
        let trash_state = State::new("trash");
        assert(trash_state@ == seq!['t', 'r', 'a', 's', 'h']);
        states.push(trash_state.clone());
        let mut state_index_map = self.state_index_map.clone();
        state_index_map.insert(trash_state, trash);
        assert(state_index_map@ == self.state_index_map@.insert(seq!['t', 'r', 'a', 's', 'h'], trash));
        // invert the accept states
        let mut accepting = IndexSet::new();
        let mut i: usize = 0;
        while i < n
            invariant
                self.wf(),
                n == self.n(),
                i <= n,
                forall|q: usize| #[trigger] accepting@.contains(q) <==> q < i && !self.accept_states@.contains(q),
            decreases n - i,
        {
            if !self.accept_states.contains(i) {
                accepting.insert(i);
            }
            i = i + 1;
        }
        accepting.insert(trash);
        // add the missing transitions to the trash state
        let mut transitions: Vec<IndexMap> = Vec::new();
        let mut p: usize = 0;
        while p < n
            invariant
                self.wf(),
                n == self.n(),
                k == self.alphabet@.len(),
                trash == n,
                p <= n,
                transitions@.len() == p,
                forall|q: int, a: usize| 0 <= q < p ==> (#[trigger] transitions@[q]@.contains_key(a) <==> a < k),
                forall|q: int, a: usize| 0 <= q < p && #[trigger] transitions@[q]@.contains_key(a) ==>
                    transitions@[q]@[a] == (if self.row(q).contains_key(a) { self.row(q)[a] } else { trash }),
            decreases n - p,
        {
            let mut row = self.transitions[p].clone();
            let mut a: usize = 0;
            while a < k
                invariant
                    self.wf(),
                    n == self.n(),
                    k == self.alphabet@.len(),
                    trash == n,
                    p < n,
                    a <= k,
                    forall|b: usize| #[trigger] row@.contains_key(b) <==> b < a || self.row(p as int).contains_key(b),
                    forall|b: usize| #[trigger] row@.contains_key(b) ==>
                        row@[b] == (if self.row(p as int).contains_key(b) { self.row(p as int)[b] } else { trash }),
                decreases k - a,
            {
                if row.get(a).is_none() {
                    row.insert(a, trash);
                }
                a = a + 1;
            }
            proof {
                assert forall|b: usize| #[trigger] row@.contains_key(b) <==> b < k by {
                    if self.row(p as int).contains_key(b) {
                        assert(self.transitions@[p as int]@.contains_key(b));
                    }
                }
            }
            transitions.push(row);
            p = p + 1;
        }
        let mut trash_row = IndexMap::new();
        let mut a: usize = 0;
        while a < k
            invariant
                a <= k,
                forall|b: usize| #[trigger] trash_row@.contains_key(b) <==> b < a,
                forall|b: usize| #[trigger] trash_row@.contains_key(b) ==> trash_row@[b] == trash,
            decreases k - a,
        {
            trash_row.insert(a, trash);
            a = a + 1;
        }
        transitions.push(trash_row);
        let r = DFA {
            state_index_map,
            alphabet_index_map: self.alphabet_index_map.clone(),
            states,
            alphabet: self.alphabet.clone(),
            transitions,
            start_state: self.start_state,
            accept_states: accepting,
        };
        proof {
            assert(r.alphabet@ =~= self.alphabet@);
            assert forall|q: int, b: usize| 0 <= q < r.n() implies (#[trigger] r.row(q).contains_key(b) <==> b < k)
                && (r.row(q).contains_key(b) ==> r.row(q)[b] == (if q < n && self.row(q).contains_key(b) { self.row(q)[b] } else { trash })) by {
                if q < n {
                    if self.row(q).contains_key(b) {
                        assert(self.transitions@[q]@.contains_key(b));
                    }
                }
            }
            assert forall|s: Seq<char>| #[trigger] r.state_index_map@.contains_key(s) implies r.state_index_map@[s] < r.states@.len()
                && r.states@[r.state_index_map@[s] as int]@ == s by {
                if s != seq!['t', 'r', 'a', 's', 'h'] {
                    assert(self.state_index_map@.contains_key(s));
                }
            }
            assert(r.wf());
            assert forall|w: Seq<usize>| self.within_alphabet(w) implies r.run(r.start_state, w) == Some(
                match self.run(self.start_state, w) {
                    Some(q) => q,
                    None => trash,
                },
            ) by {
                self.lemma_complement_run(&r, w);
            }
            assert forall|w: Seq<usize>| #[trigger] r.accepts_indices(w) && self.within_alphabet(w) <==> self.within_alphabet(w) && !self.accepts_indices(w) by {
                if self.within_alphabet(w) {
                    self.lemma_run_in_range(self.start_state, w);
                }
            }
            assert forall|w: Seq<Seq<char>>| #[trigger] r.accepts_word(w) <==> self.over_alphabet(w) && !self.accepts_word(w) by {
                if self.over_alphabet(w) {
                    self.lemma_symbol_indices_within(w);
                    assert(r.symbol_indices(w) == self.symbol_indices(w));
                    assert(r.accepts_indices(self.symbol_indices(w)) && self.within_alphabet(self.symbol_indices(w)) <==> self.within_alphabet(self.symbol_indices(w)) && !self.accepts_indices(self.symbol_indices(w)));
                }
            }
        }
        r
    }

    /// The run of the complement automaton `r` follows the run of `self`,
    /// and sits in the trash state once the run of `self` is stuck.
    proof fn lemma_complement_run(&self, r: &DFA, w: Seq<usize>)
        requires
            self.wf(),
            self.n() < usize::MAX,
            r.n() == self.n() + 1,
            r.start_state == self.start_state,
            self.within_alphabet(w),
            forall|q: int, b: usize| 0 <= q < r.n() ==> (#[trigger] r.row(q).contains_key(b) <==> b < self.alphabet@.len())
                && (r.row(q).contains_key(b) ==> r.row(q)[b] == (if q < self.n() && self.row(q).contains_key(b) { self.row(q)[b] } else { self.n() as usize })),
            r.transitions@.len() == r.n(),
        ensures
            r.run(r.start_state, w) == Some(
                match self.run(self.start_state, w) {
                    Some(q) => q,
                    None => self.n() as usize,
                },
            ),
        decreases w.len(),
    {
        if w.len() > 0 {
            assert(self.within_alphabet(w.drop_last()));
            self.lemma_complement_run(r, w.drop_last());
            self.lemma_run_in_range(self.start_state, w.drop_last());
            assert(w.last() == w[w.len() - 1]);
            let a = w.last();
            assert(a < self.alphabet@.len());
            match self.run(self.start_state, w.drop_last()) {
                Some(q) => {
                    assert(q < self.n());
                    assert(r.row(q as int).contains_key(a));
                },
                None => {
                    assert(r.row(self.n() as int).contains_key(a));
                },
            }
        }
    }

    /// `oam` maps each symbol number of `other` whose name is in this
    /// automaton's alphabet map to the number of that name here.
    pub open spec fn other_alphabet_map_of(&self, other: &DFA, oam: Map<usize, usize>) -> bool {
        &&& forall|o: usize| #[trigger] oam.contains_key(o) <==> o < other.alphabet@.len()
            && self.alphabet_index_map@.contains_key(other.alphabet@[o as int]@)
        &&& forall|o: usize| #[trigger] oam.contains_key(o) ==> oam[o] == self.alphabet_index_map@[other.alphabet@[o as int]@]
    }

    /// Transition `s` to `t` is one of the product of state `i` here and `j` of `other`.
    pub open spec fn prod_entry(&self, other: &DFA, oam: Map<usize, usize>, i: usize, j: usize, s: usize, t: usize) -> bool {
        self.row(i as int).contains_key(s) && exists|o: usize| #[trigger] other.row(j as int).contains_key(o) && oam.contains_key(o) && oam[o] == s
            && t == self.row(i as int)[s] * other.n() + other.row(j as int)[o]
    }

    /// Every transition of the product of `i` and `j` is in `row`, and its target pair in `seen`.
    pub open spec fn prod_done(&self, other: &DFA, oam: Map<usize, usize>, row: Map<usize, usize>, i: usize, j: usize, seen: Set<(usize, usize)>) -> bool {
        forall|o: usize| #[trigger] other.row(j as int).contains_key(o) && oam.contains_key(o) && self.row(i as int).contains_key(oam[o])
            ==> row.contains_key(oam[o]) && seen.contains((self.row(i as int)[oam[o]], other.row(j as int)[o]))
    }

    /// Returns the automaton of the intersection of the two languages; its
    /// states are the pairs of states, numbered `i * other.n() + j`, and only
    /// the pairs reachable from the pair of start states get transitions.
    pub fn intersection(&self, other: &DFA) -> (r: DFA)
        requires
            self.wf(),
            other.wf(),
            self.n() * other.n() <= usize::MAX,
        ensures
            r.wf(),
            r.n() == self.n() * other.n(),
            r.alphabet@ == self.alphabet@,
            r.alphabet_index_map@ == self.alphabet_index_map@,
            r.start_state == self.start_state * other.n() + other.start_state,
            r.symbols_mapped(),
            forall|i: int, j: int| 0 <= i < self.n() && 0 <= j < other.n() ==>
                #[trigger] r.states@[i * other.n() + j]@ == self.states@[i]@ + seq!['-'] + other.states@[j]@,
            other.symbols_mapped() ==> forall|w: Seq<Seq<char>>| #[trigger] r.accepts_word(w) <==> self.accepts_word(w) && other.accepts_word(w),
    {
        let n = self.states.len();
        let m = other.states.len();
        let alphabet = self.alphabet.clone();
        assert(alphabet@ =~= self.alphabet@);
        let alphabet_index_map = self.alphabet_index_map.clone();
        // map of other alphabet symbols to this DFA's alphabet
        let mut oam = IndexMap::new();
        let mut o: usize = 0;
        while o < other.alphabet.len()
            invariant
                o <= other.alphabet@.len(),
                forall|x: usize| #[trigger] oam@.contains_key(x) <==> x < o && self.alphabet_index_map@.contains_key(other.alphabet@[x as int]@),
                forall|x: usize| #[trigger] oam@.contains_key(x) ==> oam@[x] == self.alphabet_index_map@[other.alphabet@[x as int]@],
            decreases other.alphabet@.len() - o,
        {
            if let Some(index) = self.alphabet_index_map.get(&other.alphabet[o]) {
                oam.insert(o, index);
            }
            o = o + 1;
        }
        assert(self.other_alphabet_map_of(other, oam@));
        // the pair states
        let mut states: Vec<State> = Vec::new();
        let mut i: usize = 0;
        while i < n
            invariant
                n == self.n(),
                m == other.n(),
                n * m <= usize::MAX,
                i <= n,
                states@.len() == i * m,
                forall|i2: int, j2: int| 0 <= i2 < i && 0 <= j2 < m ==>
                    #[trigger] states@[i2 * m + j2]@ == self.states@[i2]@ + seq!['-'] + other.states@[j2]@,
            decreases n - i,
        {
            let mut j: usize = 0;
            while j < m
                invariant
                    n == self.n(),
                    m == other.n(),
                    n * m <= usize::MAX,
                    i < n,
                    j <= m,
                    states@.len() == i * m + j,
                    forall|i2: int, j2: int| 0 <= i2 < i && 0 <= j2 < m ==>
                        #[trigger] states@[i2 * m + j2]@ == self.states@[i2]@ + seq!['-'] + other.states@[j2]@,
                    forall|j2: int| 0 <= j2 < j ==> #[trigger] states@[i * m + j2]@ == self.states@[i as int]@ + seq!['-'] + other.states@[j2]@,
                decreases m - j,
            {
                proof {
                    lemma_pair_index_bound(i as int, j as int, n as int, m as int);
                }
                let mut name = self.states[i].name.clone();
                push_char(&mut name, '-');
                name.append(other.states[j].name.as_str());
                let ghost before = states@;
                states.push(State::from_string(name));
                proof {
                    assert forall|i2: int, j2: int| 0 <= i2 < i && 0 <= j2 < m implies
                        #[trigger] states@[i2 * m + j2]@ == self.states@[i2]@ + seq!['-'] + other.states@[j2]@ by {
                        lemma_pair_index_bound(i2, j2, i as int, m as int);
                        assert(states@[i2 * m + j2] == before[i2 * m + j2]);
                    }
                    assert forall|j2: int| 0 <= j2 < j + 1 implies #[trigger] states@[i * m + j2]@ == self.states@[i as int]@ + seq!['-'] + other.states@[j2]@ by {
                        if j2 < j {
                            assert(states@[i * m + j2] == before[i * m + j2]);
                        }
                    }
                }
                j = j + 1;
            }
            proof {
                assert((i + 1) * m == i * m + m) by (nonlinear_arith);
                assert forall|i2: int, j2: int| 0 <= i2 < i + 1 && 0 <= j2 < m implies
                    #[trigger] states@[i2 * m + j2]@ == self.states@[i2]@ + seq!['-'] + other.states@[j2]@ by {
                    if i2 == i {
                        assert(states@[i * m + j2]@ == self.states@[i as int]@ + seq!['-'] + other.states@[j2]@);
                    }
                }
            }
            i = i + 1;
        }
        let total = states.len();
        assert(total == n * m);
        // accept states: the pairs of accept states
        let own_accepts = self.accept_states.to_vec();
        let other_accepts = other.accept_states.to_vec();
        proof {
            assert forall|t: int| 0 <= t < own_accepts@.len() implies #[trigger] own_accepts@[t] < n by {
                assert(own_accepts@.to_set().contains(own_accepts@[t]));
            }
            assert forall|u: int| 0 <= u < other_accepts@.len() implies #[trigger] other_accepts@[u] < m by {
                assert(other_accepts@.to_set().contains(other_accepts@[u]));
            }
        }
        let accept_states = pair_numbers(&own_accepts, &other_accepts, n, m);
        proof {
            assert forall|x: usize| #[trigger] accept_states@.contains(x) <==> exists|i3: usize, j3: usize|
                #[trigger] self.accept_states@.contains(i3) && #[trigger] other.accept_states@.contains(j3) && x == i3 * m + j3 by {
                if accept_states@.contains(x) {
                    let (t, u) = choose|t: int, u: int| 0 <= t < own_accepts@.len() && 0 <= u < other_accepts@.len()
                        && x == #[trigger] own_accepts@[t] * m + #[trigger] other_accepts@[u];
                    assert(own_accepts@.to_set().contains(own_accepts@[t]));
                    assert(other_accepts@.to_set().contains(other_accepts@[u]));
                }
                if exists|i3: usize, j3: usize| #[trigger] self.accept_states@.contains(i3) && #[trigger] other.accept_states@.contains(j3) && x == i3 * m + j3 {
                    let (i3, j3) = choose|i3: usize, j3: usize| #[trigger] self.accept_states@.contains(i3) && #[trigger] other.accept_states@.contains(j3) && x == i3 * m + j3;
                    assert(own_accepts@.to_set().contains(i3));
                    assert(other_accepts@.to_set().contains(j3));
                    let t = choose|t: int| 0 <= t < own_accepts@.len() && own_accepts@[t] == i3;
                    let u = choose|u: int| 0 <= u < other_accepts@.len() && other_accepts@[u] == j3;
                    assert(x == own_accepts@[t] * m + other_accepts@[u]);
                }
            }
        }
        // the transitions, explored from the pair of start states
        let mut transitions: Vec<IndexMap> = Vec::new();
        let mut x: usize = 0;
        while x < total
            invariant
                x <= total,
                transitions@.len() == x,
                forall|y: int| 0 <= y < x ==> (#[trigger] transitions@[y])@ == Map::<usize, usize>::empty(),
            decreases total - x,
        {
            transitions.push(IndexMap::new());
            x = x + 1;
        }
        let start_pair = (self.start_state, other.start_state);
        proof {
            lemma_pair_index_bound(self.start_state as int, other.start_state as int, n as int, m as int);
        }
        assert forall|i2: usize, j2: usize, s: usize| i2 < n && j2 < m && #[trigger] transitions@[i2 * m + j2]@.contains_key(s)
            implies self.prod_entry(other, oam@, i2, j2, s, transitions@[i2 * m + j2]@[s]) by {
            lemma_pair_index_bound(i2 as int, j2 as int, n as int, m as int);
        }
        let mut to_process: Vec<(usize, usize)> = Vec::new();
        to_process.push(start_pair);
        let mut processed = PairSet::new();
        let ghost mut done: Set<(usize, usize)> = Set::empty();
        let ghost mut seen: Set<usize> = Set::empty();
        assert(to_process@[0] == start_pair);
        while to_process.len() > 0
            invariant
                self.wf(),
                other.wf(),
                n == self.n(),
                m == other.n(),
                total == n * m,
                n * m <= usize::MAX,
                start_pair == (self.start_state, other.start_state),
                self.other_alphabet_map_of(other, oam@),
                transitions@.len() == total,
                forall|p: (usize, usize)| #[trigger] processed@.contains(p) ==> p.0 < n && p.1 < m,
                forall|i2: usize, j2: usize| i2 < n && j2 < m ==> (processed@.contains((i2, j2)) <==> #[trigger] seen.contains((i2 * m + j2) as usize)),
                forall|y: usize| #[trigger] seen.contains(y) ==> y < total,
                forall|k: int| 0 <= k < to_process@.len() ==> (#[trigger] to_process@[k]).0 < n && to_process@[k].1 < m,
                forall|p: (usize, usize)| #[trigger] processed@.insert(start_pair).contains(p) ==> done.contains(p) || to_process@.contains(p),
                forall|p: (usize, usize)| #[trigger] done.contains(p) ==> p.0 < n && p.1 < m
                    && self.prod_done(other, oam@, transitions@[p.0 * m + p.1]@, p.0, p.1, processed@.insert(start_pair)),
                forall|i2: usize, j2: usize, s: usize| i2 < n && j2 < m && #[trigger] transitions@[i2 * m + j2]@.contains_key(s)
                    ==> self.prod_entry(other, oam@, i2, j2, s, transitions@[i2 * m + j2]@[s]),
            decreases total - seen.len(), to_process@.len(),
        {
            proof {
                lemma_bounded_set(seen, total as nat);
            }
            let ghost old_stack = to_process@;
            let (i2, j2) = to_process.pop().unwrap();
            assert(old_stack == to_process@.push((i2, j2)));
            assert(old_stack[old_stack.len() - 1] == (i2, j2));
            assert forall|p: (usize, usize)| old_stack.contains(p) && p != (i2, j2) implies to_process@.contains(p) by {
                let k = choose|k: int| 0 <= k < old_stack.len() && old_stack[k] == p;
                assert(to_process@[k] == p);
            }
            proof {
                lemma_pair_index_bound(i2 as int, j2 as int, n as int, m as int);
            }
            let state_index = i2 * m + j2;
            let pairs = other.transitions[j2].to_vec();
            let mut row = transitions[state_index].clone();
            let ghost seen0 = seen;
            let ghost stack_len0 = to_process@.len();
            let mut k: usize = 0;
            while k < pairs.len()
                invariant
                    self.wf(),
                    other.wf(),
                    n == self.n(),
                    m == other.n(),
                    total == n * m,
                    n * m <= usize::MAX,
                    i2 < n,
                    j2 < m,
                    state_index == i2 * m + j2,
                    start_pair == (self.start_state, other.start_state),
                    self.other_alphabet_map_of(other, oam@),
                    transitions@.len() == total,
                    seen0.finite(),
                    seen0.subset_of(seen),
                    seen.finite(),
                    to_process@.len() - stack_len0 == seen.len() - seen0.len(),
                    forall|p: (usize, usize)| #[trigger] processed@.contains(p) ==> p.0 < n && p.1 < m,
                    forall|i3: usize, j3: usize| i3 < n && j3 < m ==> (processed@.contains((i3, j3)) <==> #[trigger] seen.contains((i3 * m + j3) as usize)),
                    forall|y: usize| #[trigger] seen.contains(y) ==> y < total,
                    forall|k2: int| 0 <= k2 < to_process@.len() ==> (#[trigger] to_process@[k2]).0 < n && to_process@[k2].1 < m,
                    forall|p: (usize, usize)| #[trigger] processed@.insert(start_pair).contains(p) ==> done.contains(p) || to_process@.contains(p) || p == (i2, j2),
                    forall|p: (usize, usize)| #[trigger] done.contains(p) ==> p.0 < n && p.1 < m
                        && self.prod_done(other, oam@, transitions@[p.0 * m + p.1]@, p.0, p.1, processed@.insert(start_pair)),
                    forall|i3: usize, j3: usize, s: usize| i3 < n && j3 < m && #[trigger] transitions@[i3 * m + j3]@.contains_key(s)
                        ==> self.prod_entry(other, oam@, i3, j3, s, transitions@[i3 * m + j3]@[s]),
                    forall|s: usize| #[trigger] row@.contains_key(s) ==> self.prod_entry(other, oam@, i2, j2, s, row@[s]),
                    k <= pairs@.len(),
                    forall|t: int| 0 <= t < pairs@.len() ==> other.row(j2 as int).contains_key(#[trigger] pairs@[t].0) && other.row(j2 as int)[pairs@[t].0] == pairs@[t].1,
                    forall|t: int| 0 <= t < k && oam@.contains_key(#[trigger] pairs@[t].0) && self.row(i2 as int).contains_key(oam@[pairs@[t].0]) ==>
                        row@.contains_key(oam@[pairs@[t].0]) && processed@.insert(start_pair).contains((self.row(i2 as int)[oam@[pairs@[t].0]], pairs@[t].1)),
                decreases pairs@.len() - k,
            {
                let other_symbol = pairs[k].0;
                let next_other_state = pairs[k].1;
                assert(other.transitions@[j2 as int]@.contains_key(other_symbol));
                if let Some(symbol_index) = oam.get(other_symbol) {
                    if let Some(own_next_state) = self.transitions[i2].get(symbol_index) {
                        assert(self.transitions@[i2 as int]@.contains_key(symbol_index));
                        proof {
                            lemma_pair_index_bound(own_next_state as int, next_other_state as int, n as int, m as int);
                        }
                        let next_index = own_next_state * m + next_other_state;
                        let ghost row0 = row@;
                        row.insert(symbol_index, next_index);
                        proof {
                            assert(self.prod_entry(other, oam@, i2, j2, symbol_index, next_index));
                        }
                        let state_tuple = (own_next_state, next_other_state);
                        let ghost p0 = processed@;
                        let ghost s0 = to_process@;
                        if processed.insert(state_tuple) {
                            proof {
                                seen = seen.insert(next_index);
                            }
                            let ghost s1 = to_process@;
                            to_process.push(state_tuple);
                            proof {
                                assert forall|p: (usize, usize)| s0.contains(p) implies to_process@.contains(p) by {
                                    let t = choose|t: int| 0 <= t < s0.len() && s0[t] == p;
                                    assert(to_process@[t] == p);
                                }
                                assert(to_process@[to_process@.len() - 1] == state_tuple);
                                assert forall|i3: usize, j3: usize| i3 < n && j3 < m implies (processed@.contains((i3, j3)) <==> #[trigger] seen.contains((i3 * m + j3) as usize)) by {
                                    lemma_pair_index_bound(i3 as int, j3 as int, n as int, m as int);
                                    if i3 * m + j3 == next_index {
                                        lemma_pair_index_injective(i3 as int, j3 as int, own_next_state as int, next_other_state as int, m as int);
                                    }
                                }
                                assert forall|p: (usize, usize)| #[trigger] processed@.insert(start_pair).contains(p) implies done.contains(p) || to_process@.contains(p) || p == (i2, j2) by {
                                    if p != state_tuple {
                                        assert(p0.insert(start_pair).contains(p));
                                        if s0.contains(p) {
                                            assert(to_process@.contains(p));
                                        }
                                    }
                                }
                            }
                        } else {
                            assert(processed@ =~= p0);
                        }
                    }
                }
                k = k + 1;
            }
            proof {
                assert(self.prod_done(other, oam@, row@, i2, j2, processed@.insert(start_pair))) by {
                    assert forall|o: usize| #[trigger] other.row(j2 as int).contains_key(o) && oam@.contains_key(o) && self.row(i2 as int).contains_key(oam@[o])
                        implies row@.contains_key(oam@[o]) && processed@.insert(start_pair).contains((self.row(i2 as int)[oam@[o]], other.row(j2 as int)[o])) by {
                        let t = choose|t: int| 0 <= t < pairs@.len() && #[trigger] pairs@[t].0 == o;
                    }
                }
            }
            let ghost trans0 = transitions@;
            transitions.set(state_index, row);
            proof {
                done = done.insert((i2, j2));
                assert forall|p: (usize, usize)| #[trigger] done.contains(p) implies p.0 < n && p.1 < m
                    && self.prod_done(other, oam@, transitions@[p.0 * m + p.1]@, p.0, p.1, processed@.insert(start_pair)) by {
                    if p != (i2, j2) {
                        lemma_pair_index_bound(p.0 as int, p.1 as int, n as int, m as int);
                        if p.0 * m + p.1 == state_index {
                            lemma_pair_index_injective(p.0 as int, p.1 as int, i2 as int, j2 as int, m as int);
                        }
                        assert(transitions@[p.0 * m + p.1] == trans0[p.0 * m + p.1]);
                        assert forall|o: usize| #[trigger] other.row(p.1 as int).contains_key(o) && oam@.contains_key(o) && self.row(p.0 as int).contains_key(oam@[o])
                            implies transitions@[p.0 * m + p.1]@.contains_key(oam@[o]) by {
                            assert(trans0[p.0 * m + p.1]@.contains_key(oam@[o]));
                        }
                    }
                }
                assert forall|i3: usize, j3: usize, s: usize| i3 < n && j3 < m && #[trigger] transitions@[i3 * m + j3]@.contains_key(s)
                    implies self.prod_entry(other, oam@, i3, j3, s, transitions@[i3 * m + j3]@[s]) by {
                    lemma_pair_index_bound(i3 as int, j3 as int, n as int, m as int);
                    if i3 * m + j3 == state_index {
                        lemma_pair_index_injective(i3 as int, j3 as int, i2 as int, j2 as int, m as int);
                    } else {
                        assert(transitions@[i3 * m + j3] == trans0[i3 * m + j3]);
                    }
                }
                lemma_bounded_set(seen, total as nat);
                assert(stack_len0 == old_stack.len() - 1);
                vstd::set_lib::lemma_len_subset(seen0, seen);
                if seen.len() == seen0.len() {
                    assert(to_process@.len() < old_stack.len());
                } else {
                    assert(total - seen.len() < total - seen0.len());
                }
            }
        }
        // the map of state names
        let mut state_index_map = StateIndexMap::new();
        let mut y: usize = 0;
        while y < total
            invariant
                y <= total,
                total == states@.len(),
                forall|nm: Seq<char>| #[trigger] state_index_map@.contains_key(nm) ==> state_index_map@[nm] < y
                    && states@[state_index_map@[nm] as int]@ == nm,
            decreases total - y,
        {
            state_index_map.insert(states[y].clone(), y);
            y = y + 1;
        }
        let r = DFA {
            state_index_map,
            alphabet_index_map,
            states,
            alphabet,
            transitions,
            start_state: self.start_state * m + other.start_state,
            accept_states,
        };
        proof {
            self.lemma_intersection_result(other, &r, oam@, done, processed@.insert(start_pair));
        }
        r
    }

    /// The facts that the exploration of `intersection` leaves give the
    /// contract of `intersection`.
    proof fn lemma_intersection_result(&self, other: &DFA, r: &DFA, oam: Map<usize, usize>, done: Set<(usize, usize)>, reached: Set<(usize, usize)>)
        requires
            self.wf(),
            other.wf(),
            self.n() * other.n() <= usize::MAX,
            r.n() == self.n() * other.n(),
            r.transitions@.len() == r.n(),
            r.alphabet@ == self.alphabet@,
            r.alphabet_index_map@ == self.alphabet_index_map@,
            r.start_state == self.start_state * other.n() + other.start_state,
            self.other_alphabet_map_of(other, oam),
            reached.contains((self.start_state, other.start_state)),
            forall|p: (usize, usize)| #[trigger] reached.contains(p) ==> done.contains(p),
            forall|p: (usize, usize)| #[trigger] done.contains(p) ==> p.0 < self.n() && p.1 < other.n()
                && self.prod_done(other, oam, r.transitions@[p.0 * other.n() + p.1]@, p.0, p.1, reached),
            forall|i3: usize, j3: usize, s: usize| i3 < self.n() && j3 < other.n() && #[trigger] r.transitions@[i3 * other.n() + j3]@.contains_key(s)
                ==> self.prod_entry(other, oam, i3, j3, s, r.transitions@[i3 * other.n() + j3]@[s]),
            forall|x: usize| #[trigger] r.accept_states@.contains(x) <==> exists|i3: usize, j3: usize|
                #[trigger] self.accept_states@.contains(i3) && #[trigger] other.accept_states@.contains(j3) && x == i3 * other.n() + j3,
            forall|nm: Seq<char>| #[trigger] r.state_index_map@.contains_key(nm) ==> r.state_index_map@[nm] < r.n()
                && r.states@[r.state_index_map@[nm] as int]@ == nm,
        ensures
            r.wf(),
            r.symbols_mapped(),
            other.symbols_mapped() ==> forall|w: Seq<Seq<char>>| #[trigger] r.accepts_word(w) <==> self.accepts_word(w) && other.accepts_word(w),
    {
        let n = self.n() as int;
        let m = other.n() as int;
        lemma_pair_index_bound(self.start_state as int, other.start_state as int, n, m);
        assert forall|x: int, s: usize| 0 <= x < r.transitions@.len() && #[trigger] r.transitions@[x]@.contains_key(s) implies
            s < r.alphabet@.len() && r.transitions@[x]@[s] < r.states@.len()
            && r.alphabet_index_map@.contains_key(r.alphabet@[s as int]@) && r.alphabet_index_map@[r.alphabet@[s as int]@] == s by {
            lemma_pair_index_split(x, n, m);
            let i3 = (x / m) as usize;
            let j3 = (x % m) as usize;
            assert(r.transitions@[i3 * other.n() + j3]@.contains_key(s));
            let o = choose|o: usize| #[trigger] other.row(j3 as int).contains_key(o) && oam.contains_key(o) && oam[o] == s
                && r.transitions@[x]@[s] == self.row(i3 as int)[s] * other.n() + other.row(j3 as int)[o];
            assert(other.transitions@[j3 as int]@.contains_key(o));
            assert(self.transitions@[i3 as int]@.contains_key(s));
            assert(self.alphabet_index_map@.contains_key(other.alphabet@[o as int]@));
            lemma_pair_index_bound(self.row(i3 as int)[s] as int, other.row(j3 as int)[o] as int, n, m);
        }
        assert forall|q: usize| #[trigger] r.accept_states@.contains(q) implies q < r.states@.len() by {
            let (i3, j3) = choose|i3: usize, j3: usize| #[trigger] self.accept_states@.contains(i3) && #[trigger] other.accept_states@.contains(j3) && q == i3 * other.n() + j3;
            lemma_pair_index_bound(i3 as int, j3 as int, n, m);
        }
        assert(r.wf());
        if other.symbols_mapped() {
            assert forall|w: Seq<Seq<char>>| #[trigger] r.accepts_word(w) <==> self.accepts_word(w) && other.accepts_word(w) by {
                if self.over_alphabet(w) {
                    self.lemma_intersection_run(other, r, oam, done, reached, w);
                    let rr = r.run(r.start_state, self.symbol_indices(w));
                    if other.over_alphabet(w) {
                        match (self.run(self.start_state, self.symbol_indices(w)), other.run(other.start_state, other.symbol_indices(w))) {
                            (Some(p), Some(q)) => {
                                self.lemma_run_in_range(self.start_state, self.symbol_indices(w));
                                other.lemma_run_in_range(other.start_state, other.symbol_indices(w));
                                lemma_pair_index_bound(p as int, q as int, n, m);
                                assert(rr == Some((p * other.n() + q) as usize));
                                if r.accept_states@.contains((p * other.n() + q) as usize) {
                                    let (i3, j3) = choose|i3: usize, j3: usize| #[trigger] self.accept_states@.contains(i3) && #[trigger] other.accept_states@.contains(j3) && (p * other.n() + q) as usize == i3 * other.n() + j3;
                                    lemma_pair_index_injective(p as int, q as int, i3 as int, j3 as int, m);
                                }
                                if self.accept_states@.contains(p) && other.accept_states@.contains(q) {
                                    assert(r.accept_states@.contains((p * other.n() + q) as usize));
                                }
                            },
                            _ => {},
                        }
                    }
                }
            }
        }
    }

    /// A run of the product follows the runs of both automata while both
    /// go on, and its pairs are explored.
    proof fn lemma_intersection_run(&self, other: &DFA, r: &DFA, oam: Map<usize, usize>, done: Set<(usize, usize)>, reached: Set<(usize, usize)>, w: Seq<Seq<char>>)
        requires
            self.wf(),
            other.wf(),
            other.symbols_mapped(),
            self.n() * other.n() <= usize::MAX,
            r.n() == self.n() * other.n(),
            r.transitions@.len() == r.n(),
            r.alphabet_index_map@ == self.alphabet_index_map@,
            r.start_state == self.start_state * other.n() + other.start_state,
            self.other_alphabet_map_of(other, oam),
            reached.contains((self.start_state, other.start_state)),
            forall|p: (usize, usize)| #[trigger] reached.contains(p) ==> done.contains(p),
            forall|p: (usize, usize)| #[trigger] done.contains(p) ==> p.0 < self.n() && p.1 < other.n()
                && self.prod_done(other, oam, r.transitions@[p.0 * other.n() + p.1]@, p.0, p.1, reached),
            forall|i3: usize, j3: usize, s: usize| i3 < self.n() && j3 < other.n() && #[trigger] r.transitions@[i3 * other.n() + j3]@.contains_key(s)
                ==> self.prod_entry(other, oam, i3, j3, s, r.transitions@[i3 * other.n() + j3]@[s]),
            self.over_alphabet(w),
        ensures
            r.run(r.start_state, self.symbol_indices(w)) == (if other.over_alphabet(w) && self.run(self.start_state, self.symbol_indices(w)) is Some
                && other.run(other.start_state, other.symbol_indices(w)) is Some {
                Some((self.run(self.start_state, self.symbol_indices(w))->0 * other.n() + other.run(other.start_state, other.symbol_indices(w))->0) as usize)
            } else {
                None
            }),
            other.over_alphabet(w) && self.run(self.start_state, self.symbol_indices(w)) is Some
                && other.run(other.start_state, other.symbol_indices(w)) is Some ==>
                done.contains((self.run(self.start_state, self.symbol_indices(w))->0, other.run(other.start_state, other.symbol_indices(w))->0)),
        decreases w.len(),
    {
        let m = other.n();
        if w.len() == 0 {
            assert(self.symbol_indices(w) =~= Seq::<usize>::empty());
            assert(other.symbol_indices(w) =~= Seq::<usize>::empty());
            assert(other.over_alphabet(w));
        } else {
            let w0 = w.drop_last();
            let a = w.last();
            assert(self.over_alphabet(w0)) by {
                assert forall|i: int| 0 <= i < w0.len() implies self.alphabet_index_map@.contains_key(#[trigger] w0[i]) by {
                    assert(w0[i] == w[i]);
                }
            }
            self.lemma_intersection_run(other, r, oam, done, reached, w0);
            assert(self.symbol_indices(w).drop_last() =~= self.symbol_indices(w0));
            assert(self.alphabet_index_map@.contains_key(w[w.len() - 1]));
            let s = self.alphabet_index_map@[a];
            assert(self.symbol_indices(w).last() == s);
            let other_over = other.over_alphabet(w);
            if other_over {
                assert(other.over_alphabet(w0)) by {
                    assert forall|i: int| 0 <= i < w0.len() implies other.alphabet_index_map@.contains_key(#[trigger] w0[i]) by {
                        assert(w0[i] == w[i]);
                    }
                }
                assert(other.symbol_indices(w).drop_last() =~= other.symbol_indices(w0));
                assert(other.alphabet_index_map@.contains_key(w[w.len() - 1]));
                assert(other.symbol_indices(w).last() == other.alphabet_index_map@[a]);
            }
            let prev = r.run(r.start_state, self.symbol_indices(w0));
            if other.over_alphabet(w0) && self.run(self.start_state, self.symbol_indices(w0)) is Some
                && other.run(other.start_state, other.symbol_indices(w0)) is Some {
                let p = self.run(self.start_state, self.symbol_indices(w0))->0;
                let q = other.run(other.start_state, other.symbol_indices(w0))->0;
                assert(done.contains((p, q)));
                lemma_pair_index_bound(p as int, q as int, self.n() as int, m as int);
                let x = (p * m + q) as usize;
                let row = r.transitions@[x as int]@;
                assert(self.prod_done(other, oam, row, p, q, reached));
                if row.contains_key(s) {
                    assert(r.transitions@[p * other.n() + q]@.contains_key(s));
                    let o = choose|o: usize| #[trigger] other.row(q as int).contains_key(o) && oam.contains_key(o) && oam[o] == s
                        && row[s] == self.row(p as int)[s] * other.n() + other.row(q as int)[o];
                    assert(other.transitions@[q as int]@.contains_key(o));
                    let nm = other.alphabet@[o as int]@;
                    assert(self.alphabet_index_map@.contains_key(nm));
                    assert(nm == a);
                    assert(other_over) by {
                        assert forall|i: int| 0 <= i < w.len() implies other.alphabet_index_map@.contains_key(#[trigger] w[i]) by {
                            if i < w.len() - 1 {
                                assert(w[i] == w0[i]);
                            }
                        }
                    }
                    assert(other.alphabet_index_map@[a] == o);
                    assert(reached.contains((self.row(p as int)[s], other.row(q as int)[o])));
                } else {
                    if self.row(p as int).contains_key(s) && other_over && other.row(q as int).contains_key(other.alphabet_index_map@[a]) {
                        let o = other.alphabet_index_map@[a];
                        assert(other.transitions@[q as int]@.contains_key(o));
                        assert(other.alphabet@[o as int]@ == a);
                        assert(oam.contains_key(o));
                    }
                }
            } else {
                if other_over && other.run(other.start_state, other.symbol_indices(w)) is Some {
                    assert(other.run(other.start_state, other.symbol_indices(w0)) is Some);
                }
            }
        }
    }

    /// `self` and `other` hold the same states, symbols, transitions and maps.
    pub open spec fn same_as(&self, other: &DFA) -> bool {
        &&& self.state_index_map@ == other.state_index_map@
        &&& self.alphabet_index_map@ == other.alphabet_index_map@
        &&& self.states@ == other.states@
        &&& self.alphabet@ == other.alphabet@
        &&& self.transitions@.len() == other.transitions@.len()
        &&& forall|p: int| 0 <= p < self.transitions@.len() ==> #[trigger] self.transitions@[p]@ == other.transitions@[p]@
        &&& self.start_state == other.start_state
        &&& self.accept_states@ == other.accept_states@
    }

    /// Automata with the same transition rows run alike.
    pub proof fn lemma_same_rows_run(&self, other: &DFA, q: usize, w: Seq<usize>)
        requires
            self.transitions@.len() == other.transitions@.len(),
            forall|p: int| 0 <= p < self.transitions@.len() ==> #[trigger] self.transitions@[p]@ == other.transitions@[p]@,
        ensures
            self.run(q, w) == other.run(q, w),
        decreases w.len(),
    {
        if w.len() > 0 {
            self.lemma_same_rows_run(other, q, w.drop_last());
        }
    }

    /// Whether `name` is the name of an entry of `alphabet`.
    pub open spec fn names_contain(alphabet: Seq<InputSymbol>, name: Seq<char>) -> bool {
        exists|i: int| 0 <= i < alphabet.len() && (#[trigger] alphabet[i])@ == name
    }

    /// Appends to the alphabet every symbol of `alphabet` whose name it lacks.
    fn ensure_alphabet(&mut self, alphabet: &Vec<InputSymbol>)
        requires
            old(self).wf(),
        ensures
            final(self).wf(),
            final(self).states@ == old(self).states@,
            final(self).state_index_map@ == old(self).state_index_map@,
            final(self).transitions@ == old(self).transitions@,
            final(self).start_state == old(self).start_state,
            final(self).accept_states@ == old(self).accept_states@,
            final(self).alphabet@.len() >= old(self).alphabet@.len(),
            forall|i: int| 0 <= i < old(self).alphabet@.len() ==> #[trigger] final(self).alphabet@[i] == old(self).alphabet@[i],
            forall|s: Seq<char>| #[trigger] old(self).alphabet_index_map@.contains_key(s) ==> final(self).alphabet_index_map@.contains_key(s)
                && final(self).alphabet_index_map@[s] == old(self).alphabet_index_map@[s],
            forall|i: int| 0 <= i < alphabet@.len() ==> Self::names_contain(final(self).alphabet@, #[trigger] alphabet@[i]@),
            old(self).alphabet_mapped() ==> final(self).alphabet_mapped(),
    {
        let ghost o = *old(self);
        let mut k: usize = 0;
        while k < alphabet.len()
            invariant
                self.wf(),
                k <= alphabet@.len(),
                self.states@ == o.states@,
                self.state_index_map@ == o.state_index_map@,
                self.transitions@ == o.transitions@,
                self.start_state == o.start_state,
                self.accept_states@ == o.accept_states@,
                self.alphabet@.len() >= o.alphabet@.len(),
                forall|i: int| 0 <= i < o.alphabet@.len() ==> #[trigger] self.alphabet@[i] == o.alphabet@[i],
                forall|s: Seq<char>| #[trigger] o.alphabet_index_map@.contains_key(s) ==> self.alphabet_index_map@.contains_key(s)
                    && self.alphabet_index_map@[s] == o.alphabet_index_map@[s],
                forall|i: int| 0 <= i < k ==> Self::names_contain(self.alphabet@, #[trigger] alphabet@[i]@),
                o.alphabet_mapped() ==> self.alphabet_mapped(),
            decreases alphabet@.len() - k,
        {
            let symbol = &alphabet[k];
            let ghost before = *self;
            let mut found = false;
            let mut j: usize = 0;
            while j < self.alphabet.len()
                invariant
                    j <= self.alphabet@.len(),
                    found <==> exists|t: int| 0 <= t < j && (#[trigger] self.alphabet@[t])@ == symbol@,
                decreases self.alphabet@.len() - j,
            {
                if same_symbol(&self.alphabet[j], symbol) {
                    found = true;
                }
                j = j + 1;
            }
            if !found {
                let index = self.alphabet.len();
                proof {
                    if self.alphabet_index_map@.contains_key(symbol@) {
                        let t = self.alphabet_index_map@[symbol@];
                        assert(self.alphabet@[t as int]@ == symbol@);
                    }
                }
                self.alphabet.push(symbol.clone());
                self.alphabet_index_map.insert(symbol.clone(), index);
                proof {
                    assert(self.alphabet@[index as int]@ == symbol@);
                    assert forall|i: int| 0 <= i < k + 1 implies Self::names_contain(self.alphabet@, #[trigger] alphabet@[i]@) by {
                        if i < k {
                            let t = choose|t: int| 0 <= t < before.alphabet@.len() && (#[trigger] before.alphabet@[t])@ == alphabet@[i]@;
                            assert(self.alphabet@[t] == before.alphabet@[t]);
                        }
                    }
                    if o.alphabet_mapped() {
                        assert forall|i: int| 0 <= i < self.alphabet@.len() implies self.alphabet_index_map@.contains_key(
                            #[trigger] self.alphabet@[i]@) && self.alphabet_index_map@[self.alphabet@[i]@] == i by {
                            if i < index {
                                assert(self.alphabet@[i] == before.alphabet@[i]);
                                assert(before.alphabet@[i]@ != symbol@);
                            }
                        }
                    }
                }
            }
            k = k + 1;
        }
    }

    /// Returns the automaton of the words of this language that `other`
    /// does not accept: the intersection with the complement of `other`,
    /// taken over an alphabet that holds this one.
    pub fn difference(&self, other: &Self) -> (r: DFA)
        requires
            self.wf(),
            other.wf(),
            other.n() < usize::MAX,
            self.n() * (other.n() + 1) <= usize::MAX,
        ensures
            r.wf(),
            r.n() == self.n() * (other.n() + 1),
            r.alphabet@ == self.alphabet@,
            r.alphabet_index_map@ == self.alphabet_index_map@,
            other.alphabet_mapped() ==> forall|w: Seq<Seq<char>>| #[trigger] r.accepts_word(w) <==> self.accepts_word(w) && !other.accepts_word(w),
    {
        let mut other_sure = other.clone();
        let ghost copy = other_sure;
        other_sure.ensure_alphabet(&self.alphabet);
        let comp = other_sure.complement();
        let r = self.intersection(&comp);
        proof {
            if other.alphabet_mapped() {
                assert(copy.alphabet_mapped());
                assert forall|w: Seq<Seq<char>>| #[trigger] r.accepts_word(w) <==> self.accepts_word(w) && !other.accepts_word(w) by {
                    other.lemma_extended_alphabet(&other_sure, w);
                    if self.accepts_word(w) {
                        assert forall|i: int| 0 <= i < w.len() implies other_sure.alphabet_index_map@.contains_key(#[trigger] w[i]) by {
                            assert(self.alphabet_index_map@.contains_key(w[i]));
                            let t = self.alphabet_index_map@[w[i]];
                            assert(self.alphabet@[t as int]@ == w[i]);
                            assert(Self::names_contain(other_sure.alphabet@, self.alphabet@[t as int]@));
                            let u = choose|u: int| 0 <= u < other_sure.alphabet@.len() && (#[trigger] other_sure.alphabet@[u])@ == self.alphabet@[t as int]@;
                        }
                    }
                }
            }
        }
        r
    }

    /// Adding symbols (with no transitions) to the alphabet keeps the language.
    proof fn lemma_extended_alphabet(&self, ext: &DFA, w: Seq<Seq<char>>)
        requires
            self.wf(),
            ext.wf(),
            ext.states@ == self.states@,
            ext.transitions@.len() == self.transitions@.len(),
            forall|p: int| 0 <= p < self.transitions@.len() ==> #[trigger] self.transitions@[p]@ == ext.transitions@[p]@,
            ext.start_state == self.start_state,
            ext.accept_states@ == self.accept_states@,
            forall|s: Seq<char>| #[trigger] self.alphabet_index_map@.contains_key(s) ==> ext.alphabet_index_map@.contains_key(s)
                && ext.alphabet_index_map@[s] == self.alphabet_index_map@[s],
            forall|i: int| 0 <= i < self.alphabet@.len() ==> #[trigger] ext.alphabet@[i] == self.alphabet@[i],
            ext.alphabet@.len() >= self.alphabet@.len(),
            self.alphabet_mapped(),
        ensures
            ext.accepts_word(w) == self.accepts_word(w),
    {
        if self.over_alphabet(w) {
            assert(ext.over_alphabet(w));
            assert(ext.symbol_indices(w) =~= self.symbol_indices(w));
            self.lemma_same_rows_run(ext, self.start_state, self.symbol_indices(w));
        } else if ext.over_alphabet(w) {
            let i = choose|i: int| 0 <= i < w.len() && !self.alphabet_index_map@.contains_key(#[trigger] w[i]);
            let u = ext.symbol_indices(w);
            let x = ext.alphabet_index_map@[w[i]];
            assert(u[i] == x);
            assert(x >= self.alphabet@.len()) by {
                if x < self.alphabet@.len() {
                    assert(ext.alphabet@[x as int]@ == w[i]);
                    assert(self.alphabet@[x as int]@ == w[i]);
                    assert(self.alphabet_index_map@.contains_key(self.alphabet@[x as int]@));
                }
            }
            if ext.accepts_indices(u) {
                self.lemma_same_rows_run(ext, self.start_state, u);
                self.lemma_run_stuck_on_unused(u, i, self.alphabet@.len());
            }
        }
    }

    /// A run that uses a symbol number at or above `k`, where no transition
    /// uses such a number, gets stuck.
    proof fn lemma_run_stuck_on_unused(&self, u: Seq<usize>, i: int, k: nat)
        requires
            0 <= i < u.len(),
            u[i] >= k,
            forall|p: int, a: usize| 0 <= p < self.transitions@.len() && #[trigger] self.transitions@[p]@.contains_key(a) ==> a < k,
        ensures
            self.run(self.start_state, u) is None,
    {
        assert(self.run(self.start_state, u.take(i + 1)) is None) by {
            assert(u.take(i + 1).drop_last() =~= u.take(i));
            assert(u.take(i + 1).last() == u[i]);
        }
        self.lemma_run_prefix_stuck(self.start_state, u, i + 1);
    }

    /// Whether state `q` reaches state `p` in exactly `k` steps.
    pub open spec fn reaches_in(&self, q: usize, k: nat, p: usize) -> bool {
        exists|u: Seq<usize>| u.len() == k && #[trigger] self.run(q, u) == Some(p)
    }

    /// One more step: what `q` reaches in `k + 1` steps is what a state that
    /// `q` reaches in `k` steps goes to.
    proof fn lemma_reaches_in_step(&self, q: usize, k: nat, t: usize)
        ensures
            self.reaches_in(q, k + 1, t) <==> exists|p: usize, a: usize| self.reaches_in(q, k, p) && #[trigger] self.step(p, a) == Some(t),
    {
        if self.reaches_in(q, k + 1, t) {
            let u = choose|u: Seq<usize>| u.len() == k + 1 && #[trigger] self.run(q, u) == Some(t);
            let p = self.run(q, u.drop_last())->0;
            assert(self.run(q, u.drop_last()) == Some(p));
            assert(self.reaches_in(q, k, p));
            assert(self.step(p, u.last()) == Some(t));
        }
        if exists|p: usize, a: usize| self.reaches_in(q, k, p) && #[trigger] self.step(p, a) == Some(t) {
            let (p, a) = choose|p: usize, a: usize| self.reaches_in(q, k, p) && #[trigger] self.step(p, a) == Some(t);
            let u = choose|u: Seq<usize>| u.len() == k && #[trigger] self.run(q, u) == Some(p);
            assert(u.push(a).drop_last() =~= u);
            assert(self.run(q, u.push(a)) == Some(t));
        }
    }

    /// The states that `state` reaches in exactly `k` steps.
    fn states_reached_in(&self, state: usize, k: usize) -> (r: IndexSet)
        requires
            self.wf(),
            state < self.n(),
        ensures
            forall|p: usize| #[trigger] r@.contains(p) <==> self.reaches_in(state, k as nat, p),
            forall|p: usize| #[trigger] r@.contains(p) ==> p < self.n(),
    {
        let mut reachable = IndexSet::new();
        reachable.insert(state);
        proof {
            assert forall|p: usize| #[trigger] reachable@.contains(p) <==> self.reaches_in(state, 0, p) by {
                if self.reaches_in(state, 0, p) {
                    let u = choose|u: Seq<usize>| u.len() == 0 && #[trigger] self.run(state, u) == Some(p);
                    assert(u =~= Seq::<usize>::empty());
                }
                assert(self.run(state, Seq::<usize>::empty()) == Some(state));
            }
        }
        let mut i: usize = 0;
        while i < k
            invariant
                self.wf(),
                state < self.n(),
                i <= k,
                forall|p: usize| #[trigger] reachable@.contains(p) <==> self.reaches_in(state, i as nat, p),
                forall|p: usize| #[trigger] reachable@.contains(p) ==> p < self.n(),
            decreases k - i,
        {
            let current = reachable.to_vec();
            let mut next = IndexSet::new();
            let mut c: usize = 0;
            while c < current.len()
                invariant
                    self.wf(),
                    c <= current@.len(),
                    current@.to_set() == reachable@,
                    forall|p: usize| #[trigger] reachable@.contains(p) ==> p < self.n(),
                    forall|t: usize| #[trigger] next@.contains(t) <==> exists|d: int, a: usize| 0 <= d < c && #[trigger] self.step(current@[d], a) == Some(t),
                decreases current@.len() - c,
            {
                let cur = current[c];
                assert(current@.to_set().contains(cur));
                let pairs = self.transitions[cur].to_vec();
                let mut e: usize = 0;
                while e < pairs.len()
                    invariant
                        self.wf(),
                        c < current@.len(),
                        cur == current@[c as int],
                        cur < self.n(),
                        e <= pairs@.len(),
                        forall|j: int| 0 <= j < pairs@.len() ==> self.row(cur as int).contains_key(#[trigger] pairs@[j].0) && self.row(cur as int)[pairs@[j].0] == pairs@[j].1,
                        forall|t: usize| #[trigger] next@.contains(t) <==> (exists|d: int, a: usize| 0 <= d < c && #[trigger] self.step(current@[d], a) == Some(t))
                            || (exists|j: int| 0 <= j < e && #[trigger] pairs@[j].1 == t),
                    decreases pairs@.len() - e,
                {
                    next.insert(pairs[e].1);
                    proof {
                        assert forall|t: usize| #[trigger] next@.contains(t) <==> (exists|d: int, a: usize| 0 <= d < c && #[trigger] self.step(current@[d], a) == Some(t))
                            || (exists|j: int| 0 <= j < e + 1 && #[trigger] pairs@[j].1 == t) by {
                            if t == pairs@[e as int].1 {
                                assert(exists|j: int| 0 <= j < e + 1 && #[trigger] pairs@[j].1 == t);
                            }
                        }
                    }
                    e = e + 1;
                }
                proof {
                    assert forall|t: usize| #[trigger] next@.contains(t) <==> exists|d: int, a: usize| 0 <= d < c + 1 && #[trigger] self.step(current@[d], a) == Some(t) by {
                        if exists|j: int| 0 <= j < e && #[trigger] pairs@[j].1 == t {
                            let j = choose|j: int| 0 <= j < e && #[trigger] pairs@[j].1 == t;
                            assert(self.step(current@[c as int], pairs@[j].0) == Some(t));
                        }
                        if exists|d: int, a: usize| 0 <= d < c + 1 && #[trigger] self.step(current@[d], a) == Some(t) {
                            let (d, a) = choose|d: int, a: usize| 0 <= d < c + 1 && #[trigger] self.step(current@[d], a) == Some(t);
                            if d == c {
                                let j = choose|j: int| 0 <= j < pairs@.len() && #[trigger] pairs@[j].0 == a;
                                assert(pairs@[j].1 == t);
                            }
                        }
                    }
                }
                c = c + 1;
            }
            proof {
                assert forall|t: usize| #[trigger] next@.contains(t) <==> self.reaches_in(state, (i + 1) as nat, t) by {
                    self.lemma_reaches_in_step(state, i as nat, t);
                    if next@.contains(t) {
                        let (d, a) = choose|d: int, a: usize| 0 <= d < c && #[trigger] self.step(current@[d], a) == Some(t);
                        assert(current@.to_set().contains(current@[d]));
                    }
                    if self.reaches_in(state, (i + 1) as nat, t) {
                        let (p, a) = choose|p: usize, a: usize| self.reaches_in(state, i as nat, p) && #[trigger] self.step(p, a) == Some(t);
                        assert(reachable@.contains(p));
                        assert(current@.to_set().contains(p));
                        let d = choose|d: int| 0 <= d < current@.len() && current@[d] == p;
                        assert(self.step(current@[d], a) == Some(t));
                    }
                }
                assert forall|t: usize| #[trigger] next@.contains(t) implies t < self.n() by {
                    let (d, a) = choose|d: int, a: usize| 0 <= d < c && #[trigger] self.step(current@[d], a) == Some(t);
                    assert(current@.to_set().contains(current@[d]));
                    assert(self.transitions@[current@[d] as int]@.contains_key(a));
                }
            }
            reachable = next;
            i = i + 1;
        }
        reachable
    }

    /// The states that reach, in exactly `n` steps, a state from which an accept state is reachable.
    pub open spec fn n_prefix_accepting(&self, q: usize, n: nat) -> bool {
        exists|p: usize| self.reaches_in(q, n, p) && #[trigger] self.leads_to_accept(p)
    }

    /// A state is `n`-prefix accepting exactly when some word of length at least `n` leads from it to acceptance.
    proof fn lemma_n_prefix_accepting(&self, q: usize, n: nat)
        ensures
            self.n_prefix_accepting(q, n) <==> exists|u: Seq<usize>| u.len() >= n && #[trigger] self.accepts_from(q, u),
    {
        if self.n_prefix_accepting(q, n) {
            let p = choose|p: usize| self.reaches_in(q, n, p) && #[trigger] self.leads_to_accept(p);
            let u1 = choose|u: Seq<usize>| u.len() == n && #[trigger] self.run(q, u) == Some(p);
            let u2 = choose|w: Seq<usize>| #[trigger] self.run(p, w) matches Some(f) && self.accept_states@.contains(f);
            self.lemma_run_concat(q, u1, u2);
            assert((u1 + u2).len() >= n);
            assert(self.accepts_from(q, u1 + u2));
        }
        if exists|u: Seq<usize>| u.len() >= n && #[trigger] self.accepts_from(q, u) {
            let u = choose|u: Seq<usize>| u.len() >= n && #[trigger] self.accepts_from(q, u);
            self.lemma_run_concat(q, u.take(n as int), u.skip(n as int));
            assert(u.take(n as int) + u.skip(n as int) =~= u);
            let p = self.run(q, u.take(n as int))->0;
            assert(u.take(n as int).len() == n);
            assert(self.run(q, u.take(n as int)) == Some(p));
            assert(self.reaches_in(q, n, p));
            assert(self.run(p, u.skip(n as int)) matches Some(f) && self.accept_states@.contains(f));
            assert(self.leads_to_accept(p));
        }
    }

    /// With every used symbol mapped, the symbol numbers of a run that does
    /// not get stuck are the numbers of their names.
    proof fn lemma_run_names(&self, q: usize, u: Seq<usize>)
        requires
            self.wf(),
            self.symbols_mapped(),
            q < self.n(),
            self.run(q, u) is Some,
        ensures
            self.over_alphabet(u.map_values(|a: usize| self.alphabet@[a as int]@)),
            self.symbol_indices(u.map_values(|a: usize| self.alphabet@[a as int]@)) == u,
        decreases u.len(),
    {
        let v = u.map_values(|a: usize| self.alphabet@[a as int]@);
        if u.len() > 0 {
            let u0 = u.drop_last();
            self.lemma_run_names(q, u0);
            self.lemma_run_in_range(q, u0);
            let v0 = u0.map_values(|a: usize| self.alphabet@[a as int]@);
            assert(v.drop_last() =~= v0);
            let p = self.run(q, u0)->0;
            assert(self.transitions@[p as int]@.contains_key(u.last()));
            assert forall|i: int| 0 <= i < v.len() implies self.alphabet_index_map@.contains_key(#[trigger] v[i]) by {
                if i < v.len() - 1 {
                    assert(v[i] == v0[i]);
                }
            }
            assert(self.symbol_indices(v) =~= u) by {
                assert forall|i: int| 0 <= i < u.len() implies #[trigger] self.symbol_indices(v)[i] == u[i] by {
                    if i < u.len() - 1 {
                        assert(v[i] == v0[i]);
                        assert(self.symbol_indices(v0)[i] == u0[i]);
                    }
                }
            }
        } else {
            assert(self.symbol_indices(v) =~= u);
        }
    }

    /// Returns the automaton of the words that some word of length at least
    /// `n` extends to a word of this language: the same automaton, whose
    /// accept states are those that reach, in `n` steps, a state leading to acceptance.
    pub fn n_prefix_language(self, n: usize) -> (r: DFA)
        requires
            self.wf(),
        ensures
            r.wf(),
            r.states@ == self.states@,
            r.alphabet@ == self.alphabet@,
            r.state_index_map@ == self.state_index_map@,
            r.alphabet_index_map@ == self.alphabet_index_map@,
            r.transitions@ == self.transitions@,
            r.start_state == self.start_state,
            forall|q: usize| #[trigger] r.accept_states@.contains(q) <==> q < self.n() && self.n_prefix_accepting(q, n as nat),
            forall|w: Seq<usize>| #[trigger] r.accepts_indices(w) <==> exists|u: Seq<usize>| u.len() >= n && #[trigger] self.accepts_indices(w + u),
            self.symbols_mapped() ==> forall|w: Seq<Seq<char>>| #[trigger] r.accepts_word(w) <==> exists|v: Seq<Seq<char>>| v.len() >= n && #[trigger] self.accepts_word(w + v),
    {
        let leading_states = self.leading_to_accept_states();
        let mut accept_states = IndexSet::new();
        let mut state: usize = 0;
        while state < self.states.len()
            invariant
                self.wf(),
                state <= self.n(),
                forall|p: usize| #[trigger] leading_states@.contains(p) <==> p < self.n() && self.leads_to_accept(p),
                forall|q: usize| #[trigger] accept_states@.contains(q) <==> q < state && self.n_prefix_accepting(q, n as nat),
            decreases self.n() - state,
        {
            let reachable = self.states_reached_in(state, n);
            let reached = reachable.to_vec();
            let mut hit = false;
            let mut c: usize = 0;
            while c < reached.len()
                invariant
                    c <= reached@.len(),
                    hit <==> exists|d: int| 0 <= d < c && leading_states@.contains(#[trigger] reached@[d]),
                decreases reached@.len() - c,
            {
                if leading_states.contains(reached[c]) {
                    hit = true;
                }
                c = c + 1;
            }
            proof {
                assert(hit <==> self.n_prefix_accepting(state, n as nat)) by {
                    if hit {
                        let d = choose|d: int| 0 <= d < c && leading_states@.contains(#[trigger] reached@[d]);
                        assert(reached@.to_set().contains(reached@[d]));
                        assert(self.leads_to_accept(reached@[d]));
                    }
                    if self.n_prefix_accepting(state, n as nat) {
                        let p = choose|p: usize| self.reaches_in(state, n as nat, p) && #[trigger] self.leads_to_accept(p);
                        assert(reachable@.contains(p));
                        assert(reached@.to_set().contains(p));
                        let d = choose|d: int| 0 <= d < reached@.len() && reached@[d] == p;
                        assert(leading_states@.contains(reached@[d]));
                    }
                }
            }
            if hit {
                accept_states.insert(state);
            }
            state = state + 1;
        }
        let mut r = self;
        r.accept_states = accept_states;
        proof {
            assert forall|w: Seq<usize>| #[trigger] r.accepts_indices(w) <==> exists|u: Seq<usize>| u.len() >= n && #[trigger] self.accepts_indices(w + u) by {
                r.lemma_same_rows_run(&self, self.start_state, w);
                match self.run(self.start_state, w) {
                    Some(q) => {
                        self.lemma_run_in_range(self.start_state, w);
                        self.lemma_n_prefix_accepting(q, n as nat);
                        if r.accepts_indices(w) {
                            assert(self.n_prefix_accepting(q, n as nat));
                            let u = choose|u: Seq<usize>| u.len() >= n && #[trigger] self.accepts_from(q, u);
                            self.lemma_run_concat(self.start_state, w, u);
                            assert(self.accepts_indices(w + u));
                            assert(u.len() >= n && self.accepts_indices(w + u));
                        }
                        if exists|u: Seq<usize>| u.len() >= n && #[trigger] self.accepts_indices(w + u) {
                            let u = choose|u: Seq<usize>| u.len() >= n && #[trigger] self.accepts_indices(w + u);
                            self.lemma_run_concat(self.start_state, w, u);
                            assert(self.accepts_from(q, u));
                            assert(self.n_prefix_accepting(q, n as nat));
                            assert(r.accept_states@.contains(q));
                        }
                    },
                    None => {
                        if exists|u: Seq<usize>| u.len() >= n && #[trigger] self.accepts_indices(w + u) {
                            let u = choose|u: Seq<usize>| u.len() >= n && #[trigger] self.accepts_indices(w + u);
                            self.lemma_run_concat(self.start_state, w, u);
                        }
                    },
                }
            }
            if self.symbols_mapped() {
                assert forall|w: Seq<Seq<char>>| #[trigger] r.accepts_word(w) <==> exists|v: Seq<Seq<char>>| v.len() >= n && #[trigger] self.accepts_word(w + v) by {
                    if r.accepts_word(w) {
                        let iw = self.symbol_indices(w);
                        assert(r.accepts_indices(iw));
                        let u = choose|u: Seq<usize>| u.len() >= n && #[trigger] self.accepts_indices(iw + u);
                        self.lemma_run_concat(self.start_state, iw, u);
                        let q = self.run(self.start_state, iw)->0;
                        self.lemma_run_in_range(self.start_state, iw);
                        self.lemma_run_names(q, u);
                        let v = u.map_values(|a: usize| self.alphabet@[a as int]@);
                        assert(self.over_alphabet(w + v)) by {
                            assert forall|i: int| 0 <= i < (w + v).len() implies self.alphabet_index_map@.contains_key(#[trigger] (w + v)[i]) by {
                                if i < w.len() {
                                    assert((w + v)[i] == w[i]);
                                } else {
                                    assert((w + v)[i] == v[i - w.len()]);
                                }
                            }
                        }
                        assert(self.symbol_indices(w + v) =~= iw + u);
                        assert(self.accepts_word(w + v));
                    }
                    if exists|v: Seq<Seq<char>>| v.len() >= n && #[trigger] self.accepts_word(w + v) {
                        let v = choose|v: Seq<Seq<char>>| v.len() >= n && #[trigger] self.accepts_word(w + v);
                        assert(self.over_alphabet(w)) by {
                            assert forall|i: int| 0 <= i < w.len() implies self.alphabet_index_map@.contains_key(#[trigger] w[i]) by {
                                assert((w + v)[i] == w[i]);
                            }
                        }
                        assert(self.over_alphabet(v)) by {
                            assert forall|i: int| 0 <= i < v.len() implies self.alphabet_index_map@.contains_key(#[trigger] v[i]) by {
                                assert((w + v)[w.len() + i] == v[i]);
                            }
                        }
                        assert(self.symbol_indices(w + v) =~= self.symbol_indices(w) + self.symbol_indices(v));
                        assert(self.accepts_indices(self.symbol_indices(w) + self.symbol_indices(v)));
                        assert(r.accepts_indices(self.symbol_indices(w)));
                    }
                }
            }
        }
        r
    }

    /// The prefix language: the words that some word extends to a word of this language.
    pub fn prefix_language(self) -> (r: DFA)
        requires
            self.wf(),
        ensures
            r.wf(),
            r.alphabet_index_map@ == self.alphabet_index_map@,
            forall|w: Seq<usize>| #[trigger] r.accepts_indices(w) <==> exists|u: Seq<usize>| #[trigger] self.accepts_indices(w + u),
            self.symbols_mapped() ==> forall|w: Seq<Seq<char>>| #[trigger] r.accepts_word(w) <==> exists|v: Seq<Seq<char>>| #[trigger] self.accepts_word(w + v),
    {
        self.n_prefix_language(0)
    }

    /// The true prefix language: the words that some word of at least one
    /// symbol extends to a word of this language.
    pub fn true_prefix_language(self) -> (r: DFA)
        requires
            self.wf(),
        ensures
            r.wf(),
            r.alphabet_index_map@ == self.alphabet_index_map@,
            forall|w: Seq<usize>| #[trigger] r.accepts_indices(w) <==> exists|u: Seq<usize>| u.len() >= 1 && #[trigger] self.accepts_indices(w + u),
            self.symbols_mapped() ==> forall|w: Seq<Seq<char>>| #[trigger] r.accepts_word(w) <==> exists|v: Seq<Seq<char>>| v.len() >= 1 && #[trigger] self.accepts_word(w + v),
    {
        self.n_prefix_language(1)
    }

    /// The names of the accept states.
    pub fn get_accept_states(&self) -> (r: StateSet)
        requires
            self.wf(),
        ensures
            forall|nm: Seq<char>| #[trigger] r@.contains(nm) <==> exists|q: usize| #[trigger] self.accept_states@.contains(q) && self.states@[q as int]@ == nm,
    {
        let accepts = self.accept_states.to_vec();
        let mut r = StateSet::new();
        let mut k: usize = 0;
        while k < accepts.len()
            invariant
                self.wf(),
                k <= accepts@.len(),
                accepts@.to_set() == self.accept_states@,
                forall|nm: Seq<char>| #[trigger] r@.contains(nm) <==> exists|j: int| 0 <= j < k && self.states@[#[trigger] accepts@[j] as int]@ == nm,
            decreases accepts@.len() - k,
        {
            let q = accepts[k];
            assert(accepts@.to_set().contains(q));
            r.insert(self.states[q].clone());
            proof {
                assert forall|nm: Seq<char>| #[trigger] r@.contains(nm) <==> exists|j: int| 0 <= j < k + 1 && self.states@[#[trigger] accepts@[j] as int]@ == nm by {
                    if nm == self.states@[q as int]@ {
                        assert(self.states@[accepts@[k as int] as int]@ == nm);
                    }
                }
            }
            k = k + 1;
        }
        proof {
            assert forall|nm: Seq<char>| #[trigger] r@.contains(nm) <==> exists|q: usize| #[trigger] self.accept_states@.contains(q) && self.states@[q as int]@ == nm by {
                if r@.contains(nm) {
                    let j = choose|j: int| 0 <= j < k && self.states@[#[trigger] accepts@[j] as int]@ == nm;
                    assert(accepts@.to_set().contains(accepts@[j]));
                }
                if exists|q: usize| #[trigger] self.accept_states@.contains(q) && self.states@[q as int]@ == nm {
                    let q = choose|q: usize| #[trigger] self.accept_states@.contains(q) && self.states@[q as int]@ == nm;
                    assert(accepts@.to_set().contains(q));
                    let j = choose|j: int| 0 <= j < accepts@.len() && accepts@[j] == q;
                    assert(self.states@[accepts@[j] as int]@ == nm);
                }
            }
        }
        r
    }

    /// Whether `t` is a transition of the automaton, as source state, symbol and target state.
    pub open spec fn is_transition_triple(&self, t: (State, InputSymbol, State)) -> bool {
        exists|p: int, a: usize| 0 <= p < self.n() && #[trigger] self.row(p).contains_key(a)
            && t == (self.states@[p], self.alphabet@[a as int], self.states@[self.row(p)[a] as int])
    }

    /// The transitions as triples of source state, symbol and target state, in an order left open.
    pub fn get_transitions(&self) -> (r: Vec<(State, InputSymbol, State)>)
        requires
            self.wf(),
        ensures
            forall|k: int| 0 <= k < r@.len() ==> self.is_transition_triple(#[trigger] r@[k]),
            forall|p: int, a: usize| 0 <= p < self.n() && #[trigger] self.row(p).contains_key(a) ==> exists|k: int| 0 <= k < r@.len()
                && r@[k] == (self.states@[p], self.alphabet@[a as int], self.states@[self.row(p)[a] as int]),
    {
        let mut r: Vec<(State, InputSymbol, State)> = Vec::new();
        let mut from_state: usize = 0;
        while from_state < self.transitions.len()
            invariant
                self.wf(),
                from_state <= self.n(),
                forall|k: int| 0 <= k < r@.len() ==> self.is_transition_triple(#[trigger] r@[k]),
                forall|p: int, a: usize| 0 <= p < from_state && #[trigger] self.row(p).contains_key(a) ==> exists|k: int| 0 <= k < r@.len()
                    && r@[k] == (self.states@[p], self.alphabet@[a as int], self.states@[self.row(p)[a] as int]),
            decreases self.n() - from_state,
        {
            let pairs = self.transitions[from_state].to_vec();
            let mut e: usize = 0;
            while e < pairs.len()
                invariant
                    self.wf(),
                    from_state < self.n(),
                    e <= pairs@.len(),
                    forall|j: int| 0 <= j < pairs@.len() ==> self.row(from_state as int).contains_key(#[trigger] pairs@[j].0) && self.row(from_state as int)[pairs@[j].0] == pairs@[j].1,
                    forall|k: int| 0 <= k < r@.len() ==> self.is_transition_triple(#[trigger] r@[k]),
                    forall|p: int, a: usize| 0 <= p < from_state && #[trigger] self.row(p).contains_key(a) ==> exists|k: int| 0 <= k < r@.len()
                        && r@[k] == (self.states@[p], self.alphabet@[a as int], self.states@[self.row(p)[a] as int]),
                    forall|j: int| 0 <= j < e ==> exists|k: int| 0 <= k < r@.len()
                        && r@[k] == (self.states@[from_state as int], self.alphabet@[#[trigger] pairs@[j].0 as int], self.states@[pairs@[j].1 as int]),
                decreases pairs@.len() - e,
            {
                let (symbol_index, to_state) = pairs[e];
                assert(self.transitions@[from_state as int]@.contains_key(symbol_index));
                let ghost before = r@;
                r.push((self.states[from_state].clone(), self.alphabet[symbol_index].clone(), self.states[to_state].clone()));
                proof {
                    assert forall|k: int| 0 <= k < r@.len() implies self.is_transition_triple(#[trigger] r@[k]) by {
                        if k < before.len() {
                            assert(r@[k] == before[k]);
                        } else {
                            assert(self.row(from_state as int).contains_key(symbol_index));
                            assert(r@[k] == (self.states@[from_state as int], self.alphabet@[symbol_index as int], self.states@[self.row(from_state as int)[symbol_index] as int]));
                        }
                    }
                    assert forall|p: int, a: usize| 0 <= p < from_state && #[trigger] self.row(p).contains_key(a) implies exists|k: int| 0 <= k < r@.len()
                        && r@[k] == (self.states@[p], self.alphabet@[a as int], self.states@[self.row(p)[a] as int]) by {
                        let k = choose|k: int| 0 <= k < before.len() && before[k] == (self.states@[p], self.alphabet@[a as int], self.states@[self.row(p)[a] as int]);
                        assert(r@[k] == before[k]);
                    }
                    assert forall|j: int| 0 <= j < e + 1 implies exists|k: int| 0 <= k < r@.len()
                        && r@[k] == (self.states@[from_state as int], self.alphabet@[#[trigger] pairs@[j].0 as int], self.states@[pairs@[j].1 as int]) by {
                        if j < e {
                            let k = choose|k: int| 0 <= k < before.len() && before[k] == (self.states@[from_state as int], self.alphabet@[pairs@[j].0 as int], self.states@[pairs@[j].1 as int]);
                            assert(r@[k] == before[k]);
                        } else {
                            assert(r@[before.len() as int] == (self.states@[from_state as int], self.alphabet@[pairs@[j].0 as int], self.states@[pairs@[j].1 as int]));
                        }
                    }
                }
                e = e + 1;
            }
            proof {
                assert forall|p: int, a: usize| 0 <= p < from_state + 1 && #[trigger] self.row(p).contains_key(a) implies exists|k: int| 0 <= k < r@.len()
                    && r@[k] == (self.states@[p], self.alphabet@[a as int], self.states@[self.row(p)[a] as int]) by {
                    if p == from_state {
                        let j = choose|j: int| 0 <= j < pairs@.len() && #[trigger] pairs@[j].0 == a;
                        assert(self.alphabet@[pairs@[j].0 as int] == self.alphabet@[a as int]);
                    }
                }
            }
            from_state = from_state + 1;
        }
        r
    }

    /// The same automaton, started at `new_start`, with `new_end` as its only accept state.
    pub fn sub_automaton(&self, new_start: usize, new_end: usize) -> (r: Self)
        ensures
            r.state_index_map@ == self.state_index_map@,
            r.alphabet_index_map@ == self.alphabet_index_map@,
            r.states@ == self.states@,
            r.alphabet@ == self.alphabet@,
            r.transitions@.len() == self.transitions@.len(),
            forall|p: int| 0 <= p < self.transitions@.len() ==> #[trigger] r.transitions@[p]@ == self.transitions@[p]@,
            r.start_state == new_start,
            r.accept_states@ == set![new_end],
    {
        let copy = self.clone();
        let mut accept_states = IndexSet::new();
        accept_states.insert(new_end);
        assert(accept_states@ =~= set![new_end]);
        DFA::new(
            copy.state_index_map,
            copy.alphabet_index_map,
            copy.states,
            copy.alphabet,
            copy.transitions,
            new_start,
            accept_states,
        )
    }

    /// The same automaton with its symbols renumbered by `alphabet`: the alphabet
    /// becomes `alphabet`, each name maps to its last position there, and
    /// transitions on symbols whose name `alphabet` lacks are dropped.
    pub fn with_alphabet(&self, alphabet: &Vec<InputSymbol>) -> (r: Self)
        requires
            self.wf(),
        ensures
            r.wf(),
            r.symbols_mapped(),
            r.states@ == self.states@,
            r.state_index_map@ == self.state_index_map@,
            r.start_state == self.start_state,
            r.accept_states@ == self.accept_states@,
            r.alphabet@ == alphabet@,
            forall|nm: Seq<char>| #[trigger] r.alphabet_index_map@.contains_key(nm) <==> Self::names_contain(alphabet@, nm),
            self.symbols_mapped() ==> forall|w: Seq<Seq<char>>| #[trigger] r.accepts_word(w) <==> self.accepts_word(w) && r.over_alphabet(w),
    {
        // the new map of names to numbers
        let mut alphabet_index_map = SymbolIndexMap::new();
        let mut i: usize = 0;
        while i < alphabet.len()
            invariant
                i <= alphabet@.len(),
                forall|nm: Seq<char>| #[trigger] alphabet_index_map@.contains_key(nm) <==> exists|t: int| 0 <= t < i && (#[trigger] alphabet@[t])@ == nm,
                forall|nm: Seq<char>| #[trigger] alphabet_index_map@.contains_key(nm) ==> alphabet_index_map@[nm] < i
                    && alphabet@[alphabet_index_map@[nm] as int]@ == nm,
            decreases alphabet@.len() - i,
        {
            alphabet_index_map.insert(alphabet[i].clone(), i);
            proof {
                assert forall|nm: Seq<char>| #[trigger] alphabet_index_map@.contains_key(nm) <==> exists|t: int| 0 <= t < i + 1 && (#[trigger] alphabet@[t])@ == nm by {
                    if nm == alphabet@[i as int]@ {
                        assert(alphabet@[i as int]@ == nm);
                    }
                }
            }
            i = i + 1;
        }
        // the new number of each old symbol
        let mut old_alphabet_map: Vec<Option<usize>> = Vec::new();
        let mut j: usize = 0;
        while j < self.alphabet.len()
            invariant
                j <= self.alphabet@.len(),
                old_alphabet_map@.len() == j,
                forall|t: int| 0 <= t < j ==> #[trigger] old_alphabet_map@[t] == (if alphabet_index_map@.contains_key(self.alphabet@[t]@) {
                    Some(alphabet_index_map@[self.alphabet@[t]@])
                } else {
                    None
                }),
            decreases self.alphabet@.len() - j,
        {
            old_alphabet_map.push(alphabet_index_map.get(&self.alphabet[j]));
            j = j + 1;
        }
        // the renumbered transitions
        let mut new_transitions: Vec<IndexMap> = Vec::new();
        let mut p: usize = 0;
        while p < self.transitions.len()
            invariant
                self.wf(),
                p <= self.n(),
                old_alphabet_map@.len() == self.alphabet@.len(),
                new_transitions@.len() == p,
                forall|q: int, f: usize| 0 <= q < p && #[trigger] new_transitions@[q]@.contains_key(f) ==> exists|a: usize|
                    #[trigger] self.row(q).contains_key(a) && old_alphabet_map@[a as int] == Some(f) && new_transitions@[q]@[f] == self.row(q)[a],
                forall|q: int, a: usize| 0 <= q < p && #[trigger] self.row(q).contains_key(a) && old_alphabet_map@[a as int] is Some
                    ==> new_transitions@[q]@.contains_key(old_alphabet_map@[a as int]->0),
            decreases self.n() - p,
        {
            let pairs = self.transitions[p].to_vec();
            let mut row = IndexMap::new();
            let mut e: usize = 0;
            while e < pairs.len()
                invariant
                    self.wf(),
                    p < self.n(),
                    old_alphabet_map@.len() == self.alphabet@.len(),
                    e <= pairs@.len(),
                    forall|t: int| 0 <= t < pairs@.len() ==> self.row(p as int).contains_key(#[trigger] pairs@[t].0) && self.row(p as int)[pairs@[t].0] == pairs@[t].1,
                    forall|f: usize| #[trigger] row@.contains_key(f) ==> exists|a: usize|
                        #[trigger] self.row(p as int).contains_key(a) && old_alphabet_map@[a as int] == Some(f) && row@[f] == self.row(p as int)[a],
                    forall|t: int| 0 <= t < e && old_alphabet_map@[#[trigger] pairs@[t].0 as int] is Some ==> row@.contains_key(old_alphabet_map@[pairs@[t].0 as int]->0),
                decreases pairs@.len() - e,
            {
                let (symbol, new_state) = pairs[e];
                assert(self.transitions@[p as int]@.contains_key(symbol));
                if let Some(f) = old_alphabet_map[symbol] {
                    row.insert(f, new_state);
                    proof {
                        assert(self.row(p as int).contains_key(symbol) && old_alphabet_map@[symbol as int] == Some(f) && row@[f] == self.row(p as int)[symbol]);
                    }
                }
                e = e + 1;
            }
            proof {
                assert forall|a: usize| #[trigger] self.row(p as int).contains_key(a) && old_alphabet_map@[a as int] is Some
                    implies row@.contains_key(old_alphabet_map@[a as int]->0) by {
                    let t = choose|t: int| 0 <= t < pairs@.len() && #[trigger] pairs@[t].0 == a;
                }
            }
            new_transitions.push(row);
            p = p + 1;
        }
        let copy = self.clone();
        let new_alphabet = alphabet.clone();
        assert(new_alphabet@ =~= alphabet@);
        let r = DFA::new(
            copy.state_index_map,
            alphabet_index_map,
            copy.states,
            new_alphabet,
            new_transitions,
            self.start_state,
            copy.accept_states,
        );
        proof {
            assert forall|q: int, f: usize| 0 <= q < r.transitions@.len() && #[trigger] r.transitions@[q]@.contains_key(f) implies f
                < r.alphabet@.len() && r.transitions@[q]@[f] < r.states@.len()
                && r.alphabet_index_map@.contains_key(r.alphabet@[f as int]@) && r.alphabet_index_map@[r.alphabet@[f as int]@] == f by {
                let a = choose|a: usize| #[trigger] self.row(q).contains_key(a) && old_alphabet_map@[a as int] == Some(f) && r.transitions@[q]@[f] == self.row(q)[a];
                assert(self.transitions@[q]@.contains_key(a));
            }
            assert(r.wf());
            if self.symbols_mapped() {
                assert forall|w: Seq<Seq<char>>| #[trigger] r.accepts_word(w) <==> self.accepts_word(w) && r.over_alphabet(w) by {
                    if r.over_alphabet(w) {
                        self.lemma_with_alphabet_run(&r, old_alphabet_map@, w);
                    }
                }
            }
        }
        r
    }

    /// A run of the renumbered automaton follows the run of the given one
    /// while every name is in the old alphabet, and is stuck otherwise.
    proof fn lemma_with_alphabet_run(&self, r: &DFA, old_map: Seq<Option<usize>>, w: Seq<Seq<char>>)
        requires
            self.wf(),
            self.symbols_mapped(),
            r.wf(),
            r.start_state == self.start_state,
            r.transitions@.len() == self.transitions@.len(),
            old_map.len() == self.alphabet@.len(),
            forall|t: int| 0 <= t < old_map.len() ==> #[trigger] old_map[t] == (if r.alphabet_index_map@.contains_key(self.alphabet@[t]@) {
                Some(r.alphabet_index_map@[self.alphabet@[t]@])
            } else {
                None
            }),
            forall|q: int, f: usize| 0 <= q < self.n() && #[trigger] r.transitions@[q]@.contains_key(f) ==> exists|a: usize|
                #[trigger] self.row(q).contains_key(a) && old_map[a as int] == Some(f) && r.transitions@[q]@[f] == self.row(q)[a],
            forall|q: int, a: usize| 0 <= q < self.n() && #[trigger] self.row(q).contains_key(a) && old_map[a as int] is Some
                ==> r.transitions@[q]@.contains_key(old_map[a as int]->0),
            r.over_alphabet(w),
        ensures
            r.run(r.start_state, r.symbol_indices(w)) == (if self.over_alphabet(w) { self.run(self.start_state, self.symbol_indices(w)) } else { None }),
        decreases w.len(),
    {
        if w.len() > 0 {
            let w0 = w.drop_last();
            let a = w.last();
            assert(r.over_alphabet(w0)) by {
                assert forall|i: int| 0 <= i < w0.len() implies r.alphabet_index_map@.contains_key(#[trigger] w0[i]) by {
                    assert(w0[i] == w[i]);
                }
            }
            self.lemma_with_alphabet_run(r, old_map, w0);
            assert(r.alphabet_index_map@.contains_key(w[w.len() - 1]));
            assert(r.symbol_indices(w).drop_last() =~= r.symbol_indices(w0));
            let f = r.alphabet_index_map@[a];
            assert(r.symbol_indices(w).last() == f);
            assert(r.alphabet@[f as int]@ == a);
            let self_over_w0 = self.over_alphabet(w0);
            if self.over_alphabet(w) {
                assert(self_over_w0) by {
                    assert forall|i: int| 0 <= i < w0.len() implies self.alphabet_index_map@.contains_key(#[trigger] w0[i]) by {
                        assert(w0[i] == w[i]);
                    }
                }
                assert(self.alphabet_index_map@.contains_key(w[w.len() - 1]));
                assert(self.symbol_indices(w).drop_last() =~= self.symbol_indices(w0));
                assert(self.symbol_indices(w).last() == self.alphabet_index_map@[a]);
            }
            match r.run(r.start_state, r.symbol_indices(w0)) {
                Some(q) => {
                    r.lemma_run_in_range(r.start_state, r.symbol_indices(w0));
                    if r.transitions@[q as int]@.contains_key(f) {
                        let s = choose|s: usize| #[trigger] self.row(q as int).contains_key(s) && old_map[s as int] == Some(f) && r.transitions@[q as int]@[f] == self.row(q as int)[s];
                        assert(self.transitions@[q as int]@.contains_key(s));
                        assert(self.alphabet@[s as int]@ == a);
                        assert(self.alphabet_index_map@[a] == s);
                        assert(self.over_alphabet(w)) by {
                            assert forall|i: int| 0 <= i < w.len() implies self.alphabet_index_map@.contains_key(#[trigger] w[i]) by {
                                if i < w.len() - 1 {
                                    assert(w[i] == w0[i]);
                                }
                            }
                        }
                    } else if self.over_alphabet(w) {
                        let s = self.alphabet_index_map@[a];
                        if self.row(q as int).contains_key(s) {
                            assert(self.alphabet@[s as int]@ == a);
                            assert(old_map[s as int] == Some(f));
                        }
                    }
                },
                None => {},
            }
        }
    }

    /// The names of the symbols numbered by `u`.
    pub open spec fn names_of(&self, u: Seq<usize>) -> Seq<Seq<char>> {
        u.map_values(|a: usize| self.alphabet@[a as int]@)
    }

    /// The symbols numbered by `word`, last to first.
    fn symbols_reversed(&self, word: &Vec<usize>) -> (v: Vec<InputSymbol>)
        requires
            self.wf(),
            forall|i: int| 0 <= i < word@.len() ==> #[trigger] word@[i] < self.alphabet@.len(),
        ensures
            word_of(v@) == self.names_of(word@.reverse()),
    {
        let mut v: Vec<InputSymbol> = Vec::new();
        let mut i: usize = word.len();
        while i > 0
            invariant
                self.wf(),
                i <= word@.len(),
                forall|t: int| 0 <= t < word@.len() ==> #[trigger] word@[t] < self.alphabet@.len(),
                v@.len() == word@.len() - i,
                forall|j: int| 0 <= j < v@.len() ==> (#[trigger] v@[j])@ == self.alphabet@[word@[word@.len() - 1 - j] as int]@,
            decreases i,
        {
            i = i - 1;
            v.push(self.alphabet[word[i]].clone());
        }
        assert(word_of(v@) =~= self.names_of(word@.reverse()));
        v
    }

    /// Returns a word that the automaton accepts, found by a breadth-first
    /// search from the start state, or `None` where it accepts none.
    pub fn example_word(&self) -> (r: Option<Vec<InputSymbol>>)
        requires
            self.wf(),
        ensures
            r is Some <==> self.leads_to_accept(self.start_state),
            r matches Some(v) ==> exists|u: Seq<usize>| self.accepts_indices(u) && #[trigger] self.names_of(u) == word_of(v@),
            r matches Some(v) ==> (self.symbols_mapped() ==> self.accepts_word(word_of(v@))),
    {
        let start = self.start_state;
        let mut state_to_next = IndexPairMap::new();
        let mut queue: std::collections::VecDeque<usize> = std::collections::VecDeque::new();
        queue.push_back(start);
        let ghost mut dist: Map<usize, nat> = map![start => 0nat];
        let ghost mut disc: Set<usize> = set![start];
        proof {
            assert(queue@ =~= seq![start]);
            assert(queue@[0] == start);
            assert(queue@.contains(start));
            assert forall|x: usize| disc.contains(x) implies queue@.contains(x) by {
                assert(x == start);
            }
        }
        while queue.len() > 0
            invariant
                self.wf(),
                start == self.start_state,
                disc.finite(),
                forall|x: usize| #[trigger] disc.contains(x) <==> x == start || state_to_next@.contains_key(x),
                forall|x: usize| #[trigger] disc.contains(x) ==> x < self.n() && dist.contains_key(x),
                dist.contains_key(start) && dist[start] == 0,
                !state_to_next@.contains_key(start),
                forall|x: usize| #[trigger] state_to_next@.contains_key(x) ==> disc.contains(state_to_next@[x].1)
                    && dist[state_to_next@[x].1] < dist[x] && self.step(state_to_next@[x].1, state_to_next@[x].0) == Some(x),
                queue@.no_duplicates(),
                forall|i: int| 0 <= i < queue@.len() ==> disc.contains(#[trigger] queue@[i]),
                forall|x: usize| disc.contains(x) && !queue@.contains(x) ==> !#[trigger] self.accept_states@.contains(x),
                forall|x: usize, a: usize| disc.contains(x) && !queue@.contains(x) && #[trigger] self.step(x, a) is Some ==> disc.contains(self.step(x, a)->0),
            decreases self.n() - disc.len(), queue@.len(),
        {
            proof {
                lemma_bounded_set(disc, self.n());
            }
            let ghost old_queue = queue@;
            let current = queue.pop_front().unwrap();
            assert(old_queue == seq![current] + queue@);
            assert(!queue@.contains(current)) by {
                if queue@.contains(current) {
                    let i = choose|i: int| 0 <= i < queue@.len() && queue@[i] == current;
                    assert(old_queue[i + 1] == current);
                    assert(old_queue[0] == current);
                }
            }
            assert forall|x: usize| old_queue.contains(x) && x != current implies queue@.contains(x) by {
                let i = choose|i: int| 0 <= i < old_queue.len() && old_queue[i] == x;
                assert(queue@[i - 1] == x);
            }
            if self.accept_states.contains(current) {
                // reconstruct the word back to the start state
                let mut word: Vec<usize> = Vec::new();
                let mut cur_state = current;
                let ghost mut suffix: Seq<usize> = Seq::empty();
                assert(self.run(current, Seq::<usize>::empty()) == Some(current));
                while state_to_next.contains_key(cur_state)
                    invariant
                        self.wf(),
                        disc.contains(cur_state),
                        forall|x: usize| #[trigger] disc.contains(x) <==> x == start || state_to_next@.contains_key(x),
                        forall|x: usize| #[trigger] disc.contains(x) ==> x < self.n() && dist.contains_key(x),
                        forall|x: usize| #[trigger] state_to_next@.contains_key(x) ==> disc.contains(state_to_next@[x].1)
                            && dist[state_to_next@[x].1] < dist[x] && self.step(state_to_next@[x].1, state_to_next@[x].0) == Some(x),
                        self.run(cur_state, suffix) == Some(current),
                        suffix == word@.reverse(),
                        forall|i: int| 0 <= i < word@.len() ==> #[trigger] word@[i] < self.alphabet@.len(),
                    decreases dist[cur_state],
                {
                    let (symbol, previous) = state_to_next.get(cur_state).unwrap();
                    proof {
                        self.lemma_run_cons(previous, symbol, suffix);
                        assert(self.transitions@[previous as int]@.contains_key(symbol));
                        assert(word@.push(symbol).reverse() =~= seq![symbol] + word@.reverse());
                        suffix = seq![symbol] + suffix;
                    }
                    word.push(symbol);
                    cur_state = previous;
                }
                assert(cur_state == start);
                let v = self.symbols_reversed(&word);
                proof {
                    assert(self.accepts_indices(suffix));
                    assert(self.names_of(suffix) == word_of(v@));
                    assert(self.leads_to_accept(start)) by {
                        assert(self.run(start, suffix) matches Some(f) && self.accept_states@.contains(f));
                    }
                    if self.symbols_mapped() {
                        self.lemma_run_names(start, suffix);
                    }
                }
                return Some(v);
            }
            let pairs = self.transitions[current].to_vec();
            let ghost disc0 = disc;
            let ghost q_len0 = queue@.len();
            let mut k: usize = 0;
            while k < pairs.len()
                invariant
                    self.wf(),
                    start == self.start_state,
                    current < self.n(),
                    disc.contains(current),
                    !queue@.contains(current),
                    !self.accept_states@.contains(current),
                    disc.finite(),
                    disc0.finite(),
                    disc0.subset_of(disc),
                    queue@.len() - q_len0 == disc.len() - disc0.len(),
                    forall|x: usize| #[trigger] disc.contains(x) <==> x == start || state_to_next@.contains_key(x),
                    forall|x: usize| #[trigger] disc.contains(x) ==> x < self.n() && dist.contains_key(x),
                    dist.contains_key(start) && dist[start] == 0,
                    !state_to_next@.contains_key(start),
                    forall|x: usize| #[trigger] state_to_next@.contains_key(x) ==> disc.contains(state_to_next@[x].1)
                        && dist[state_to_next@[x].1] < dist[x] && self.step(state_to_next@[x].1, state_to_next@[x].0) == Some(x),
                    queue@.no_duplicates(),
                    forall|i: int| 0 <= i < queue@.len() ==> disc.contains(#[trigger] queue@[i]),
                    forall|x: usize| disc.contains(x) && !queue@.contains(x) && x != current ==> !#[trigger] self.accept_states@.contains(x),
                    forall|x: usize, a: usize| disc.contains(x) && !queue@.contains(x) && x != current && #[trigger] self.step(x, a) is Some
                        ==> disc.contains(self.step(x, a)->0),
                    k <= pairs@.len(),
                    forall|t: int| 0 <= t < pairs@.len() ==> self.row(current as int).contains_key(#[trigger] pairs@[t].0) && self.row(current as int)[pairs@[t].0] == pairs@[t].1,
                    forall|t: int| 0 <= t < k ==> disc.contains(#[trigger] pairs@[t].1),
                decreases pairs@.len() - k,
            {
                let (symbol, to) = pairs[k];
                assert(self.transitions@[current as int]@.contains_key(symbol));
                if to != start && !state_to_next.contains_key(to) {
                    let ghost q0 = queue@;
                    state_to_next.insert(to, (symbol, current));
                    queue.push_back(to);
                    proof {
                        dist = dist.insert(to, dist[current] + 1);
                        disc = disc.insert(to);
                        assert(queue@ == q0.push(to));
                        assert forall|x: usize| q0.contains(x) implies queue@.contains(x) by {
                            let i = choose|i: int| 0 <= i < q0.len() && q0[i] == x;
                            assert(queue@[i] == x);
                        }
                        assert(queue@[queue@.len() - 1] == to);
                        assert(!q0.contains(to));
                    }
                }
                k = k + 1;
            }
            proof {
                assert forall|a: usize| #[trigger] self.step(current, a) is Some implies disc.contains(self.step(current, a)->0) by {
                    let t = choose|t: int| 0 <= t < pairs@.len() && #[trigger] pairs@[t].0 == a;
                }
                lemma_bounded_set(disc, self.n());
                vstd::set_lib::lemma_len_subset(disc0, disc);
                if disc.len() == disc0.len() {
                    assert(queue@.len() < old_queue.len());
                } else {
                    assert(self.n() - disc.len() < self.n() - disc0.len());
                }
            }
        }
        proof {
            if self.leads_to_accept(start) {
                let w = choose|w: Seq<usize>| #[trigger] self.run(start, w) matches Some(f) && self.accept_states@.contains(f);
                self.lemma_closed_holds_runs(disc, start, w);
                let f = self.run(start, w)->0;
                assert(disc.contains(f));
                assert(!queue@.contains(f));
            }
        }
        None
    }

    /// The pair of states that `p` goes to on symbol number `a` in this
    /// automaton and in `other` together, if both have that transition.
    pub open spec fn pair_step(&self, other: &DFA, p: (usize, usize), a: usize) -> Option<(usize, usize)> {
        match (self.step(p.0, a), other.step(p.1, a)) {
            (Some(x), Some(y)) => Some((x, y)),
            _ => None,
        }
    }

    /// Whether the word of symbol numbers `u` leads from `i` to an accept state
    /// here and from `j` to an accept state of `other`.
    pub open spec fn pair_accepts_from(&self, other: &DFA, i: usize, j: usize, u: Seq<usize>) -> bool {
        self.accepts_from(i, u) && other.accepts_from(j, u)
    }

    /// A set of pairs that holds `(i, j)` and is closed under joint transitions
    /// holds the pair of states that any word reaches from `i` and `j`.
    pub proof fn lemma_pair_closed_holds_runs(&self, other: &DFA, s: Set<(usize, usize)>, i: usize, j: usize, w: Seq<usize>)
        requires
            s.contains((i, j)),
            forall|p: (usize, usize), a: usize| s.contains(p) && #[trigger] self.pair_step(other, p, a) is Some
                ==> s.contains(self.pair_step(other, p, a)->0),
        ensures
            self.run(i, w) matches Some(x) ==> (other.run(j, w) matches Some(y) ==> s.contains((x, y))),
        decreases w.len(),
    {
        if w.len() > 0 {
            self.lemma_pair_closed_holds_runs(other, s, i, j, w.drop_last());
            if self.run(i, w) is Some && other.run(j, w) is Some {
                let x0 = self.run(i, w.drop_last())->0;
                let y0 = other.run(j, w.drop_last())->0;
                assert(self.pair_step(other, (x0, y0), w.last()) is Some);
            }
        }
    }

    /// Returns a word that this automaton and `other` both accept, found by a
    /// breadth-first search over pairs of states that reads the same symbol
    /// number in both, or `None` where there is none.
    pub fn intersection_example_word(&self, other: &Self) -> (r: Option<Vec<InputSymbol>>)
        requires
            self.wf(),
            other.wf(),
        ensures
            r is Some <==> exists|u: Seq<usize>| #[trigger] self.accepts_indices(u) && other.accepts_indices(u),
            r matches Some(v) ==> exists|u: Seq<usize>| self.accepts_indices(u) && other.accepts_indices(u)
                && #[trigger] self.names_of(u) == word_of(v@),
    {
        let start = (self.start_state, other.start_state);
        let mut state_to_next = PairParentMap::new();
        let mut queue: std::collections::VecDeque<(usize, usize)> = std::collections::VecDeque::new();
        queue.push_back(start);
        let ghost mut dist: Map<(usize, usize), nat> = map![start => 0nat];
        let ghost mut disc: Set<(usize, usize)> = set![start];
        proof {
            assert(queue@ =~= seq![start]);
            assert(queue@[0] == start);
            assert(queue@.contains(start));
            assert forall|x: (usize, usize)| disc.contains(x) implies queue@.contains(x) by {
                assert(x == start);
            }
        }
        while queue.len() > 0
            invariant
                self.wf(),
                other.wf(),
                start == (self.start_state, other.start_state),
                disc.finite(),
                forall|x: (usize, usize)| #[trigger] disc.contains(x) <==> x == start || state_to_next@.contains_key(x),
                forall|x: (usize, usize)| #[trigger] disc.contains(x) ==> x.0 < self.n() && x.1 < other.n() && dist.contains_key(x),
                dist.contains_key(start) && dist[start] == 0,
                !state_to_next@.contains_key(start),
                forall|x: (usize, usize)| #[trigger] state_to_next@.contains_key(x) ==> disc.contains(state_to_next@[x].1)
                    && dist[state_to_next@[x].1] < dist[x]
                    && self.pair_step(other, state_to_next@[x].1, state_to_next@[x].0) == Some(x),
                queue@.no_duplicates(),
                forall|i: int| 0 <= i < queue@.len() ==> disc.contains(#[trigger] queue@[i]),
                forall|x: (usize, usize)| disc.contains(x) && !queue@.contains(x)
                    ==> !(#[trigger] self.accept_states@.contains(x.0) && other.accept_states@.contains(x.1)),
                forall|x: (usize, usize), a: usize| disc.contains(x) && !queue@.contains(x) && #[trigger] self.pair_step(other, x, a) is Some
                    ==> disc.contains(self.pair_step(other, x, a)->0),
            decreases self.n() * other.n() - disc.len(), queue@.len(),
        {
            proof {
                self.lemma_pairs_bounded(other, disc);
            }
            let ghost old_queue = queue@;
            let current = queue.pop_front().unwrap();
            assert(old_queue == seq![current] + queue@);
            assert(!queue@.contains(current)) by {
                if queue@.contains(current) {
                    let i = choose|i: int| 0 <= i < queue@.len() && queue@[i] == current;
                    assert(old_queue[i + 1] == current);
                    assert(old_queue[0] == current);
                }
            }
            assert forall|x: (usize, usize)| old_queue.contains(x) && x != current implies queue@.contains(x) by {
                let i = choose|i: int| 0 <= i < old_queue.len() && old_queue[i] == x;
                assert(queue@[i - 1] == x);
            }
            if self.accept_states.contains(current.0) && other.accept_states.contains(current.1) {
                // reconstruct the word back to the pair of start states
                let mut word: Vec<usize> = Vec::new();
                let mut cur_state = current;
                let ghost mut suffix: Seq<usize> = Seq::empty();
                assert(self.run(current.0, Seq::<usize>::empty()) == Some(current.0));
                assert(other.run(current.1, Seq::<usize>::empty()) == Some(current.1));
                while state_to_next.contains_key(cur_state)
                    invariant
                        self.wf(),
                        other.wf(),
                        disc.contains(cur_state),
                        forall|x: (usize, usize)| #[trigger] disc.contains(x) <==> x == start || state_to_next@.contains_key(x),
                        forall|x: (usize, usize)| #[trigger] disc.contains(x) ==> x.0 < self.n() && x.1 < other.n() && dist.contains_key(x),
                        forall|x: (usize, usize)| #[trigger] state_to_next@.contains_key(x) ==> disc.contains(state_to_next@[x].1)
                            && dist[state_to_next@[x].1] < dist[x]
                            && self.pair_step(other, state_to_next@[x].1, state_to_next@[x].0) == Some(x),
                        self.run(cur_state.0, suffix) == Some(current.0),
                        other.run(cur_state.1, suffix) == Some(current.1),
                        suffix == word@.reverse(),
                        forall|i: int| 0 <= i < word@.len() ==> #[trigger] word@[i] < self.alphabet@.len(),
                    decreases dist[cur_state],
                {
                    let (symbol, previous) = state_to_next.get(cur_state).unwrap();
                    proof {
                        self.lemma_run_cons(previous.0, symbol, suffix);
                        other.lemma_run_cons(previous.1, symbol, suffix);
                        assert(self.transitions@[previous.0 as int]@.contains_key(symbol));
                        assert(word@.push(symbol).reverse() =~= seq![symbol] + word@.reverse());
                        suffix = seq![symbol] + suffix;
                    }
                    word.push(symbol);
                    cur_state = previous;
                }
                assert(cur_state == start);
                let v = self.symbols_reversed(&word);
                proof {
                    assert(self.accepts_indices(suffix));
                    assert(other.accepts_indices(suffix));
                    assert(self.names_of(suffix) == word_of(v@));
                }
                return Some(v);
            }
            let pairs = self.transitions[current.0].to_vec();
            let ghost disc0 = disc;
            let ghost q_len0 = queue@.len();
            let mut k: usize = 0;
            while k < pairs.len()
                invariant
                    self.wf(),
                    other.wf(),
                    start == (self.start_state, other.start_state),
                    current.0 < self.n(),
                    current.1 < other.n(),
                    disc.contains(current),
                    !queue@.contains(current),
                    !(self.accept_states@.contains(current.0) && other.accept_states@.contains(current.1)),
                    disc.finite(),
                    disc0.finite(),
                    disc0.subset_of(disc),
                    queue@.len() - q_len0 == disc.len() - disc0.len(),
                    forall|x: (usize, usize)| #[trigger] disc.contains(x) <==> x == start || state_to_next@.contains_key(x),
                    forall|x: (usize, usize)| #[trigger] disc.contains(x) ==> x.0 < self.n() && x.1 < other.n() && dist.contains_key(x),
                    dist.contains_key(start) && dist[start] == 0,
                    !state_to_next@.contains_key(start),
                    forall|x: (usize, usize)| #[trigger] state_to_next@.contains_key(x) ==> disc.contains(state_to_next@[x].1)
                        && dist[state_to_next@[x].1] < dist[x]
                        && self.pair_step(other, state_to_next@[x].1, state_to_next@[x].0) == Some(x),
                    queue@.no_duplicates(),
                    forall|i: int| 0 <= i < queue@.len() ==> disc.contains(#[trigger] queue@[i]),
                    forall|x: (usize, usize)| disc.contains(x) && !queue@.contains(x) && x != current
                        ==> !(#[trigger] self.accept_states@.contains(x.0) && other.accept_states@.contains(x.1)),
                    forall|x: (usize, usize), a: usize| disc.contains(x) && !queue@.contains(x) && x != current
                        && #[trigger] self.pair_step(other, x, a) is Some ==> disc.contains(self.pair_step(other, x, a)->0),
                    k <= pairs@.len(),
                    forall|t: int| 0 <= t < pairs@.len() ==> self.row(current.0 as int).contains_key(#[trigger] pairs@[t].0)
                        && self.row(current.0 as int)[pairs@[t].0] == pairs@[t].1,
                    forall|t: int| 0 <= t < k ==> (other.step(current.1, #[trigger] pairs@[t].0) matches Some(y)
                        ==> disc.contains((pairs@[t].1, y))),
                decreases pairs@.len() - k,
            {
                let (symbol, own_to) = pairs[k];
                assert(self.transitions@[current.0 as int]@.contains_key(symbol));
                match other.next_state(current.1, symbol) {
                    Some(other_to) => {
                        let to = (own_to, other_to);
                        if !(own_to == start.0 && other_to == start.1) && !state_to_next.contains_key(to) {
                            let ghost q0 = queue@;
                            state_to_next.insert(to, (symbol, current));
                            queue.push_back(to);
                            proof {
                                dist = dist.insert(to, dist[current] + 1);
                                disc = disc.insert(to);
                                assert(queue@ == q0.push(to));
                                assert forall|x: (usize, usize)| q0.contains(x) implies queue@.contains(x) by {
                                    let i = choose|i: int| 0 <= i < q0.len() && q0[i] == x;
                                    assert(queue@[i] == x);
                                }
                                assert(queue@[queue@.len() - 1] == to);
                                assert(!q0.contains(to));
                            }
                        }
                    },
                    None => {},
                }
                k = k + 1;
            }
            proof {
                assert forall|a: usize| #[trigger] self.pair_step(other, current, a) is Some
                    implies disc.contains(self.pair_step(other, current, a)->0) by {
                    let t = choose|t: int| 0 <= t < pairs@.len() && #[trigger] pairs@[t].0 == a;
                }
                self.lemma_pairs_bounded(other, disc);
                vstd::set_lib::lemma_len_subset(disc0, disc);
                if disc.len() == disc0.len() {
                    assert(queue@.len() < old_queue.len());
                } else {
                    assert(self.n() * other.n() - disc.len() < self.n() * other.n() - disc0.len());
                }
            }
        }
        proof {
            if exists|u: Seq<usize>| #[trigger] self.accepts_indices(u) && other.accepts_indices(u) {
                let w = choose|u: Seq<usize>| #[trigger] self.accepts_indices(u) && other.accepts_indices(u);
                self.lemma_pair_closed_holds_runs(other, disc, start.0, start.1, w);
                let f = (self.run(start.0, w)->0, other.run(start.1, w)->0);
                assert(disc.contains(f));
                assert(!queue@.contains(f));
            }
        }
        None
    }

    /// A set of pairs of states of this automaton and `other` is finite and
    /// has at most as many elements as there are such pairs.
    proof fn lemma_pairs_bounded(&self, other: &DFA, s: Set<(usize, usize)>)
        requires
            forall|x: (usize, usize)| #[trigger] s.contains(x) ==> x.0 < self.n() && x.1 < other.n(),
        ensures
            s.finite(),
            s.len() <= self.n() * other.n(),
    {
        lemma_bounded_pair_set(s, self.n(), other.n());
    }
}

/// The numbers `i * m + j` of the pairs of an element `i` of `own` and an element `j` of `other`.
fn pair_numbers(own: &Vec<usize>, other: &Vec<usize>, n: usize, m: usize) -> (r: IndexSet)
    requires
        n * m <= usize::MAX,
        forall|t: int| 0 <= t < own@.len() ==> #[trigger] own@[t] < n,
        forall|u: int| 0 <= u < other@.len() ==> #[trigger] other@[u] < m,
    ensures
        forall|x: usize| #[trigger] r@.contains(x) <==> exists|t: int, u: int| 0 <= t < own@.len() && 0 <= u < other@.len()
            && x == #[trigger] own@[t] * m + #[trigger] other@[u],
{
    let mut r = IndexSet::new();
    let mut a: usize = 0;
    while a < own.len()
        invariant
            n * m <= usize::MAX,
            a <= own@.len(),
            forall|t: int| 0 <= t < own@.len() ==> #[trigger] own@[t] < n,
            forall|u: int| 0 <= u < other@.len() ==> #[trigger] other@[u] < m,
            forall|x: usize| #[trigger] r@.contains(x) <==> exists|t: int, u: int| 0 <= t < a && 0 <= u < other@.len()
                && x == #[trigger] own@[t] * m + #[trigger] other@[u],
        decreases own@.len() - a,
    {
        let i = own[a];
        let mut b: usize = 0;
        while b < other.len()
            invariant
                n * m <= usize::MAX,
                a < own@.len(),
                i == own@[a as int],
                b <= other@.len(),
                forall|t: int| 0 <= t < own@.len() ==> #[trigger] own@[t] < n,
                forall|u: int| 0 <= u < other@.len() ==> #[trigger] other@[u] < m,
                forall|x: usize| #[trigger] r@.contains(x) <==> (exists|t: int, u: int| 0 <= t < a && 0 <= u < other@.len()
                    && x == #[trigger] own@[t] * m + #[trigger] other@[u]) || (exists|u: int| 0 <= u < b && x == i * m + #[trigger] other@[u]),
            decreases other@.len() - b,
        {
            let j = other[b];
            proof {
                lemma_pair_index_bound(i as int, j as int, n as int, m as int);
            }
            r.insert(i * m + j);
            proof {
                assert forall|x: usize| #[trigger] r@.contains(x) <==> (exists|t: int, u: int| 0 <= t < a && 0 <= u < other@.len()
                    && x == #[trigger] own@[t] * m + #[trigger] other@[u]) || (exists|u: int| 0 <= u < b + 1 && x == i * m + #[trigger] other@[u]) by {
                    if x == i * m + j {
                        assert(x == i * m + other@[b as int]);
                    }
                }
            }
            b = b + 1;
        }
        proof {
            assert forall|x: usize| #[trigger] r@.contains(x) <==> exists|t: int, u: int| 0 <= t < a + 1 && 0 <= u < other@.len()
                && x == #[trigger] own@[t] * m + #[trigger] other@[u] by {
                if exists|u: int| 0 <= u < b && x == i * m + #[trigger] other@[u] {
                    let u = choose|u: int| 0 <= u < b && x == i * m + #[trigger] other@[u];
                    assert(x == own@[a as int] * m + other@[u]);
                }
            }
        }
        a = a + 1;
    }
    r
}

} // verus!

verus! {

impl Clone for DFA {
    fn clone(&self) -> (r: Self)
        ensures
            r.same_as(self),
    {
        let mut transitions: Vec<IndexMap> = Vec::new();
        let mut p: usize = 0;
        while p < self.transitions.len()
            invariant
                p <= self.transitions@.len(),
                transitions@.len() == p,
                forall|q: int| 0 <= q < p ==> #[trigger] transitions@[q]@ == self.transitions@[q]@,
            decreases self.transitions@.len() - p,
        {
            transitions.push(self.transitions[p].clone());
            p = p + 1;
        }
        let states = self.states.clone();
        let alphabet = self.alphabet.clone();
        assert(states@ =~= self.states@);
        assert(alphabet@ =~= self.alphabet@);
        DFA {
            state_index_map: self.state_index_map.clone(),
            alphabet_index_map: self.alphabet_index_map.clone(),
            states,
            alphabet,
            transitions,
            start_state: self.start_state,
            accept_states: self.accept_states.clone(),
        }
    }
}

impl Language for DFA {
    open spec fn ready(&self) -> bool {
        self.wf()
    }

    open spec fn language(&self, w: Seq<Seq<char>>) -> bool {
        self.accepts_word(w)
    }

    fn accepts(&self, input: &Vec<InputSymbol>) -> (r: bool) {
        let ghost w = word_of(input@);
        let mut current = self.start_state;
        proof {
            assert(w.take(0) =~= Seq::<Seq<char>>::empty());
            assert(self.symbol_indices(w.take(0)) =~= Seq::<usize>::empty());
        }
        let mut i: usize = 0;
        while i < input.len()
            invariant
                self.wf(),
                w == word_of(input@),
                i <= input@.len(),
                current < self.n(),
                self.over_alphabet(w.take(i as int)),
                self.run(self.start_state, self.symbol_indices(w.take(i as int))) == Some(current),
            decreases input@.len() - i,
        {
            proof {
                self.lemma_prefix_step(w, i as int);
            }
            match self.alphabet_index_map.get(&input[i]) {
                Some(symbol_index) => {
                    match self.next_state(current, symbol_index) {
                        Some(next_state) => {
                            proof {
                                self.lemma_run_in_range(self.start_state, self.symbol_indices(w.take(i + 1)));
                            }
                            current = next_state;
                        },
                        None => {
                            proof {
                                if self.accepts_word(w) {
                                    assert(w.take(w.len() as int) =~= w);
                                    self.lemma_prefix_runs_shorter(w, i + 1, w.len() as int);
                                }
                            }
                            return false;
                        },
                    }
                },
                None => {
                    proof {
                        if self.accepts_word(w) {
                            assert(w.take(w.len() as int) =~= w);
                            self.lemma_prefix_runs_shorter(w, i + 1, w.len() as int);
                        }
                    }
                    return false;
                },
            }
            i = i + 1;
        }
        assert(w.take(i as int) =~= w);
        self.accept_states.contains(current)
    }
}

} // verus!
