//! Nondeterministic finite automata without epsilon transitions.
use crate::collections::{IndexMap, IndexSet, IndexSetMap, StateIndexMap, SubsetMap, SymbolIndexMap};
use crate::fa::dfa::DFA;
use crate::fa::state::State;
use crate::input_symbol::InputSymbol;
use crate::language::{word_of, Language};
use vstd::prelude::*;

verus! {

/// A nondeterministic finite automaton: states and symbols are numbered, and
/// every state maps symbol numbers to sets of next states.
pub struct NFA {
    pub state_index_map: StateIndexMap,
    pub alphabet_index_map: SymbolIndexMap,
    pub states: Vec<State>,
    pub alphabet: Vec<InputSymbol>,
    pub transitions: Vec<IndexSetMap>,
    pub start_states: IndexSet,
    pub accept_states: IndexSet,
}

impl NFA {
    /// The number of states.
    pub open spec fn n(&self) -> nat {
        self.states@.len()
    }

    /// The states that `p` goes to on symbol number `a`.
    pub open spec fn edges(&self, p: usize, a: usize) -> Set<usize> {
        if p < self.transitions@.len() && self.transitions@[p as int]@.contains_key(a) {
            self.transitions@[p as int]@[a]
        } else {
            Set::empty()
        }
    }

    /// The states that the states of `s` go to on symbol number `a`.
    pub open spec fn next_set(&self, s: Set<usize>, a: usize) -> Set<usize> {
        Set::new(|q: usize| exists|p: usize| s.contains(p) && #[trigger] self.edges(p, a).contains(q))
    }

    /// The states that the start states reach by the symbol numbers `w`.
    pub open spec fn reach(&self, w: Seq<usize>) -> Set<usize>
        decreases w.len(),
    {
        if w.len() == 0 {
            self.start_states@
        } else {
            self.next_set(self.reach(w.drop_last()), w.last())
        }
    }

    /// Whether the automaton accepts the word of symbol numbers `w`.
    pub open spec fn accepts_indices(&self, w: Seq<usize>) -> bool {
        exists|q: usize| #[trigger] self.reach(w).contains(q) && self.accept_states@.contains(q)
    }

    /// Whether every symbol of `w` has a number in the alphabet map.
    pub open spec fn over_alphabet(&self, w: Seq<Seq<char>>) -> bool {
        forall|i: int| 0 <= i < w.len() ==> self.alphabet_index_map@.contains_key(#[trigger] w[i])
    }

    /// The symbol numbers of the names in `w`.
    pub open spec fn symbol_indices(&self, w: Seq<Seq<char>>) -> Seq<usize> {
        w.map_values(|s: Seq<char>| self.alphabet_index_map@[s])
    }

    /// The language of the automaton: words over its alphabet whose symbol numbers it accepts.
    pub open spec fn accepts_word(&self, w: Seq<Seq<char>>) -> bool {
        self.over_alphabet(w) && self.accepts_indices(self.symbol_indices(w))
    }

    /// Well-formedness: one transition row per state, every number in range,
    /// and the name maps point at entries of that name.
    pub open spec fn wf(&self) -> bool {
        &&& self.transitions@.len() == self.states@.len()
        &&& forall|q: usize| #[trigger] self.start_states@.contains(q) ==> q < self.states@.len()
        &&& forall|q: usize| #[trigger] self.accept_states@.contains(q) ==> q < self.states@.len()
        &&& forall|p: int, a: usize|
            0 <= p < self.transitions@.len() && #[trigger] self.transitions@[p]@.contains_key(a) ==> a < self.alphabet@.len()
                && forall|q: usize| #[trigger] self.transitions@[p]@[a].contains(q) ==> q < self.states@.len()
        &&& forall|s: Seq<char>| #[trigger]
            self.alphabet_index_map@.contains_key(s) ==> self.alphabet_index_map@[s] < self.alphabet@.len()
                && self.alphabet@[self.alphabet_index_map@[s] as int]@ == s
        &&& forall|s: Seq<char>| #[trigger]
            self.state_index_map@.contains_key(s) ==> self.state_index_map@[s] < self.states@.len()
                && self.states@[self.state_index_map@[s] as int]@ == s
    }

    /// The states of a well-formed automaton go to states in range.
    pub proof fn lemma_edges_in_range(&self, p: usize, a: usize, q: usize)
        requires
            self.wf(),
            self.edges(p, a).contains(q),
        ensures
            q < self.n(),
            p < self.n(),
    {
        assert(self.transitions@[p as int]@.contains_key(a));
    }

    /// The states that the start states reach are in range.
    pub proof fn lemma_reach_in_range(&self, w: Seq<usize>, q: usize)
        requires
            self.wf(),
            self.reach(w).contains(q),
        ensures
            q < self.n(),
        decreases w.len(),
    {
        if w.len() > 0 {
            let p = choose|p: usize| self.reach(w.drop_last()).contains(p) && #[trigger] self.edges(p, w.last()).contains(q);
            self.lemma_edges_in_range(p, w.last(), q);
        }
    }

    /// Nothing goes anywhere from no state.
    pub proof fn lemma_next_of_empty(&self, a: usize)
        ensures
            self.next_set(Set::empty(), a) == Set::<usize>::empty(),
    {
        assert(self.next_set(Set::empty(), a) =~= Set::<usize>::empty());
    }

    /// Creates an automaton from its parts.
    pub fn new(
        state_index_map: StateIndexMap,
        alphabet_index_map: SymbolIndexMap,
        states: Vec<State>,
        alphabet: Vec<InputSymbol>,
        transitions: Vec<IndexSetMap>,
        start_states: IndexSet,
        accept_states: IndexSet,
    ) -> (r: Self)
        ensures
            r.state_index_map@ == state_index_map@,
            r.alphabet_index_map@ == alphabet_index_map@,
            r.states@ == states@,
            r.alphabet@ == alphabet@,
            r.transitions@ == transitions@,
            r.start_states@ == start_states@,
            r.accept_states@ == accept_states@,
    {
        NFA { state_index_map, alphabet_index_map, states, alphabet, transitions, start_states, accept_states }
    }

    /// The automaton with no state.
    pub fn empty() -> (r: Self)
        ensures
            r.wf(),
            r.n() == 0,
            r.alphabet@.len() == 0,
            r.start_states@ == Set::<usize>::empty(),
            r.accept_states@ == Set::<usize>::empty(),
            r.state_index_map@.dom() == Set::<Seq<char>>::empty(),
            r.alphabet_index_map@.dom() == Set::<Seq<char>>::empty(),
            r.transitions@.len() == 0,
    {
        let r = NFA {
            state_index_map: StateIndexMap::new(),
            alphabet_index_map: SymbolIndexMap::new(),
            states: Vec::new(),
            alphabet: Vec::new(),
            transitions: Vec::new(),
            start_states: IndexSet::new(),
            accept_states: IndexSet::new(),
        };
        proof {
            assert(r.state_index_map@ == Map::<Seq<char>, usize>::empty());
            assert(r.alphabet_index_map@ == Map::<Seq<char>, usize>::empty());
        }
        r
    }

    /// Whether `self` is `old` with some states appended, each with no
    /// transitions, registered under its name, nothing else differing in the states.
    pub open spec fn grown_from(&self, old: &NFA) -> bool {
        &&& self.states@.len() >= old.states@.len()
        &&& forall|i: int| 0 <= i < old.states@.len() ==> #[trigger] self.states@[i] == old.states@[i]
        &&& self.transitions@.len() == self.states@.len()
        &&& forall|s: Seq<char>| #[trigger] old.state_index_map@.contains_key(s) ==> self.state_index_map@.contains_key(s)
            && self.state_index_map@[s] == old.state_index_map@[s]
    }

    /// Returns the number of the state named like `state`, appending it first where it is new.
    fn intern_state(&mut self, state: &State) -> (idx: usize)
        requires
            old(self).wf(),
        ensures
            final(self).wf(),
            final(self).grown_from(old(self)),
            final(self).state_index_map@.contains_key(state@),
            idx == final(self).state_index_map@[state@],
            idx < final(self).n(),
            forall|p: usize, a: usize| #[trigger] final(self).edges(p, a) == old(self).edges(p, a),
            final(self).alphabet@ == old(self).alphabet@,
            final(self).alphabet_index_map@ == old(self).alphabet_index_map@,
            final(self).start_states@ == old(self).start_states@,
            final(self).accept_states@ == old(self).accept_states@,
    {
        match self.state_index_map.get(state) {
            Some(idx) => idx,
            None => {
                let idx = self.states.len();
                self.states.push(state.clone());
                self.transitions.push(IndexSetMap::new());
                self.state_index_map.insert(state.clone(), idx);
                proof {
                    assert forall|p: usize, a: usize| #[trigger] self.edges(p, a) == old(self).edges(p, a) by {
                        if p == idx {
                            assert(self.transitions@[idx as int]@ == Map::<usize, Set<usize>>::empty());
                        }
                    }
                    assert forall|p: int, a: usize|
                        0 <= p < self.transitions@.len() && #[trigger] self.transitions@[p]@.contains_key(a) implies a < self.alphabet@.len()
                            && forall|q: usize| #[trigger] self.transitions@[p]@[a].contains(q) ==> q < self.states@.len() by {
                        assert(p < old(self).transitions@.len());
                        assert(self.transitions@[p] == old(self).transitions@[p]);
                    }
                }
                idx
            },
        }
    }

    /// Adds a start state, adding the state where it is new.
    pub fn add_start_state(&mut self, start_state: State)
        requires
            old(self).wf(),
        ensures
            final(self).wf(),
            final(self).grown_from(old(self)),
            final(self).state_index_map@.contains_key(start_state@),
            final(self).start_states@ == old(self).start_states@.insert(final(self).state_index_map@[start_state@]),
            final(self).accept_states@ == old(self).accept_states@,
            forall|p: usize, a: usize| #[trigger] final(self).edges(p, a) == old(self).edges(p, a),
            final(self).alphabet@ == old(self).alphabet@,
            final(self).alphabet_index_map@ == old(self).alphabet_index_map@,
    {
        let idx = self.intern_state(&start_state);
        let ghost mid = *self;
        self.start_states.insert(idx);
        proof {
            assert forall|p: usize, a: usize| #[trigger] self.edges(p, a) == old(self).edges(p, a) by {
                assert(self.edges(p, a) == mid.edges(p, a));
            }
        }
    }

    /// Adds an accept state, adding the state where it is new.
    pub fn add_accept_state(&mut self, accept_state: State)
        requires
            old(self).wf(),
        ensures
            final(self).wf(),
            final(self).grown_from(old(self)),
            final(self).state_index_map@.contains_key(accept_state@),
            final(self).accept_states@ == old(self).accept_states@.insert(final(self).state_index_map@[accept_state@]),
            final(self).start_states@ == old(self).start_states@,
            forall|p: usize, a: usize| #[trigger] final(self).edges(p, a) == old(self).edges(p, a),
            final(self).alphabet@ == old(self).alphabet@,
            final(self).alphabet_index_map@ == old(self).alphabet_index_map@,
    {
        let idx = self.intern_state(&accept_state);
        let ghost mid = *self;
        self.accept_states.insert(idx);
        proof {
            assert forall|p: usize, a: usize| #[trigger] self.edges(p, a) == old(self).edges(p, a) by {
                assert(self.edges(p, a) == mid.edges(p, a));
            }
        }
    }

    /// Returns the number of `symbol`, appending it to the alphabet where it is new.
    fn intern_symbol(&mut self, symbol: &InputSymbol) -> (idx: usize)
        requires
            old(self).wf(),
        ensures
            final(self).wf(),
            idx == final(self).alphabet_index_map@[symbol@],
            final(self).alphabet_index_map@ == old(self).alphabet_index_map@.insert(symbol@, idx),
            old(self).alphabet_index_map@.contains_key(symbol@) ==> final(self).alphabet@ == old(self).alphabet@,
            !old(self).alphabet_index_map@.contains_key(symbol@) ==> final(self).alphabet@ == old(self).alphabet@.push(*symbol),
            final(self).states@ == old(self).states@,
            final(self).transitions@ == old(self).transitions@,
            final(self).state_index_map@ == old(self).state_index_map@,
            final(self).start_states@ == old(self).start_states@,
            final(self).accept_states@ == old(self).accept_states@,
    {
        match self.alphabet_index_map.get(symbol) {
            Some(idx) => {
                assert(self.alphabet_index_map@ =~= old(self).alphabet_index_map@.insert(symbol@, idx));
                idx
            },
            None => {
                let idx = self.alphabet.len();
                self.alphabet.push(symbol.clone());
                self.alphabet_index_map.insert(symbol.clone(), idx);
                idx
            },
        }
    }

    /// Adds a transition from `from` on `symbol` to `to`, adding the states
    /// and the symbol where they are new.
    pub fn add_transition(&mut self, from: &State, symbol: &InputSymbol, to: &State)
        requires
            old(self).wf(),
        ensures
            final(self).wf(),
            final(self).grown_from(old(self)),
            final(self).state_index_map@.contains_key(from@),
            final(self).state_index_map@.contains_key(to@),
            final(self).alphabet_index_map@ == old(self).alphabet_index_map@.insert(symbol@, final(self).alphabet_index_map@[symbol@]),
            ({
                let f = final(self).state_index_map@[from@];
                let t = final(self).state_index_map@[to@];
                let a = final(self).alphabet_index_map@[symbol@];
                &&& final(self).edges(f, a) == old(self).edges(f, a).insert(t)
                &&& forall|p: usize, b: usize| (p != f || b != a) ==> #[trigger] final(self).edges(p, b) == old(self).edges(p, b)
            }),
            final(self).start_states@ == old(self).start_states@,
            final(self).accept_states@ == old(self).accept_states@,
    {
        let from_index = self.intern_state(from);
        let ghost m1 = *self;
        let to_index = self.intern_state(to);
        let ghost m2 = *self;
        let symbol_index = self.intern_symbol(symbol);
        let ghost before = *self;
        proof {
            assert forall|p: usize, b: usize| #[trigger] before.edges(p, b) == old(self).edges(p, b) by {
                assert(before.edges(p, b) == m2.edges(p, b));
                assert(m2.edges(p, b) == m1.edges(p, b));
            }
            assert(m1.state_index_map@.contains_key(from@));
            assert(before.state_index_map@[from@] == from_index);
        }
        let mut row = self.transitions[from_index].clone();
        row.add(symbol_index, to_index);
        self.transitions.set(from_index, row);
        proof {
            assert forall|p: usize, b: usize| (p != from_index || b != symbol_index) implies #[trigger] self.edges(p, b) == before.edges(p, b) by {
                if p < self.transitions@.len() && p != from_index {
                    assert(self.transitions@[p as int] == before.transitions@[p as int]);
                }
            }
            assert(self.edges(from_index, symbol_index) =~= before.edges(from_index, symbol_index).insert(to_index));
            assert forall|p: int, a: usize|
                0 <= p < self.transitions@.len() && #[trigger] self.transitions@[p]@.contains_key(a) implies a < self.alphabet@.len()
                    && forall|q: usize| #[trigger] self.transitions@[p]@[a].contains(q) ==> q < self.states@.len() by {
                if p != from_index {
                    assert(self.transitions@[p] == before.transitions@[p]);
                } else if a != symbol_index {
                    assert(before.transitions@[p]@.contains_key(a));
                    assert(self.transitions@[p]@[a] == before.transitions@[p]@[a]);
                } else {
                    assert(self.alphabet_index_map@.contains_key(symbol@));
                    assert(symbol_index < self.alphabet@.len());
                    let old_set = if before.transitions@[p]@.contains_key(a) { before.transitions@[p]@[a] } else { Set::<usize>::empty() };
                    assert(self.transitions@[p]@[a] == old_set.insert(to_index));
                    assert forall|q: usize| #[trigger] self.transitions@[p]@[a].contains(q) implies q < self.states@.len() by {
                        if q != to_index {
                            assert(old_set.contains(q));
                            assert(before.transitions@[p]@.contains_key(a));
                        }
                    }
                }
            }
        }
    }

    /// The states that the states of `states` go to on symbol number `symbol`.
    pub fn _next_states(&self, states: &IndexSet, symbol: usize) -> (r: IndexSet)
        requires
            self.wf(),
            forall|q: usize| #[trigger] states@.contains(q) ==> q < self.n(),
        ensures
            r@ == self.next_set(states@, symbol),
            forall|q: usize| #[trigger] r@.contains(q) ==> q < self.n(),
    {
        let list = states.to_vec();
        let mut next_states = IndexSet::new();
        let mut i: usize = 0;
        while i < list.len()
            invariant
                self.wf(),
                list@.to_set() == states@,
                forall|q: usize| #[trigger] states@.contains(q) ==> q < self.n(),
                i <= list@.len(),
                forall|q: usize| #[trigger] next_states@.contains(q) <==> exists|k: int| 0 <= k < i && #[trigger] self.edges(list@[k], symbol).contains(q),
            decreases list@.len() - i,
        {
            let p = list[i];
            proof {
                assert(list@.to_set().contains(p));
            }
            let targets = self.transitions[p].targets(symbol);
            proof {
                assert(targets@.to_set() == self.edges(p, symbol));
            }
            let ghost n0 = next_states@;
            let mut k: usize = 0;
            while k < targets.len()
                invariant
                    k <= targets@.len(),
                    forall|q: usize| #[trigger] next_states@.contains(q) <==> n0.contains(q) || exists|k2: int| 0 <= k2 < k && targets@[k2] == q,
                decreases targets@.len() - k,
            {
                next_states.insert(targets[k]);
                proof {
                    assert forall|q: usize| #[trigger] next_states@.contains(q) <==> n0.contains(q) || exists|k2: int| 0 <= k2 < k + 1 && targets@[k2] == q by {
                        if q == targets@[k as int] {
                            assert(exists|k2: int| 0 <= k2 < k + 1 && targets@[k2] == q);
                        }
                    }
                }
                k = k + 1;
            }
            proof {
                assert forall|q: usize| #[trigger] next_states@.contains(q) <==> exists|k2: int| 0 <= k2 < i + 1 && #[trigger] self.edges(list@[k2], symbol).contains(q) by {
                    if next_states@.contains(q) && !n0.contains(q) {
                        let k2 = choose|k2: int| 0 <= k2 < k && targets@[k2] == q;
                        assert(targets@.to_set().contains(q));
                        assert(self.edges(list@[i as int], symbol).contains(q));
                    }
                    if self.edges(list@[i as int], symbol).contains(q) {
                        assert(targets@.to_set().contains(q));
                        let k2 = choose|k2: int| 0 <= k2 < targets@.len() && targets@[k2] == q;
                    }
                }
            }
            i = i + 1;
        }
        proof {
            assert forall|q: usize| #[trigger] next_states@.contains(q) == self.next_set(states@, symbol).contains(q) by {
                if next_states@.contains(q) {
                    let k = choose|k: int| 0 <= k < list@.len() && #[trigger] self.edges(list@[k], symbol).contains(q);
                    assert(list@.to_set().contains(list@[k]));
                }
                if self.next_set(states@, symbol).contains(q) {
                    let p = choose|p: usize| states@.contains(p) && #[trigger] self.edges(p, symbol).contains(q);
                    assert(list@.to_set().contains(p));
                    let k = choose|k: int| 0 <= k < list@.len() && list@[k] == p;
                    assert(self.edges(list@[k], symbol).contains(q));
                }
            }
            assert(next_states@ =~= self.next_set(states@, symbol));
            assert forall|q: usize| #[trigger] next_states@.contains(q) implies q < self.n() by {
                let p = choose|p: usize| states@.contains(p) && #[trigger] self.edges(p, symbol).contains(q);
                self.lemma_edges_in_range(p, symbol, q);
            }
        }
        next_states
    }
}

/// Two to the power `n`.
pub open spec fn two_to(n: nat) -> nat
    decreases n,
{
    if n == 0 {
        1
    } else {
        2 * two_to((n - 1) as nat)
    }
}

/// Whether `v` lists numbers below `n` in strictly increasing order.
pub open spec fn increasing(v: Seq<usize>, n: nat) -> bool {
    &&& forall|i: int, j: int| 0 <= i < j < v.len() ==> #[trigger] v[i] < #[trigger] v[j]
    &&& forall|i: int| 0 <= i < v.len() ==> #[trigger] v[i] < n
}

/// The strictly increasing lists of numbers below `n`.
pub open spec fn increasing_below(n: nat) -> Set<Seq<usize>> {
    Set::new(|v: Seq<usize>| increasing(v, n))
}

/// There are at most two to the power `n` strictly increasing lists of
/// numbers below `n`.
pub proof fn lemma_increasing_below(n: nat)
    requires
        n <= usize::MAX + 1,
    ensures
        increasing_below(n).finite(),
        increasing_below(n).len() <= two_to(n),
    decreases n,
{
    if n == 0 {
        assert forall|v: Seq<usize>| #[trigger] increasing_below(0).contains(v) implies v == Seq::<usize>::empty() by {
            if v.len() > 0 {
                assert(v[0] < 0);
            }
        }
        assert(increasing_below(0) =~= Set::<Seq<usize>>::empty().insert(Seq::<usize>::empty()));
    } else {
        let m = (n - 1) as nat;
        lemma_increasing_below(m);
        let a = increasing_below(m);
        let f = |v: Seq<usize>| v.push(m as usize);
        let b = a.map(f);
        lemma_map_size_bound_here(a, b, f);
        assert forall|v: Seq<usize>| #[trigger] increasing_below(n).contains(v) implies a.union(b).contains(v) by {
            if v.len() > 0 && v.last() == m {
                let u = v.drop_last();
                assert forall|i: int| 0 <= i < u.len() implies #[trigger] u[i] < m by {
                    assert(v[i] < v[v.len() - 1]);
                }
                assert(a.contains(u));
                assert(v =~= f(u));
                assert(b.contains(f(u)));
            } else {
                assert forall|i: int| 0 <= i < v.len() implies #[trigger] v[i] < m by {
                    if v[i] == m {
                        if i < v.len() - 1 {
                            assert(v[i] < v[v.len() - 1]);
                        }
                    }
                }
                assert(a.contains(v));
            }
        }
        vstd::set_lib::lemma_len_union(a, b);
        vstd::set_lib::lemma_len_subset(increasing_below(n), a.union(b));
    }
}

/// The image of a finite set is finite and no larger.
proof fn lemma_map_size_bound_here(a: Set<Seq<usize>>, b: Set<Seq<usize>>, f: spec_fn(Seq<usize>) -> Seq<usize>)
    requires
        a.finite(),
        a.map(f) == b,
    ensures
        b.finite(),
        b.len() <= a.len(),
{
    vstd::set_lib::lemma_map_size_bound(a, b, f);
}

/// The positions of the set flags, in increasing order.
fn flagged(flags: &Vec<bool>) -> (r: Vec<usize>)
    ensures
        increasing(r@, flags@.len()),
        r@.to_set() == Set::new(|q: usize| q < flags@.len() && flags@[q as int]),
{
    let mut r: Vec<usize> = Vec::new();
    let mut i: usize = 0;
    while i < flags.len()
        invariant
            i <= flags@.len(),
            increasing(r@, i as nat),
            forall|q: usize| #[trigger] r@.contains(q) <==> q < i && flags@[q as int],
        decreases flags@.len() - i,
    {
        if flags[i] {
            let ghost r0 = r@;
            r.push(i);
            proof {
                assert forall|q: usize| #[trigger] r@.contains(q) <==> q < i + 1 && flags@[q as int] by {
                    if r0.contains(q) {
                        let k = choose|k: int| 0 <= k < r0.len() && r0[k] == q;
                        assert(r@[k] == q);
                    }
                    if r@.contains(q) && q != i {
                        let k = choose|k: int| 0 <= k < r@.len() && r@[k] == q;
                        assert(r0[k] == q);
                    }
                    if q == i {
                        assert(r@[r0.len() as int] == q);
                    }
                }
            }
        }
        i = i + 1;
    }
    proof {
        assert(r@.to_set() =~= Set::new(|q: usize| q < flags@.len() && flags@[q as int]));
    }
    r
}

/// `n` flags, all unset.
fn no_flags(n: usize) -> (r: Vec<bool>)
    ensures
        r@.len() == n,
        forall|i: int| 0 <= i < n ==> !#[trigger] r@[i],
{
    let mut r: Vec<bool> = Vec::new();
    while r.len() < n
        invariant
            r@.len() <= n,
            forall|i: int| 0 <= i < r@.len() ==> !#[trigger] r@[i],
        decreases n - r@.len(),
    {
        r.push(false);
    }
    r
}

/// A copy of a list of numbers.
fn copy_indices(v: &Vec<usize>) -> (r: Vec<usize>)
    ensures
        r@ == v@,
{
    let mut r: Vec<usize> = Vec::new();
    let mut i: usize = 0;
    while i < v.len()
        invariant
            i <= v@.len(),
            r@ == v@.take(i as int),
        decreases v@.len() - i,
    {
        r.push(v[i]);
        i = i + 1;
        assert(r@ =~= v@.take(i as int));
    }
    assert(v@.take(v@.len() as int) =~= v@);
    r
}

/// Whether `rows`, `sets` and `acc` describe the subset automaton of `nfa`
/// at state `i`: its row goes, on every symbol that leads the states of its
/// set somewhere, to a state whose set is where they lead, and it accepts
/// when its set holds an accept state.
pub open spec fn subset_row_ok(nfa: NFA, rows: Seq<Map<usize, usize>>, sets: Seq<Set<usize>>, acc: Set<usize>, i: int) -> bool {
    &&& forall|a: usize| #[trigger] rows[i].contains_key(a) <==> nfa.next_set(sets[i], a) != Set::<usize>::empty()
    &&& forall|a: usize| #[trigger] rows[i].contains_key(a) ==> rows[i][a] < sets.len() && sets[rows[i][a] as int] == nfa.next_set(sets[i], a)
    &&& acc.contains(i as usize) <==> exists|q: usize| #[trigger] sets[i].contains(q) && nfa.accept_states@.contains(q)
}

/// The transition rows of an automaton, as maps.
pub open spec fn rows_of(t: Seq<IndexMap>) -> Seq<Map<usize, usize>> {
    t.map_values(|m: IndexMap| m@)
}

/// Runs of the subset automaton track the sets of states that the
/// automaton reaches: a run ends in a state whose set is the reached set, and
/// a run gets stuck only where no state is reached.
pub proof fn lemma_subset_runs(nfa: NFA, dfa: DFA, sets: Seq<Set<usize>>, w: Seq<usize>)
    requires
        sets.len() == dfa.transitions@.len(),
        dfa.start_state == 0,
        sets.len() > 0,
        sets[0] == nfa.start_states@,
        forall|i: int| 0 <= i < sets.len() ==> #[trigger] subset_row_ok(nfa, rows_of(dfa.transitions@), sets, dfa.accept_states@, i),
    ensures
        dfa.run(0, w) matches Some(j) ==> j < sets.len() && sets[j as int] == nfa.reach(w),
        dfa.run(0, w) is None ==> nfa.reach(w) == Set::<usize>::empty(),
    decreases w.len(),
{
    if w.len() > 0 {
        lemma_subset_runs(nfa, dfa, sets, w.drop_last());
        let rows = rows_of(dfa.transitions@);
        match dfa.run(0, w.drop_last()) {
            Some(j) => {
                assert(subset_row_ok(nfa, rows, sets, dfa.accept_states@, j as int));
                assert(rows[j as int] == dfa.transitions@[j as int]@);
            },
            None => {
                nfa.lemma_next_of_empty(w.last());
            },
        }
    }
}

impl NFA {
    /// The states that the states of `states` go to on symbol number
    /// `symbol`, in increasing order.
    pub fn _next_states_vec(&self, states: &Vec<usize>, symbol: usize) -> (r: Vec<usize>)
        requires
            self.wf(),
            forall|k: int| 0 <= k < states@.len() ==> #[trigger] states@[k] < self.n(),
        ensures
            increasing(r@, self.n()),
            r@.to_set() == self.next_set(states@.to_set(), symbol),
    {
        let mut flags = no_flags(self.states.len());
        let mut i: usize = 0;
        while i < states.len()
            invariant
                self.wf(),
                forall|k: int| 0 <= k < states@.len() ==> #[trigger] states@[k] < self.n(),
                flags@.len() == self.n(),
                i <= states@.len(),
                forall|q: usize| q < self.n() ==> (#[trigger] flags@[q as int] <==> exists|k: int| 0 <= k < i && #[trigger] self.edges(states@[k], symbol).contains(q)),
            decreases states@.len() - i,
        {
            let p = states[i];
            let targets = self.transitions[p].targets(symbol);
            proof {
                assert(targets@.to_set() == self.edges(p, symbol));
            }
            let ghost f0 = flags@;
            let mut k: usize = 0;
            while k < targets.len()
                invariant
                    self.wf(),
                    p < self.n(),
                    targets@.to_set() == self.edges(p, symbol),
                    flags@.len() == self.n(),
                    k <= targets@.len(),
                    forall|q: usize| q < self.n() ==> (#[trigger] flags@[q as int] <==> f0[q as int] || exists|k2: int| 0 <= k2 < k && targets@[k2] == q),
                decreases targets@.len() - k,
            {
                let t = targets[k];
                proof {
                    assert(targets@.to_set().contains(t));
                    self.lemma_edges_in_range(p, symbol, t);
                }
                flags.set(t, true);
                proof {
                    assert forall|q: usize| q < self.n() implies (#[trigger] flags@[q as int] <==> f0[q as int] || exists|k2: int| 0 <= k2 < k + 1 && targets@[k2] == q) by {
                        if q == t {
                            assert(targets@[k as int] == q);
                        }
                    }
                }
                k = k + 1;
            }
            proof {
                assert forall|q: usize| q < self.n() implies (#[trigger] flags@[q as int] <==> exists|k2: int| 0 <= k2 < i + 1 && #[trigger] self.edges(states@[k2], symbol).contains(q)) by {
                    if flags@[q as int] && !f0[q as int] {
                        let k2 = choose|k2: int| 0 <= k2 < k && targets@[k2] == q;
                        assert(targets@.to_set().contains(q));
                        assert(self.edges(states@[i as int], symbol).contains(q));
                    }
                    if self.edges(states@[i as int], symbol).contains(q) {
                        assert(targets@.to_set().contains(q));
                        let k2 = choose|k2: int| 0 <= k2 < targets@.len() && targets@[k2] == q;
                    }
                }
            }
            i = i + 1;
        }
        let r = flagged(&flags);
        proof {
            assert forall|q: usize| #[trigger] r@.to_set().contains(q) == self.next_set(states@.to_set(), symbol).contains(q) by {
                if r@.to_set().contains(q) {
                    let k = choose|k: int| 0 <= k < states@.len() && #[trigger] self.edges(states@[k], symbol).contains(q);
                    assert(states@.to_set().contains(states@[k]));
                }
                if self.next_set(states@.to_set(), symbol).contains(q) {
                    let p = choose|p: usize| states@.to_set().contains(p) && #[trigger] self.edges(p, symbol).contains(q);
                    let k = choose|k: int| 0 <= k < states@.len() && states@[k] == p;
                    self.lemma_edges_in_range(p, symbol, q);
                    assert(self.edges(states@[k], symbol).contains(q));
                }
            }
            assert(r@.to_set() =~= self.next_set(states@.to_set(), symbol));
        }
        r
    }

    /// The states of `set`, in increasing order.
    fn sorted_states(&self, set: &IndexSet) -> (r: Vec<usize>)
        requires
            forall|q: usize| #[trigger] set@.contains(q) ==> q < self.n(),
        ensures
            increasing(r@, self.n()),
            r@.to_set() == set@,
    {
        let mut flags = no_flags(self.states.len());
        let list = set.to_vec();
        let mut i: usize = 0;
        while i < list.len()
            invariant
                list@.to_set() == set@,
                forall|q: usize| #[trigger] set@.contains(q) ==> q < self.n(),
                flags@.len() == self.n(),
                i <= list@.len(),
                forall|q: usize| q < self.n() ==> (#[trigger] flags@[q as int] <==> exists|k: int| 0 <= k < i && list@[k] == q),
            decreases list@.len() - i,
        {
            proof {
                assert(list@.to_set().contains(list@[i as int]));
            }
            flags.set(list[i], true);
            proof {
                assert forall|q: usize| q < self.n() implies (#[trigger] flags@[q as int] <==> exists|k: int| 0 <= k < i + 1 && list@[k] == q) by {
                    if q == list@[i as int] {
                        assert(list@[i as int] == q);
                    }
                }
            }
            i = i + 1;
        }
        let r = flagged(&flags);
        proof {
            assert forall|q: usize| #[trigger] r@.to_set().contains(q) == set@.contains(q) by {
                if set@.contains(q) {
                    assert(list@.to_set().contains(q));
                    let k = choose|k: int| 0 <= k < list@.len() && list@[k] == q;
                }
                if r@.to_set().contains(q) {
                    let k = choose|k: int| 0 <= k < i && list@[k] == q;
                    assert(list@.to_set().contains(list@[k]));
                }
            }
            assert(r@.to_set() =~= set@);
        }
        r
    }
}

/// The sets of states that lists of states stand for.
pub open spec fn sets_of(v: Seq<Vec<usize>>) -> Seq<Set<usize>> {
    v.map_values(|x: Vec<usize>| x@.to_set())
}

/// A state described right stays described right when the other states
/// change and more states are added.
pub proof fn lemma_row_ok_frame(
    nfa: NFA,
    rows1: Seq<Map<usize, usize>>,
    sets1: Seq<Set<usize>>,
    acc1: Set<usize>,
    rows2: Seq<Map<usize, usize>>,
    sets2: Seq<Set<usize>>,
    acc2: Set<usize>,
    j: int,
)
    requires
        subset_row_ok(nfa, rows1, sets1, acc1, j),
        0 <= j < sets1.len(),
        rows2[j] == rows1[j],
        sets1.len() <= sets2.len(),
        forall|x: int| 0 <= x < sets1.len() ==> #[trigger] sets2[x] == sets1[x],
        acc2.contains(j as usize) == acc1.contains(j as usize),
    ensures
        subset_row_ok(nfa, rows2, sets2, acc2, j),
{
    assert(sets2[j] == sets1[j]);
    assert forall|a: usize| #[trigger] rows2[j].contains_key(a) implies rows2[j][a] < sets2.len() && sets2[rows2[j][a] as int] == nfa.next_set(sets2[j], a) by {
        assert(rows1[j].contains_key(a));
        assert(sets2[rows1[j][a] as int] == sets1[rows1[j][a] as int]);
    }
}

impl NFA {
    /// The deterministic automaton of the sets of states that the start
    /// states reach (the subset construction): it accepts exactly the words
    /// that this automaton accepts.
    #[verifier::rlimit(80)]
    pub fn to_deterministic(&self) -> (r: DFA)
        requires
            self.wf(),
        ensures
            r.wf(),
            r.alphabet@ == self.alphabet@,
            r.alphabet_index_map@ == self.alphabet_index_map@,
            forall|w: Seq<usize>| #[trigger] r.accepts_indices(w) <==> self.accepts_indices(w),
            forall|w: Seq<Seq<char>>| #[trigger] r.accepts_word(w) <==> self.accepts_word(w),
    {
        let n = self.states.len();
        proof {
            lemma_increasing_below(n as nat);
        }
        let start = self.sorted_states(&self.start_states);
        let mut map = SubsetMap::new();
        map.insert(copy_indices(&start), 0);
        let mut subsets: Vec<Vec<usize>> = Vec::new();
        subsets.push(start);
        let mut rows: Vec<IndexMap> = Vec::new();
        rows.push(IndexMap::new());
        let mut accept = IndexSet::new();
        let mut to_process: Vec<usize> = Vec::new();
        to_process.push(0);
        let ghost mut done: Set<usize> = Set::empty();
        proof {
            assert(map@.dom() =~= Set::<Seq<usize>>::empty().insert(start@));
            assert(increasing_below(n as nat).contains(start@));
            assert(to_process@[0] == 0usize);
            assert(rows@[0]@ == Map::<usize, usize>::empty());
        }
        while to_process.len() > 0
            invariant
                self.wf(),
                n == self.n(),
                increasing_below(n as nat).finite(),
                increasing_below(n as nat).len() <= two_to(n as nat),
                subsets@.len() == rows@.len(),
                subsets@.len() >= 1,
                forall|i: int| 0 <= i < subsets@.len() ==> increasing(#[trigger] subsets@[i]@, n as nat),
                subsets@[0]@.to_set() == self.start_states@,
                forall|key: Seq<usize>| #[trigger] map@.contains_key(key) ==> map@[key] < subsets@.len() && subsets@[map@[key] as int]@ == key,
                map@.dom().finite(),
                map@.dom().len() == subsets@.len(),
                map@.dom().subset_of(increasing_below(n as nat)),
                forall|i: int| 0 <= i < to_process@.len() ==> #[trigger] to_process@[i] < subsets@.len() && !done.contains(to_process@[i]),
                to_process@.no_duplicates(),
                forall|i: usize| i < subsets@.len() && !#[trigger] done.contains(i) ==> rows@[i as int]@ == Map::<usize, usize>::empty() && !accept@.contains(i)
                    && to_process@.contains(i),
                forall|i: usize| #[trigger] done.contains(i) ==> i < subsets@.len() && subset_row_ok(*self, rows_of(rows@), sets_of(subsets@), accept@, i as int),
                map@.dom().len() <= two_to(n as nat),
                forall|i: usize| #[trigger] accept@.contains(i) ==> i < subsets@.len(),
                forall|i: int, a: usize| 0 <= i < rows@.len() && #[trigger] rows@[i]@.contains_key(a) ==> a < self.alphabet@.len() && rows@[i]@[a] < subsets@.len(),
            decreases two_to(n as nat) - map@.dom().len(), to_process@.len(),
        {
            proof {
                vstd::set_lib::lemma_len_subset(map@.dom(), increasing_below(n as nat));
            }
            let ghost stack0 = to_process@;
            let i = to_process.pop().unwrap();
            proof {
                assert(stack0 == to_process@.push(i));
                assert(stack0[stack0.len() - 1] == i);
                assert forall|k2: int| 0 <= k2 < to_process@.len() implies #[trigger] to_process@[k2] != i by {
                    assert(stack0[k2] == to_process@[k2]);
                }
                assert forall|j: usize| j < subsets@.len() && !#[trigger] done.contains(j) && j != i implies rows@[j as int]@ == Map::<usize, usize>::empty() && !accept@.contains(j)
                    && to_process@.contains(j) by {
                    assert(stack0.contains(j));
                    let k2 = choose|k2: int| 0 <= k2 < stack0.len() && stack0[k2] == j;
                    assert(k2 < stack0.len() - 1);
                    assert(to_process@[k2] == j);
                }
            }
            let ghost dom_len0 = map@.dom().len();
            let ghost tp_len0 = to_process@.len();
            let cur = copy_indices(&subsets[i]);
            let ghost cs = cur@.to_set();
            proof {
                assert(increasing(subsets@[i as int]@, n as nat));
            }
            // Whether the set holds an accept state.
            let mut is_acc = false;
            let mut k: usize = 0;
            while k < cur.len()
                invariant
                    k <= cur@.len(),
                    cs == cur@.to_set(),
                    is_acc <==> exists|k2: int| 0 <= k2 < k && self.accept_states@.contains(#[trigger] cur@[k2]),
                decreases cur@.len() - k,
            {
                if self.accept_states.contains(cur[k]) {
                    is_acc = true;
                }
                k = k + 1;
            }
            proof {
                if is_acc {
                    let k2 = choose|k2: int| 0 <= k2 < cur@.len() && self.accept_states@.contains(#[trigger] cur@[k2]);
                    assert(cs.contains(cur@[k2]));
                } else {
                    assert forall|q: usize| #[trigger] cs.contains(q) implies !self.accept_states@.contains(q) by {
                        let k2 = choose|k2: int| 0 <= k2 < cur@.len() && cur@[k2] == q;
                    }
                }
            }
            let ghost acc0 = accept@;
            if is_acc {
                accept.insert(i);
            }
            proof {
                assert forall|j: usize| #[trigger] done.contains(j) implies j < subsets@.len() && subset_row_ok(*self, rows_of(rows@), sets_of(subsets@), accept@, j as int) by {
                    assert(j != i);
                    lemma_row_ok_frame(*self, rows_of(rows@), sets_of(subsets@), acc0, rows_of(rows@), sets_of(subsets@), accept@, j as int);
                }
                assert forall|j: usize| j < subsets@.len() && !#[trigger] done.contains(j) && j != i implies rows@[j as int]@ == Map::<usize, usize>::empty() && !accept@.contains(j)
                    && to_process@.contains(j) by {
                    assert(!acc0.contains(j));
                }
            }
            // The symbols on which some state of the set goes somewhere.
            let mut syms = IndexSet::new();
            let mut k: usize = 0;
            while k < cur.len()
                invariant
                    self.wf(),
                    n == self.n(),
                    increasing(cur@, n as nat),
                    k <= cur@.len(),
                    forall|a: usize| #[trigger] syms@.contains(a) ==> exists|k2: int| 0 <= k2 < k && self.transitions@[cur@[k2] as int]@.contains_key(a),
                    forall|a: usize, k2: int| 0 <= k2 < k && #[trigger] self.transitions@[cur@[k2] as int]@.contains_key(a) ==> syms@.contains(a),
                decreases cur@.len() - k,
            {
                let q = cur[k];
                let keys = self.transitions[q].keys();
                let ghost s0 = syms@;
                let mut t: usize = 0;
                while t < keys.len()
                    invariant
                        t <= keys@.len(),
                        keys@.to_set() == self.transitions@[q as int]@.dom(),
                        forall|a: usize| #[trigger] syms@.contains(a) <==> s0.contains(a) || exists|t2: int| 0 <= t2 < t && keys@[t2] == a,
                    decreases keys@.len() - t,
                {
                    syms.insert(keys[t]);
                    proof {
                        assert forall|a: usize| #[trigger] syms@.contains(a) <==> s0.contains(a) || exists|t2: int| 0 <= t2 < t + 1 && keys@[t2] == a by {
                            if a == keys@[t as int] {
                                assert(keys@[t as int] == a);
                            }
                        }
                    }
                    t = t + 1;
                }
                proof {
                    assert forall|a: usize| #[trigger] syms@.contains(a) implies exists|k2: int| 0 <= k2 < k + 1 && self.transitions@[cur@[k2] as int]@.contains_key(a) by {
                        if !s0.contains(a) {
                            let t2 = choose|t2: int| 0 <= t2 < t && keys@[t2] == a;
                            assert(keys@.to_set().contains(a));
                            assert(self.transitions@[cur@[k as int] as int]@.contains_key(a));
                        }
                    }
                    assert forall|a: usize, k2: int| 0 <= k2 < k + 1 && #[trigger] self.transitions@[cur@[k2] as int]@.contains_key(a) implies syms@.contains(a) by {
                        if k2 == k {
                            assert(keys@.to_set().contains(a));
                            let t2 = choose|t2: int| 0 <= t2 < keys@.len() && keys@[t2] == a;
                        }
                    }
                }
                k = k + 1;
            }
            let symlist = syms.to_vec();
            let mut row = IndexMap::new();
            let mut t: usize = 0;
            while t < symlist.len()
                invariant
                    self.wf(),
                    n == self.n(),
                    increasing_below(n as nat).finite(),
                    increasing_below(n as nat).len() <= two_to(n as nat),
                    increasing(cur@, n as nat),
                    cs == cur@.to_set(),
                    i < subsets@.len(),
                    subsets@[i as int]@ == cur@,
                    !done.contains(i),
                    t <= symlist@.len(),
                    symlist@.to_set() == syms@,
                    forall|a: usize| #[trigger] row@.contains_key(a) <==> (exists|t2: int| 0 <= t2 < t && symlist@[t2] == a) && self.next_set(cs, a) != Set::<usize>::empty(),
                    forall|a: usize| #[trigger] row@.contains_key(a) ==> row@[a] < subsets@.len() && subsets@[row@[a] as int]@.to_set() == self.next_set(cs, a),
                    forall|a: usize| #[trigger] syms@.contains(a) ==> a < self.alphabet@.len(),
                    subsets@.len() == rows@.len(),
                    forall|k2: int| 0 <= k2 < subsets@.len() ==> increasing(#[trigger] subsets@[k2]@, n as nat),
                    subsets@[0]@.to_set() == self.start_states@,
                    forall|key: Seq<usize>| #[trigger] map@.contains_key(key) ==> map@[key] < subsets@.len() && subsets@[map@[key] as int]@ == key,
                    map@.dom().finite(),
                    map@.dom().len() == subsets@.len(),
                    map@.dom().subset_of(increasing_below(n as nat)),
                    forall|k2: int| 0 <= k2 < to_process@.len() ==> #[trigger] to_process@[k2] < subsets@.len() && !done.contains(to_process@[k2]),
                    forall|j: usize| j < subsets@.len() && !#[trigger] done.contains(j) && j != i ==> rows@[j as int]@ == Map::<usize, usize>::empty() && !accept@.contains(j)
                        && to_process@.contains(j),
                    map@.dom().len() <= two_to(n as nat),
                    forall|j: usize| #[trigger] done.contains(j) ==> j < subsets@.len() && subset_row_ok(*self, rows_of(rows@), sets_of(subsets@), accept@, j as int),
                    forall|j: usize| #[trigger] accept@.contains(j) ==> j < subsets@.len(),
                    forall|j: int, a: usize| 0 <= j < rows@.len() && #[trigger] rows@[j]@.contains_key(a) ==> a < self.alphabet@.len() && rows@[j]@[a] < subsets@.len(),
                    map@.dom().len() >= dom_len0,
                    map@.dom().len() == dom_len0 ==> to_process@.len() == tp_len0,
                    to_process@.no_duplicates(),
                    forall|k2: int| 0 <= k2 < to_process@.len() ==> #[trigger] to_process@[k2] != i,
                decreases symlist@.len() - t,
            {
                let a = symlist[t];
                proof {
                    assert(symlist@.to_set().contains(a));
                }
                let next = self._next_states_vec(&cur, a);
                if next.len() == 0 {
                    proof {
                        assert(next@.to_set() =~= Set::<usize>::empty());
                        assert forall|b: usize| #[trigger] row@.contains_key(b) <==> (exists|t2: int| 0 <= t2 < t + 1 && symlist@[t2] == b) && self.next_set(cs, b) != Set::<usize>::empty() by {
                            if b == a {
                                assert(self.next_set(cs, a) == Set::<usize>::empty());
                            } else if exists|t2: int| 0 <= t2 < t + 1 && symlist@[t2] == b {
                                let t2 = choose|t2: int| 0 <= t2 < t + 1 && symlist@[t2] == b;
                                assert(t2 < t);
                            }
                        }
                    }
                    t = t + 1;
                    continue;
                }
                proof {
                    assert(next@.len() > 0);
                    assert(next@.to_set().contains(next@[0]));
                }
                let j = match map.get(&next) {
                    Some(j) => j,
                    None => {
                        let j = subsets.len();
                        let ghost dom0 = map@.dom();
                        let ghost rows0 = rows@;
                        let ghost subs0 = subsets@;
                        let ghost tp0 = to_process@;
                        map.insert(copy_indices(&next), j);
                        subsets.push(next);
                        rows.push(IndexMap::new());
                        to_process.push(j);
                        proof {
                            assert(map@.dom() =~= dom0.insert(next@));
                            assert(increasing_below(n as nat).contains(next@));
                            vstd::set_lib::lemma_len_subset(map@.dom(), increasing_below(n as nat));
                            assert forall|j2: usize| #[trigger] done.contains(j2) implies j2 < subsets@.len() && subset_row_ok(*self, rows_of(rows@), sets_of(subsets@), accept@, j2 as int) by {
                                lemma_row_ok_frame(*self, rows_of(rows0), sets_of(subs0), accept@, rows_of(rows@), sets_of(subsets@), accept@, j2 as int);
                            }
                            assert forall|k2: int| 0 <= k2 < to_process@.len() implies #[trigger] to_process@[k2] != i by {
                                if k2 < tp0.len() {
                                    assert(to_process@[k2] == tp0[k2]);
                                }
                            }
                            assert(to_process@.no_duplicates()) by {
                                assert forall|k2: int| 0 <= k2 < tp0.len() implies #[trigger] tp0[k2] != j by {}
                            }
                            assert forall|j2: usize| j2 < subsets@.len() && !#[trigger] done.contains(j2) && j2 != i implies rows@[j2 as int]@ == Map::<usize, usize>::empty() && !accept@.contains(j2)
                                && to_process@.contains(j2) by {
                                if j2 == j {
                                    assert(to_process@[to_process@.len() - 1] == j);
                                } else {
                                    assert(rows@[j2 as int] == rows0[j2 as int]);
                                    assert(tp0.contains(j2));
                                    let k2 = choose|k2: int| 0 <= k2 < tp0.len() && tp0[k2] == j2;
                                    assert(to_process@[k2] == j2);
                                }
                            }
                        }
                        j
                    },
                };
                row.insert(a, j);
                proof {
                    assert(subsets@[j as int]@ == next@);
                }
                t = t + 1;
            }
            let ghost rows_before = rows@;
            rows.set(i, row);
            proof {
                let rv = rows_of(rows@);
                let sv = sets_of(subsets@);
                assert forall|j: usize| #[trigger] done.contains(j) implies j < subsets@.len() && subset_row_ok(*self, rv, sv, accept@, j as int) by {
                    lemma_row_ok_frame(*self, rows_of(rows_before), sv, accept@, rv, sv, accept@, j as int);
                }
                assert(rv[i as int] == row@);
                assert(sv[i as int] == cs);
                assert forall|a: usize| #[trigger] rv[i as int].contains_key(a) <==> self.next_set(sv[i as int], a) != Set::<usize>::empty() by {
                    if self.next_set(cs, a) != Set::<usize>::empty() {
                        if forall|q: usize| !#[trigger] self.next_set(cs, a).contains(q) {
                            assert(self.next_set(cs, a) =~= Set::<usize>::empty());
                        }
                        let q = choose|q: usize| #[trigger] self.next_set(cs, a).contains(q);
                        let p = choose|p: usize| cs.contains(p) && #[trigger] self.edges(p, a).contains(q);
                        let k2 = choose|k2: int| 0 <= k2 < cur@.len() && cur@[k2] == p;
                        assert(self.transitions@[cur@[k2] as int]@.contains_key(a));
                        assert(syms@.contains(a));
                        assert(symlist@.to_set().contains(a));
                        let t2 = choose|t2: int| 0 <= t2 < symlist@.len() && symlist@[t2] == a;
                    }
                }
                assert forall|a: usize| #[trigger] rv[i as int].contains_key(a) implies rv[i as int][a] < sv.len() && sv[rv[i as int][a] as int] == self.next_set(sv[i as int], a) by {
                    assert(subsets@[row@[a] as int]@.to_set() == self.next_set(cs, a));
                }
                assert(subset_row_ok(*self, rv, sv, accept@, i as int));
                assert forall|j: int, a: usize| 0 <= j < rows@.len() && #[trigger] rows@[j]@.contains_key(a) implies a < self.alphabet@.len() && rows@[j]@[a] < subsets@.len() by {
                    if j == i {
                        let t2 = choose|t2: int| 0 <= t2 < symlist@.len() && symlist@[t2] == a;
                        assert(symlist@.to_set().contains(a));
                    } else {
                        assert(rows@[j] == rows_before[j]);
                    }
                }
                done = done.insert(i);
                assert forall|j: usize| j < subsets@.len() && !#[trigger] done.contains(j) implies rows@[j as int]@ == Map::<usize, usize>::empty() && !accept@.contains(j)
                    && to_process@.contains(j) by {
                    assert(j != i);
                    assert(rows@[j as int] == rows_before[j as int]);
                }
            }
        }
        let ghost sets = sets_of(subsets@);
        let ghost final_rows = rows@;
        let ghost final_tp = to_process@;
        let mut states: Vec<State> = Vec::new();
        let mut k: usize = 0;
        while k < subsets.len()
            invariant
                k <= subsets@.len(),
                states@.len() == k,
            decreases subsets@.len() - k,
        {
            states.push(State::from_string(crate::text::name_with_number("q", k)));
            k = k + 1;
        }
        let r = DFA::new(
            StateIndexMap::new(),
            self.alphabet_index_map.clone(),
            states,
            crate::cfg::cfg::clone_terminals(&self.alphabet),
            rows,
            0,
            accept,
        );
        proof {
            assert forall|i: int| 0 <= i < sets.len() implies #[trigger] subset_row_ok(*self, rows_of(r.transitions@), sets, r.accept_states@, i) by {
                if !done.contains(i as usize) {
                    assert(final_tp.contains(i as usize));
                }
            }
            assert(sets[0] == self.start_states@);
            assert forall|w: Seq<usize>| #[trigger] r.accepts_indices(w) <==> self.accepts_indices(w) by {
                lemma_subset_runs(*self, r, sets, w);
                match r.run(0, w) {
                    Some(j) => {
                        assert(subset_row_ok(*self, rows_of(r.transitions@), sets, r.accept_states@, j as int));
                    },
                    None => {},
                }
            }
            assert forall|w: Seq<Seq<char>>| #[trigger] r.accepts_word(w) <==> self.accepts_word(w) by {
                assert(r.symbol_indices(w) == self.symbol_indices(w));
                assert(r.accepts_indices(r.symbol_indices(w)) <==> self.accepts_indices(self.symbol_indices(w)));
            }
            assert(r.state_index_map@ == Map::<Seq<char>, usize>::empty());
        }
        r
    }
}

impl Language for NFA {
    open spec fn ready(&self) -> bool {
        self.wf()
    }

    open spec fn language(&self, w: Seq<Seq<char>>) -> bool {
        self.accepts_word(w)
    }

    fn accepts(&self, input: &Vec<InputSymbol>) -> (r: bool) {
        let ghost w = word_of(input@);
        let mut current_states = self.start_states.clone();
        let mut i: usize = 0;
        proof {
            assert(w.take(0) =~= Seq::<Seq<char>>::empty());
            assert(self.symbol_indices(w.take(0)) =~= Seq::<usize>::empty());
        }
        while i < input.len()
            invariant
                self.wf(),
                w == word_of(input@),
                i <= input@.len(),
                self.over_alphabet(w.take(i as int)),
                current_states@ == self.reach(self.symbol_indices(w.take(i as int))),
                forall|q: usize| #[trigger] current_states@.contains(q) ==> q < self.n(),
            decreases input@.len() - i,
        {
            match self.alphabet_index_map.get(&input[i]) {
                Some(symbol_index) => {
                    let ghost u = self.symbol_indices(w.take(i as int));
                    current_states = self._next_states(&current_states, symbol_index);
                    proof {
                        assert(w[i as int] == input@[i as int]@);
                        assert(w.take(i + 1).drop_last() =~= w.take(i as int));
                        assert(self.symbol_indices(w.take(i + 1)) =~= u.push(symbol_index));
                        assert(u.push(symbol_index).drop_last() =~= u);
                    }
                    i = i + 1;
                },
                None => {
                    proof {
                        assert(w[i as int] == input@[i as int]@);
                        assert(!self.over_alphabet(w));
                    }
                    return false;
                },
            }
        }
        proof {
            assert(w.take(input@.len() as int) =~= w);
        }
        let list = current_states.to_vec();
        let mut k: usize = 0;
        while k < list.len()
            invariant
                k <= list@.len(),
                list@.to_set() == current_states@,
                current_states@ == self.reach(self.symbol_indices(w)),
                self.over_alphabet(w),
                w == word_of(input@),
                forall|k2: int| 0 <= k2 < k ==> !self.accept_states@.contains(#[trigger] list@[k2]),
            decreases list@.len() - k,
        {
            if self.accept_states.contains(list[k]) {
                proof {
                    assert(list@.to_set().contains(list@[k as int]));
                    assert(self.reach(self.symbol_indices(w)).contains(list@[k as int]));
                }
                return true;
            }
            k = k + 1;
        }
        proof {
            assert forall|q: usize| #[trigger] self.reach(self.symbol_indices(w)).contains(q) implies !self.accept_states@.contains(q) by {
                assert(list@.to_set().contains(q));
                let k2 = choose|k2: int| 0 <= k2 < list@.len() && list@[k2] == q;
            }
        }
        false
    }
}

} // verus!
