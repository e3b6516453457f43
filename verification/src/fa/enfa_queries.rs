//! Questions about automata with epsilon transitions: which states are
//! reachable, and whether the language is empty.
use crate::cfg::cfg::clone_terminals;
use crate::collections::{IndexSet, IndexSetMap};
use crate::fa::epsilon_nfa::ENFA;
use crate::fa::state::{clone_states, State};
use crate::input_symbol::{epsilon, epsilon_name};
use crate::language::word_of;
use crate::util::lemma_bounded_set;
use vstd::prelude::*;

verus! {

impl ENFA {
    /// Whether `p` moves to `q` on some symbol, epsilon included.
    pub open spec fn moves(&self, p: usize, q: usize) -> bool {
        exists|a: usize| #[trigger] self.edges(p, a).contains(q)
    }

    /// Whether `path` is a chain of states, each moving to the next.
    pub open spec fn move_path(&self, path: Seq<usize>) -> bool {
        &&& path.len() >= 1
        &&& forall|i: int| 0 <= i < path.len() - 1 ==> #[trigger] self.moves(path[i], path[i + 1])
    }

    /// Whether `p` reaches `q` by moves.
    pub open spec fn reaches(&self, p: usize, q: usize) -> bool {
        exists|path: Seq<usize>| #[trigger] self.move_path(path) && path[0] == p && path.last() == q
    }

    /// A set that holds the start of a chain and is closed under moves holds its states.
    pub proof fn lemma_closed_holds_moves(&self, c: Set<usize>, path: Seq<usize>, i: int)
        requires
            self.move_path(path),
            c.contains(path[0]),
            0 <= i < path.len(),
            forall|p: usize, q: usize| #![trigger c.contains(p), self.moves(p, q)] c.contains(p) && self.moves(p, q) ==> c.contains(q),
        ensures
            c.contains(path[i]),
        decreases i,
    {
        if i > 0 {
            self.lemma_closed_holds_moves(c, path, i - 1);
            let j = i - 1;
            assert(self.moves(path[j], path[j + 1]));
        }
    }

    /// The states that `state` reaches by moves on any symbols, `state` included.
    pub fn reachable_states(&self, state: usize) -> (r: IndexSet)
        requires
            self.wf(),
            state < self.n(),
        ensures
            forall|q: usize| #[trigger] r@.contains(q) <==> self.reaches(state, q),
    {
        let mut reachable = IndexSet::new();
        reachable.insert(state);
        let mut stack: Vec<usize> = Vec::new();
        stack.push(state);
        proof {
            assert(self.move_path(seq![state]));
            assert(stack@[0] == state);
        }
        while stack.len() > 0
            invariant
                self.wf(),
                state < self.n(),
                reachable@.contains(state),
                forall|p: usize| #[trigger] reachable@.contains(p) ==> p < self.n() && self.reaches(state, p),
                forall|i: int| 0 <= i < stack@.len() ==> reachable@.contains(#[trigger] stack@[i]),
                forall|p: usize, q: usize|
                    reachable@.contains(p) && !stack@.contains(p) && #[trigger] self.moves(p, q) ==> reachable@.contains(q),
            decreases self.n() - reachable@.len(), stack@.len(),
        {
            proof {
                lemma_bounded_set(reachable@, self.n());
            }
            let ghost old_stack = stack@;
            let current = stack.pop().unwrap();
            assert(old_stack == stack@.push(current));
            assert forall|p: usize| old_stack.contains(p) && p != current implies stack@.contains(p) by {
                let i = choose|i: int| 0 <= i < old_stack.len() && old_stack[i] == p;
                assert(stack@[i] == p);
            }
            let ghost before = reachable@;
            let ghost stack_len0 = stack@.len();
            let keys = self.transitions[current].keys();
            let mut k: usize = 0;
            while k < keys.len()
                invariant
                    self.wf(),
                    state < self.n(),
                    current < self.n(),
                    reachable@.contains(current),
                    reachable@.contains(state),
                    before.subset_of(reachable@),
                    stack@.len() - stack_len0 == reachable@.len() - before.len(),
                    reachable@.finite(),
                    before.finite(),
                    forall|p: usize| #[trigger] reachable@.contains(p) ==> p < self.n() && self.reaches(state, p),
                    forall|i: int| 0 <= i < stack@.len() ==> reachable@.contains(#[trigger] stack@[i]),
                    forall|p: usize, q: usize|
                        reachable@.contains(p) && !stack@.contains(p) && p != current && #[trigger] self.moves(p, q) ==> reachable@.contains(q),
                    keys@.to_set() == self.transitions@[current as int]@.dom(),
                    k <= keys@.len(),
                    forall|j: int, q: usize| 0 <= j < k && #[trigger] self.edges(current, keys@[j]).contains(q) ==> reachable@.contains(q),
                decreases keys@.len() - k,
            {
                let a = keys[k];
                let targets = self.transitions[current].targets(a);
                let mut t: usize = 0;
                while t < targets.len()
                    invariant
                        self.wf(),
                        state < self.n(),
                        current < self.n(),
                        reachable@.contains(current),
                        reachable@.contains(state),
                        before.subset_of(reachable@),
                        stack@.len() - stack_len0 == reachable@.len() - before.len(),
                        reachable@.finite(),
                        before.finite(),
                        forall|p: usize| #[trigger] reachable@.contains(p) ==> p < self.n() && self.reaches(state, p),
                        forall|i: int| 0 <= i < stack@.len() ==> reachable@.contains(#[trigger] stack@[i]),
                        forall|p: usize, q: usize|
                            reachable@.contains(p) && !stack@.contains(p) && p != current && #[trigger] self.moves(p, q) ==> reachable@.contains(q),
                        targets@.to_set() == self.edges(current, a),
                        k < keys@.len(),
                        a == keys@[k as int],
                        forall|j: int, q: usize| 0 <= j < k && #[trigger] self.edges(current, keys@[j]).contains(q) ==> reachable@.contains(q),
                        t <= targets@.len(),
                        forall|j: int| 0 <= j < t ==> reachable@.contains(#[trigger] targets@[j]),
                    decreases targets@.len() - t,
                {
                    let next = targets[t];
                    proof {
                        assert(targets@.to_set().contains(next));
                        assert(self.edges(current, a).contains(next));
                        self.lemma_edges_in_range(current, a, next);
                        let path = choose|path: Seq<usize>| #[trigger] self.move_path(path) && path[0] == state && path.last() == current;
                        let longer = path.push(next);
                        assert forall|i: int| 0 <= i < longer.len() - 1 implies #[trigger] self.moves(longer[i], longer[i + 1]) by {
                            if i < path.len() - 1 {
                                assert(self.moves(path[i], path[i + 1]));
                            } else {
                                assert(self.edges(longer[i], a).contains(longer[i + 1]));
                            }
                        }
                        assert(self.move_path(longer));
                    }
                    let ghost r0 = reachable@;
                    let ghost s0 = stack@;
                    if reachable.insert(next) {
                        stack.push(next);
                        assert forall|p: usize| s0.contains(p) implies stack@.contains(p) by {
                            let i = choose|i: int| 0 <= i < s0.len() && s0[i] == p;
                            assert(stack@[i] == p);
                        }
                        assert(stack@[stack@.len() - 1] == next);
                    } else {
                        assert(reachable@ =~= r0);
                    }
                    t = t + 1;
                }
                proof {
                    assert forall|q: usize| #[trigger] self.edges(current, a).contains(q) implies reachable@.contains(q) by {
                        assert(targets@.to_set().contains(q));
                        let j = choose|j: int| 0 <= j < targets@.len() && targets@[j] == q;
                    }
                }
                k = k + 1;
            }
            proof {
                assert forall|q: usize| self.moves(current, q) implies reachable@.contains(q) by {
                    let a = choose|a: usize| #[trigger] self.edges(current, a).contains(q);
                    assert(self.transitions@[current as int]@.contains_key(a));
                    assert(keys@.to_set().contains(a));
                    let j = choose|j: int| 0 <= j < keys@.len() && keys@[j] == a;
                    assert(self.edges(current, keys@[j]).contains(q));
                }
                lemma_bounded_set(reachable@, self.n());
                assert(stack_len0 == old_stack.len() - 1);
                vstd::set_lib::lemma_len_subset(before, reachable@);
                if reachable@.len() == before.len() {
                    assert(stack@.len() < old_stack.len());
                } else {
                    assert(self.n() - reachable@.len() < self.n() - before.len());
                }
            }
        }
        proof {
            assert forall|q: usize| self.reaches(state, q) implies #[trigger] reachable@.contains(q) by {
                let path = choose|path: Seq<usize>| #[trigger] self.move_path(path) && path[0] == state && path.last() == q;
                self.lemma_closed_holds_moves(reachable@, path, path.len() - 1);
            }
        }
        reachable
    }
}

impl ENFA {
    /// A chain of moves without reading is a chain of moves.
    proof fn lemma_eps_path_moves(&self, path: Seq<usize>)
        requires
            self.eps_path(self.epsilon_index(), path),
        ensures
            self.move_path(path),
    {
        assert forall|i: int| 0 <= i < path.len() - 1 implies #[trigger] self.moves(path[i], path[i + 1]) by {
            assert(self.eps_edges(self.epsilon_index(), path[i]).contains(path[i + 1]));
            match self.epsilon_index() {
                Some(x) => assert(self.edges(path[i], x).contains(path[i + 1])),
                None => {},
            }
        }
    }

    /// What the start state reaches by moves extends by a chain of moves.
    proof fn lemma_reaches_extend(&self, q: usize, path: Seq<usize>)
        requires
            self.reaches(self.start_state, q),
            self.move_path(path),
            path[0] == q,
        ensures
            self.reaches(self.start_state, path.last()),
    {
        let p1 = choose|p1: Seq<usize>| #[trigger] self.move_path(p1) && p1[0] == self.start_state && p1.last() == q;
        let joined = p1 + path.subrange(1, path.len() as int);
        assert forall|i: int| 0 <= i < joined.len() - 1 implies #[trigger] self.moves(joined[i], joined[i + 1]) by {
            if i < p1.len() - 1 {
                assert(self.moves(p1[i], p1[i + 1]));
            } else {
                let j = i - (p1.len() - 1);
                assert(self.moves(path[j], path[j + 1]));
            }
        }
        assert(self.move_path(joined));
        if path.len() > 1 {
            assert(joined.last() == path.last());
        } else {
            assert(joined =~= p1);
        }
    }

    /// What a word reaches, the start state reaches by moves.
    pub proof fn lemma_reach_reaches(&self, u: Seq<usize>, q: usize)
        requires
            self.reach(u).contains(q),
        ensures
            self.reaches(self.start_state, q),
        decreases u.len(),
    {
        let e = self.epsilon_index();
        if u.len() == 0 {
            let path = choose|path: Seq<usize>| #[trigger] self.eps_path(e, path) && set![self.start_state].contains(path[0]) && path.last() == q;
            self.lemma_eps_path_moves(path);
        } else {
            let x = self.step(self.reach(u.drop_last()), u.last());
            let path = choose|path: Seq<usize>| #[trigger] self.eps_path(e, path) && x.contains(path[0]) && path.last() == q;
            let p0 = path[0];
            let p = choose|p: usize| self.reach(u.drop_last()).contains(p) && #[trigger] self.edges(p, u.last()).contains(p0);
            self.lemma_reach_reaches(u.drop_last(), p);
            let hop = seq![p, p0];
            assert(self.moves(hop[0], hop[1]));
            assert forall|i: int| 0 <= i < hop.len() - 1 implies #[trigger] self.moves(hop[i], hop[i + 1]) by {}
            self.lemma_reaches_extend(p, hop);
            self.lemma_eps_path_moves(path);
            self.lemma_reaches_extend(p0, path);
        }
    }

    /// What the start state reaches by moves, some word reaches.
    pub proof fn lemma_reaches_reach(&self, path: Seq<usize>, i: int)
        requires
            self.move_path(path),
            path[0] == self.start_state,
            0 <= i < path.len(),
        ensures
            exists|u: Seq<usize>| #[trigger] self.reach(u).contains(path[i]),
        decreases i,
    {
        let e = self.epsilon_index();
        if i == 0 {
            self.lemma_closure_holds(e, set![self.start_state], self.start_state);
            assert(self.reach(Seq::<usize>::empty()).contains(path[0]));
        } else {
            self.lemma_reaches_reach(path, i - 1);
            let j = i - 1;
            let u = choose|u: Seq<usize>| #[trigger] self.reach(u).contains(path[j]);
            assert(self.moves(path[j], path[j + 1]));
            let a = choose|a: usize| #[trigger] self.edges(path[j], a).contains(path[j + 1]);
            if e == Some(a) {
                // the closure that `u` reaches holds what it reaches without reading
                let x = if u.len() == 0 { set![self.start_state] } else { self.step(self.reach(u.drop_last()), u.last()) };
                assert(self.reach(u) == self.closure(x));
                let p = choose|p: Seq<usize>| #[trigger] self.eps_path(e, p) && x.contains(p[0]) && p.last() == path[j];
                let longer = p.push(path[i]);
                assert forall|k: int| 0 <= k < longer.len() - 1 implies #[trigger] self.eps_edges(e, longer[k]).contains(longer[k + 1]) by {
                    if k < p.len() - 1 {
                        assert(self.eps_edges(e, p[k]).contains(p[k + 1]));
                    }
                }
                assert(self.eps_path(e, longer));
                assert(self.reach(u).contains(path[i]));
            } else {
                let v = u.push(a);
                assert(v.drop_last() =~= u);
                assert(self.step(self.reach(u), a).contains(path[i]));
                self.lemma_closure_holds(e, self.step(self.reach(u), a), path[i]);
                assert(self.reach(v).contains(path[i]));
            }
        }
    }

    /// Whether the automaton accepts no word: no accept state is reachable
    /// from the start state.
    pub fn is_empty(&self) -> (r: bool)
        requires
            self.wf(),
        ensures
            r == (forall|q: usize| self.reaches(self.start_state, q) ==> !self.accept_states@.contains(q)),
            r == (forall|u: Seq<usize>| !#[trigger] self.accepts_indices(u)),
    {
        let reachable = self.reachable_states(self.start_state);
        let accept = self.accept_states.to_vec();
        let mut i: usize = 0;
        while i < accept.len()
            invariant
                i <= accept@.len(),
                accept@.to_set() == self.accept_states@,
                forall|q: usize| #[trigger] reachable@.contains(q) <==> self.reaches(self.start_state, q),
                forall|j: int| 0 <= j < i ==> !reachable@.contains(#[trigger] accept@[j]),
            decreases accept@.len() - i,
        {
            if reachable.contains(accept[i]) {
                proof {
                    let q = accept@[i as int];
                    assert(self.accept_states@.contains(q));
                    let path = choose|path: Seq<usize>| #[trigger] self.move_path(path) && path[0] == self.start_state && path.last() == q;
                    self.lemma_reaches_reach(path, path.len() - 1);
                    let u = choose|u: Seq<usize>| #[trigger] self.reach(u).contains(path[path.len() - 1]);
                    assert(self.accepts_indices(u));
                }
                return false;
            }
            i = i + 1;
        }
        proof {
            assert forall|q: usize| self.reaches(self.start_state, q) implies !self.accept_states@.contains(q) by {
                if self.accept_states@.contains(q) {
                    assert(accept@.to_set().contains(q));
                    let j = choose|j: int| 0 <= j < accept@.len() && accept@[j] == q;
                    assert(!reachable@.contains(accept@[j]));
                }
            }
            assert forall|u: Seq<usize>| !#[trigger] self.accepts_indices(u) by {
                if self.accepts_indices(u) {
                    let q = choose|q: usize| #[trigger] self.reach(u).contains(q) && self.accept_states@.contains(q);
                    self.lemma_reach_reaches(u, q);
                }
            }
        }
        true
    }
}

impl ENFA {
    /// The states that the states of `s` move to on some symbol, epsilon included.
    pub open spec fn successors(&self, s: Set<usize>) -> Set<usize> {
        Set::new(|q: usize| exists|p: usize| s.contains(p) && #[trigger] self.moves(p, q))
    }

    /// The states that the states of `states` move to on any symbol, epsilon included.
    pub fn _next_states_all(&self, states: &IndexSet) -> (r: IndexSet)
        requires
            self.wf(),
            forall|q: usize| #[trigger] states@.contains(q) ==> q < self.n(),
        ensures
            r@ == self.successors(states@),
            forall|q: usize| #[trigger] r@.contains(q) ==> q < self.n(),
    {
        let list = states.to_vec();
        let mut next_states = IndexSet::new();
        let mut i: usize = 0;
        while i < list.len()
            invariant
                self.wf(),
                list@.to_set() == states@,
                forall|q: usize| #[trigger] states@.contains(q) ==> q < self.n(),
                i <= list@.len(),
                forall|q: usize| #[trigger] next_states@.contains(q) <==> exists|k: int| 0 <= k < i && self.moves(#[trigger] list@[k], q),
            decreases list@.len() - i,
        {
            let p = list[i];
            proof {
                assert(list@.to_set().contains(p));
            }
            let keys = self.transitions[p].keys();
            let ghost n0 = next_states@;
            let mut kk: usize = 0;
            while kk < keys.len()
                invariant
                    self.wf(),
                    p < self.n(),
                    keys@.to_set() == self.transitions@[p as int]@.dom(),
                    kk <= keys@.len(),
                    forall|q: usize| #[trigger] next_states@.contains(q) <==> n0.contains(q) || exists|j: int| 0 <= j < kk && #[trigger] self.edges(p, keys@[j]).contains(q),
                decreases keys@.len() - kk,
            {
                let a = keys[kk];
                let targets = self.transitions[p].targets(a);
                let ghost n1 = next_states@;
                let mut t: usize = 0;
                while t < targets.len()
                    invariant
                        t <= targets@.len(),
                        forall|q: usize| #[trigger] next_states@.contains(q) <==> n1.contains(q) || exists|t2: int| 0 <= t2 < t && targets@[t2] == q,
                    decreases targets@.len() - t,
                {
                    next_states.insert(targets[t]);
                    proof {
                        assert forall|q: usize| #[trigger] next_states@.contains(q) <==> n1.contains(q) || exists|t2: int| 0 <= t2 < t + 1 && targets@[t2] == q by {
                            if q == targets@[t as int] {
                                assert(exists|t2: int| 0 <= t2 < t + 1 && targets@[t2] == q);
                            }
                        }
                    }
                    t = t + 1;
                }
                proof {
                    assert forall|q: usize| #[trigger] next_states@.contains(q) <==> n0.contains(q) || exists|j: int| 0 <= j < kk + 1 && #[trigger] self.edges(p, keys@[j]).contains(q) by {
                        if next_states@.contains(q) && !n1.contains(q) {
                            let t2 = choose|t2: int| 0 <= t2 < t && targets@[t2] == q;
                            assert(targets@.to_set().contains(q));
                            assert(self.edges(p, keys@[kk as int]).contains(q));
                        }
                        if self.edges(p, keys@[kk as int]).contains(q) {
                            assert(targets@.to_set().contains(q));
                            let t2 = choose|t2: int| 0 <= t2 < targets@.len() && targets@[t2] == q;
                        }
                    }
                }
                kk = kk + 1;
            }
            proof {
                assert forall|q: usize| #[trigger] next_states@.contains(q) <==> exists|k: int| 0 <= k < i + 1 && self.moves(#[trigger] list@[k], q) by {
                    if next_states@.contains(q) && !n0.contains(q) {
                        let j = choose|j: int| 0 <= j < kk && #[trigger] self.edges(p, keys@[j]).contains(q);
                        assert(self.moves(list@[i as int], q));
                    }
                    if self.moves(list@[i as int], q) {
                        let a = choose|a: usize| #[trigger] self.edges(p, a).contains(q);
                        assert(self.transitions@[p as int]@.contains_key(a));
                        assert(keys@.to_set().contains(a));
                        let j = choose|j: int| 0 <= j < keys@.len() && keys@[j] == a;
                        assert(self.edges(p, keys@[j]).contains(q));
                    }
                    if exists|k: int| 0 <= k < i && self.moves(#[trigger] list@[k], q) {
                        assert(n0.contains(q));
                    }
                }
            }
            i = i + 1;
        }
        proof {
            assert forall|q: usize| #[trigger] next_states@.contains(q) == self.successors(states@).contains(q) by {
                if next_states@.contains(q) {
                    let k = choose|k: int| 0 <= k < list@.len() && self.moves(#[trigger] list@[k], q);
                    assert(list@.to_set().contains(list@[k]));
                }
                if self.successors(states@).contains(q) {
                    let p = choose|p: usize| states@.contains(p) && #[trigger] self.moves(p, q);
                    assert(list@.to_set().contains(p));
                    let k = choose|k: int| 0 <= k < list@.len() && list@[k] == p;
                    assert(self.moves(list@[k], q));
                }
            }
            assert(next_states@ =~= self.successors(states@));
            assert forall|q: usize| #[trigger] next_states@.contains(q) implies q < self.n() by {
                let p = choose|p: usize| states@.contains(p) && #[trigger] self.moves(p, q);
                let a = choose|a: usize| #[trigger] self.edges(p, a).contains(q);
                self.lemma_edges_in_range(p, a, q);
            }
        }
        next_states
    }
}

/// The elements of `a` that `b` lacks.
fn set_minus(a: &IndexSet, b: &IndexSet) -> (r: IndexSet)
    ensures
        r@ == a@.difference(b@),
{
    let list = a.to_vec();
    let mut r = IndexSet::new();
    let mut i: usize = 0;
    while i < list.len()
        invariant
            i <= list@.len(),
            list@.to_set() == a@,
            forall|q: usize| #[trigger] r@.contains(q) <==> exists|k: int| 0 <= k < i && list@[k] == q && !b@.contains(q),
        decreases list@.len() - i,
    {
        let x = list[i];
        if !b.contains(x) {
            r.insert(x);
        }
        proof {
            assert forall|q: usize| #[trigger] r@.contains(q) <==> exists|k: int| 0 <= k < i + 1 && list@[k] == q && !b@.contains(q) by {
                if q == x && !b@.contains(q) {
                    assert(list@[i as int] == q);
                }
            }
        }
        i = i + 1;
    }
    proof {
        assert forall|q: usize| #[trigger] r@.contains(q) == a@.difference(b@).contains(q) by {
            if a@.contains(q) {
                assert(list@.to_set().contains(q));
            }
            if r@.contains(q) {
                let k = choose|k: int| 0 <= k < i && list@[k] == q && !b@.contains(q);
                assert(list@.to_set().contains(q));
            }
        }
        assert(r@ =~= a@.difference(b@));
    }
    r
}

/// Adds the elements of `from` to `into`.
fn add_all(into: &mut IndexSet, from: &IndexSet)
    ensures
        final(into)@ == old(into)@.union(from@),
{
    let list = from.to_vec();
    let ghost init = into@;
    let mut i: usize = 0;
    while i < list.len()
        invariant
            i <= list@.len(),
            list@.to_set() == from@,
            forall|q: usize| #[trigger] into@.contains(q) <==> init.contains(q) || exists|k: int| 0 <= k < i && list@[k] == q,
        decreases list@.len() - i,
    {
        into.insert(list[i]);
        proof {
            assert forall|q: usize| #[trigger] into@.contains(q) <==> init.contains(q) || exists|k: int| 0 <= k < i + 1 && list@[k] == q by {
                if q == list@[i as int] {
                    assert(exists|k: int| 0 <= k < i + 1 && list@[k] == q);
                }
            }
        }
        i = i + 1;
    }
    proof {
        assert forall|q: usize| #[trigger] into@.contains(q) == init.union(from@).contains(q) by {
            if from@.contains(q) {
                assert(list@.to_set().contains(q));
                let k = choose|k: int| 0 <= k < list@.len() && list@[k] == q;
            }
            if into@.contains(q) && !init.contains(q) {
                let k = choose|k: int| 0 <= k < i && list@[k] == q;
                assert(list@.to_set().contains(q));
            }
        }
        assert(into@ =~= init.union(from@));
    }
}

impl ENFA {
    /// The states reached from the start state by `k` rounds, each a move
    /// on some symbol (epsilon included) followed by moves without reading,
    /// after moves without reading.
    pub open spec fn after_rounds(&self, k: nat) -> Set<usize>
        decreases k,
    {
        if k == 0 {
            self.closure(set![self.start_state])
        } else {
            self.closure(self.successors(self.after_rounds((k - 1) as nat)))
        }
    }

    /// The states that the states of `s` reach by moves.
    pub open spec fn reached_from(&self, s: Set<usize>) -> Set<usize> {
        Set::new(|q: usize| exists|p: usize| s.contains(p) && #[trigger] self.reaches(p, q))
    }

    /// The alphabet map and names with epsilon appended where the map lacks it.
    pub open spec fn with_epsilon_symbols(&self) -> (Map<Seq<char>, usize>, Seq<Seq<char>>) {
        if self.alphabet_index_map@.contains_key(epsilon_name()) {
            (self.alphabet_index_map@, word_of(self.alphabet@))
        } else {
            (self.alphabet_index_map@.insert(epsilon_name(), self.alphabet@.len() as usize), word_of(self.alphabet@).push(epsilon_name()))
        }
    }

    /// A state reached without reading from what `s` reaches by moves is reached by moves.
    proof fn lemma_closure_reached(&self, s: Set<usize>, t: Set<usize>, q: usize)
        requires
            forall|x: usize| #[trigger] t.contains(x) ==> self.reached_from(s).contains(x),
            self.closure(t).contains(q),
        ensures
            self.reached_from(s).contains(q),
    {
        let e = self.epsilon_index();
        let path = choose|path: Seq<usize>| #[trigger] self.eps_path(e, path) && t.contains(path[0]) && path.last() == q;
        self.lemma_eps_path_moves(path);
        assert(self.reached_from(s).contains(path[0]));
        let p = choose|p: usize| s.contains(p) && #[trigger] self.reaches(p, path[0]);
        let p1 = choose|p1: Seq<usize>| #[trigger] self.move_path(p1) && p1[0] == p && p1.last() == path[0];
        let joined = p1 + path.subrange(1, path.len() as int);
        assert forall|i: int| 0 <= i < joined.len() - 1 implies #[trigger] self.moves(joined[i], joined[i + 1]) by {
            if i < p1.len() - 1 {
                assert(self.moves(p1[i], p1[i + 1]));
            } else {
                let j = i - (p1.len() - 1);
                assert(self.moves(path[j], path[j + 1]));
            }
        }
        assert(self.move_path(joined));
        if path.len() > 1 {
            assert(joined.last() == q);
        } else {
            assert(joined =~= p1);
        }
        assert(self.reaches(p, q));
    }

    /// The states that `start` reaches by moves, computed round by round.
    fn reached_closure(&self, start: IndexSet, epsilon_index: Option<usize>) -> (r: IndexSet)
        requires
            self.wf(),
            epsilon_index == self.epsilon_index(),
            forall|q: usize| #[trigger] start@.contains(q) ==> q < self.n(),
        ensures
            r@ == self.reached_from(start@),
    {
        let ghost s0 = start@;
        let mut reached = start;
        let mut new_reached = reached.clone();
        proof {
            assert forall|q: usize| #[trigger] s0.contains(q) implies self.reached_from(s0).contains(q) by {
                assert(self.move_path(seq![q]));
                assert(self.reaches(q, q));
            }
        }
        while new_reached.len() > 0
            invariant
                self.wf(),
                epsilon_index == self.epsilon_index(),
                s0.subset_of(reached@),
                forall|q: usize| #[trigger] reached@.contains(q) ==> q < self.n() && self.reached_from(s0).contains(q),
                new_reached@.subset_of(reached@),
                forall|p: usize, q: usize| reached@.contains(p) && !new_reached@.contains(p) && #[trigger] self.moves(p, q) ==> reached@.contains(q),
            decreases self.n() - reached@.len(), new_reached@.len(),
        {
            proof {
                lemma_bounded_set(reached@, self.n());
            }
            let ghost before = reached@;
            let ghost nr0 = new_reached@;
            let step = self._next_states_all(&new_reached);
            let closed = self._epsilon_closure(&step, epsilon_index);
            let fresh = set_minus(&closed, &reached);
            add_all(&mut reached, &fresh);
            new_reached = fresh;
            proof {
                assert forall|q: usize| #[trigger] reached@.contains(q) implies q < self.n() && self.reached_from(s0).contains(q) by {
                    if !before.contains(q) {
                        assert(closed@.contains(q));
                        assert forall|x: usize| #[trigger] step@.contains(x) implies self.reached_from(s0).contains(x) by {
                            let p = choose|p: usize| nr0.contains(p) && #[trigger] self.moves(p, x);
                            assert(before.contains(p));
                            let p0 = choose|p0: usize| s0.contains(p0) && #[trigger] self.reaches(p0, p);
                            let hop = seq![p, x];
                            assert forall|i: int| 0 <= i < hop.len() - 1 implies #[trigger] self.moves(hop[i], hop[i + 1]) by {}
                            let p1 = choose|p1: Seq<usize>| #[trigger] self.move_path(p1) && p1[0] == p0 && p1.last() == p;
                            let joined = p1.push(x);
                            assert forall|i: int| 0 <= i < joined.len() - 1 implies #[trigger] self.moves(joined[i], joined[i + 1]) by {
                                if i < p1.len() - 1 {
                                    assert(self.moves(p1[i], p1[i + 1]));
                                }
                            }
                            assert(self.move_path(joined));
                            assert(self.reaches(p0, x));
                        }
                        self.lemma_closure_reached(s0, step@, q);
                    }
                }
                assert forall|p: usize, q: usize| reached@.contains(p) && !new_reached@.contains(p) && #[trigger] self.moves(p, q) implies reached@.contains(q) by {
                    assert(before.contains(p));
                    if nr0.contains(p) {
                        assert(step@.contains(q));
                        self.lemma_closure_holds(epsilon_index, step@, q);
                        assert(closed@.contains(q));
                    }
                }
                lemma_bounded_set(reached@, self.n());
                vstd::set_lib::lemma_len_subset(before, reached@);
                if fresh@.len() > 0 {
                    let x = fresh@.choose();
                    assert(fresh@.contains(x));
                    assert(!before.contains(x));
                    assert(reached@.len() > before.len()) by {
                        assert(before.subset_of(reached@));
                        assert(before != reached@);
                        vstd::set_lib::lemma_len_subset(before.insert(x), reached@);
                    }
                }
            }
        }
        proof {
            assert forall|q: usize| #[trigger] reached@.contains(q) == self.reached_from(s0).contains(q) by {
                if self.reached_from(s0).contains(q) {
                    let p = choose|p: usize| s0.contains(p) && #[trigger] self.reaches(p, q);
                    let path = choose|path: Seq<usize>| #[trigger] self.move_path(path) && path[0] == p && path.last() == q;
                    assert forall|a: usize, b: usize| #![trigger reached@.contains(a), self.moves(a, b)] reached@.contains(a) && self.moves(a, b) implies reached@.contains(b) by {
                        if new_reached@.contains(a) {
                            assert forall|x: usize| #[trigger] new_reached@.contains(x) implies x < self.n() by {
                                assert(reached@.contains(x));
                            }
                            lemma_bounded_set(new_reached@, self.n());
                            vstd::set_lib::lemma_len_subset(set![a], new_reached@);
                        }
                    }
                    self.lemma_closed_holds_moves(reached@, path, path.len() - 1);
                }
            }
            assert(reached@ =~= self.reached_from(s0));
        }
        reached
    }
}

impl ENFA {
    /// An automaton for the words whose some prefix, at least `n` moves
    /// long, leads the given automaton to a state from which it accepts them: a
    /// new start state named `start` moves without reading to every state
    /// that the start state reaches by `n` rounds of a move followed by moves
    /// without reading, and then by any moves (epsilon is appended to the
    /// alphabet where it is missing).
    pub fn n_suffix_language(&self, n: usize) -> (r: ENFA)
        requires
            self.wf(),
            self.n() + 1 <= usize::MAX,
            self.alphabet@.len() + 1 <= usize::MAX,
        ensures
            r.wf(),
            r.n() == self.n() + 1,
            forall|i: int| 0 <= i < self.n() ==> #[trigger] r.states@[i] == self.states@[i],
            r.states@[self.n() as int]@ == "start"@,
            r.state_index_map@ == self.state_index_map@.insert("start"@, self.n() as usize),
            (r.alphabet_index_map@, word_of(r.alphabet@)) == self.with_epsilon_symbols(),
            r.start_state == self.n(),
            r.accept_states@ == self.accept_states@,
            forall|p: int| 0 <= p < self.n() ==> #[trigger] r.transitions@[p]@ == self.transitions@[p]@,
            r.transitions@[self.n() as int]@ == map![r.alphabet_index_map@[epsilon_name()] => self.reached_from(self.after_rounds(n as nat))],
    {
        let new_start_index = self.states.len();
        let mut state_index_map = self.state_index_map.clone();
        state_index_map.insert(State::new("start"), new_start_index);
        let mut new_transitions: Vec<IndexSetMap> = Vec::new();
        let mut p: usize = 0;
        while p < self.transitions.len()
            invariant
                p <= self.transitions@.len(),
                new_transitions@.len() == p,
                forall|k: int| 0 <= k < p ==> #[trigger] new_transitions@[k]@ == self.transitions@[k]@,
            decreases self.transitions@.len() - p,
        {
            new_transitions.push(self.transitions[p].clone());
            p = p + 1;
        }
        let mut new_states = clone_states(&self.states);
        new_states.push(State::new("start"));
        let mut alphabet_index_map = self.alphabet_index_map.clone();
        let mut alphabet = clone_terminals(&self.alphabet);
        let epsilon_index = self.get_epsilon_index();
        if epsilon_index.is_none() {
            let ghost old_alpha = alphabet@;
            alphabet.push(epsilon());
            alphabet_index_map.insert(epsilon(), alphabet.len() - 1);
            proof {
                assert(word_of(alphabet@) =~= word_of(old_alpha).push(epsilon_name()));
            }
        }
        let mut start_n = self._epsilon_closure(&ENFA::singleton(self.start_state), epsilon_index);
        let mut i: usize = 0;
        while i < n
            invariant
                self.wf(),
                epsilon_index == self.epsilon_index(),
                i <= n,
                start_n@ == self.after_rounds(i as nat),
                forall|q: usize| #[trigger] start_n@.contains(q) ==> q < self.n(),
            decreases n - i,
        {
            let moved = self._next_states_all(&start_n);
            start_n = self._epsilon_closure(&moved, epsilon_index);
            i = i + 1;
        }
        let reached = self.reached_closure(start_n, epsilon_index);
        let new_epsilon_index = alphabet_index_map.get(&epsilon()).unwrap();
        let mut start_row = IndexSetMap::new();
        start_row.insert(new_epsilon_index, reached);
        new_transitions.push(start_row);
        let r = ENFA::new(state_index_map, alphabet_index_map, new_states, alphabet, new_transitions, new_start_index, self.accept_states.clone());
        proof {
            let m = self.n();
            assert(start_row@ =~= map![new_epsilon_index => self.reached_from(self.after_rounds(n as nat))]);
            assert forall|q: usize| #[trigger] self.reached_from(self.after_rounds(n as nat)).contains(q) implies q < m by {
                let p = choose|p: usize| self.after_rounds(n as nat).contains(p) && #[trigger] self.reaches(p, q);
                let path = choose|path: Seq<usize>| #[trigger] self.move_path(path) && path[0] == p && path.last() == q;
                let below = Set::new(|x: usize| x < m);
                assert forall|a: usize, b: usize| #![trigger below.contains(a), self.moves(a, b)] below.contains(a) && self.moves(a, b) implies below.contains(b) by {
                    let s = choose|s: usize| #[trigger] self.edges(a, s).contains(b);
                    self.lemma_edges_in_range(a, s, b);
                }
                self.lemma_closed_holds_moves(below, path, path.len() - 1);
            }
            assert forall|p: int, a: usize| 0 <= p < r.transitions@.len() && #[trigger] r.transitions@[p]@.contains_key(a) implies a < r.alphabet@.len()
                && forall|q: usize| #[trigger] r.transitions@[p]@[a].contains(q) ==> q < r.states@.len() by {
                if p < m {
                    assert(r.transitions@[p] == new_transitions@[p]);
                    assert(self.transitions@[p]@.contains_key(a));
                }
            }
            assert forall|x: Seq<char>| #[trigger] r.alphabet_index_map@.contains_key(x) implies r.alphabet_index_map@[x] < r.alphabet@.len()
                && r.alphabet@[r.alphabet_index_map@[x] as int]@ == x by {
                if x != epsilon_name() || self.alphabet_index_map@.contains_key(epsilon_name()) {
                    assert(self.alphabet_index_map@.contains_key(x));
                    assert(r.alphabet@[self.alphabet_index_map@[x] as int] == self.alphabet@[self.alphabet_index_map@[x] as int]);
                } else {
                    assert(word_of(r.alphabet@)[self.alphabet@.len() as int] == epsilon_name());
                }
            }
            assert forall|x: Seq<char>| #[trigger] r.state_index_map@.contains_key(x) implies r.state_index_map@[x] < r.states@.len()
                && r.states@[r.state_index_map@[x] as int]@ == x by {
                if x != "start"@ {
                    assert(self.state_index_map@.contains_key(x));
                }
            }
        }
        r
    }

    /// An automaton for the suffixes of the words of the language.
    pub fn suffix_language(&self) -> (r: ENFA)
        requires
            self.wf(),
            self.n() + 1 <= usize::MAX,
            self.alphabet@.len() + 1 <= usize::MAX,
        ensures
            r.wf(),
            r.n() == self.n() + 1,
            r.start_state == self.n(),
            r.accept_states@ == self.accept_states@,
            forall|p: int| 0 <= p < self.n() ==> #[trigger] r.transitions@[p]@ == self.transitions@[p]@,
            r.transitions@[self.n() as int]@ == map![r.alphabet_index_map@[epsilon_name()] => self.reached_from(self.after_rounds(0))],
            (r.alphabet_index_map@, word_of(r.alphabet@)) == self.with_epsilon_symbols(),
    {
        self.n_suffix_language(0)
    }

    /// An automaton for the suffixes of the words of the language that
    /// leave at least one move out.
    pub fn true_suffix_language(&self) -> (r: ENFA)
        requires
            self.wf(),
            self.n() + 1 <= usize::MAX,
            self.alphabet@.len() + 1 <= usize::MAX,
        ensures
            r.wf(),
            r.n() == self.n() + 1,
            r.start_state == self.n(),
            r.accept_states@ == self.accept_states@,
            forall|p: int| 0 <= p < self.n() ==> #[trigger] r.transitions@[p]@ == self.transitions@[p]@,
            r.transitions@[self.n() as int]@ == map![r.alphabet_index_map@[epsilon_name()] => self.reached_from(self.after_rounds(1))],
            (r.alphabet_index_map@, word_of(r.alphabet@)) == self.with_epsilon_symbols(),
    {
        self.n_suffix_language(1)
    }
}

} // verus!
