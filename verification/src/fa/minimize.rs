//! Minimisation of deterministic automata: the states that reach an accept
//! state from the start state are grouped into blocks of states that move
//! alike, refined until stable, and each block becomes one state.
use crate::collections::{IndexMap, IndexSet, StateIndexMap};
use crate::fa::dfa::DFA;
use crate::fa::state::State;
use vstd::prelude::*;

verus! {

/// The block that state `p` moves into on symbol `a`, where its transition
/// leads into the states kept (`inset`).
pub open spec fn target_block(dfa: DFA, inset: Seq<bool>, blk: Seq<usize>, p: usize, a: usize) -> Option<usize> {
    match dfa.step(p, a) {
        Some(t) => if t < inset.len() && inset[t as int] {
            Some(blk[t as int])
        } else {
            None
        },
        None => None,
    }
}

/// Whether states `p` and `q` move into the same blocks on every symbol.
pub open spec fn same_moves(dfa: DFA, inset: Seq<bool>, blk: Seq<usize>, p: usize, q: usize) -> bool {
    forall|a: usize| #[trigger] target_block(dfa, inset, blk, p, a) == target_block(dfa, inset, blk, q, a)
}

/// Whether `blk` numbers the blocks of the kept states `0..c`, every block
/// holding some kept state, and no block mixing accepting and other states.
pub open spec fn blocks_ok(dfa: DFA, inset: Seq<bool>, blk: Seq<usize>, c: nat) -> bool {
    &&& inset.len() == dfa.n()
    &&& blk.len() == dfa.n()
    &&& forall|p: int| 0 <= p < dfa.n() && inset[p] ==> #[trigger] blk[p] < c
    &&& forall|b: int| 0 <= b < c ==> #[trigger] block_used(inset, blk, b)
    &&& forall|p: int, q: int| 0 <= p < dfa.n() && 0 <= q < dfa.n() && inset[p] && inset[q] && #[trigger] blk[p] == #[trigger] blk[q]
        ==> (dfa.accept_states@.contains(p as usize) <==> dfa.accept_states@.contains(q as usize))
}

/// Whether some kept state is in block `b`.
pub open spec fn block_used(inset: Seq<bool>, blk: Seq<usize>, b: int) -> bool {
    exists|p: int| 0 <= p < inset.len() && p < blk.len() && inset[p] && #[trigger] blk[p] == b
}

/// Whether states in one block move alike.
pub open spec fn stable(dfa: DFA, inset: Seq<bool>, blk: Seq<usize>) -> bool {
    forall|p: int, q: int| 0 <= p < dfa.n() && 0 <= q < dfa.n() && inset[p] && inset[q] && #[trigger] blk[p] == #[trigger] blk[q]
        ==> same_moves(dfa, inset, blk, p as usize, q as usize)
}

/// Whether kept states `p` and `q` share a block.
pub open spec fn together(inset: Seq<bool>, blk: Seq<usize>, p: int, q: int) -> bool {
    0 <= p < inset.len() && 0 <= q < inset.len() && inset[p] && inset[q] && blk[p] == blk[q]
}

/// Whether some word is accepted from one of `p` and `q` and not from the other.
pub open spec fn distinguished(dfa: DFA, p: usize, q: usize) -> bool {
    exists|u: Seq<usize>| #[trigger] dfa.accepts_from(p, u) != dfa.accepts_from(q, u)
}

/// Whether kept states in different blocks are distinguished.
pub open spec fn separated(dfa: DFA, inset: Seq<bool>, blk: Seq<usize>) -> bool {
    forall|p: int, q: int| 0 <= p < dfa.n() && 0 <= q < dfa.n() && inset[p] && inset[q] && #[trigger] blk[p] != #[trigger] blk[q]
        ==> distinguished(dfa, p as usize, q as usize)
}

/// Kept states that move on one symbol into different blocks, or one into
/// a block and the other not into a kept state, are distinguished.
pub proof fn lemma_moves_distinguish(dfa: DFA, inset: Seq<bool>, blk: Seq<usize>, p: usize, q: usize, a: usize)
    requires
        dfa.wf(),
        inset.len() == dfa.n(),
        blk.len() == dfa.n(),
        forall|x: int| 0 <= x < dfa.n() ==> (#[trigger] inset[x] <==> kept(dfa, x as usize)),
        separated(dfa, inset, blk),
        kept(dfa, p),
        kept(dfa, q),
        target_block(dfa, inset, blk, p, a) != target_block(dfa, inset, blk, q, a),
    ensures
        distinguished(dfa, p, q),
{
    if target_block(dfa, inset, blk, p, a) is Some && target_block(dfa, inset, blk, q, a) is Some {
        let tp = dfa.step(p, a)->0;
        let tq = dfa.step(q, a)->0;
        assert(inset[tp as int] && inset[tq as int] && blk[tp as int] != blk[tq as int]);
        let u = choose|u: Seq<usize>| #[trigger] dfa.accepts_from(tp, u) != dfa.accepts_from(tq, u);
        dfa.lemma_run_cons(p, a, u);
        dfa.lemma_run_cons(q, a, u);
        assert(dfa.accepts_from(p, seq![a] + u) != dfa.accepts_from(q, seq![a] + u));
    } else if target_block(dfa, inset, blk, p, a) is Some {
        lemma_one_side_moves(dfa, inset, blk, p, q, a);
    } else {
        lemma_one_side_moves(dfa, inset, blk, q, p, a);
        let u = choose|u: Seq<usize>| #[trigger] dfa.accepts_from(q, u) != dfa.accepts_from(p, u);
        assert(dfa.accepts_from(p, u) != dfa.accepts_from(q, u));
    }
}

/// A kept state that moves on a symbol into a kept state is distinguished
/// from a kept state that does not.
proof fn lemma_one_side_moves(dfa: DFA, inset: Seq<bool>, blk: Seq<usize>, p: usize, q: usize, a: usize)
    requires
        dfa.wf(),
        inset.len() == dfa.n(),
        blk.len() == dfa.n(),
        forall|x: int| 0 <= x < dfa.n() ==> (#[trigger] inset[x] <==> kept(dfa, x as usize)),
        kept(dfa, p),
        kept(dfa, q),
        target_block(dfa, inset, blk, p, a) is Some,
        target_block(dfa, inset, blk, q, a) is None,
    ensures
        distinguished(dfa, p, q),
{
    let tp = dfa.step(p, a)->0;
    assert(inset[tp as int]);
    assert(kept(dfa, tp));
    let v = choose|v: Seq<usize>| #[trigger] dfa.run(tp, v) matches Some(f) && dfa.accept_states@.contains(f);
    dfa.lemma_run_cons(p, a, v);
    dfa.lemma_run_cons(q, a, v);
    assert(dfa.accepts_from(p, seq![a] + v));
    if dfa.step(q, a) is Some {
        let tq = dfa.step(q, a)->0;
        assert(tq < dfa.n());
        assert(!inset[tq as int]);
        let w = choose|w: Seq<usize>| #[trigger] dfa.run(dfa.start_state, w) == Some(q);
        dfa.lemma_run_concat(dfa.start_state, w, seq![a]);
        assert(seq![a].drop_last() =~= Seq::<usize>::empty());
        assert(dfa.run(q, seq![a].drop_last()) == Some(q));
        assert(seq![a].last() == a);
        assert(dfa.run(dfa.start_state, w + seq![a]) == Some(tq));
        assert(dfa.reaches(dfa.start_state, tq));
        assert(!dfa.leads_to_accept(tq));
        assert(!dfa.accepts_from(tq, v));
    }
    assert(!dfa.accepts_from(q, seq![a] + v));
}

/// The number of pairs `(p, q)` with `p < m`, `q < n` that share a block.
pub open spec fn pairs_together(inset: Seq<bool>, blk: Seq<usize>, m: int, n: int) -> nat
    decreases m,
{
    if m <= 0 {
        0
    } else {
        pairs_together(inset, blk, m - 1, n) + row_together(inset, blk, m - 1, n)
    }
}

/// The number of `q < n` that share a block with `p`.
pub open spec fn row_together(inset: Seq<bool>, blk: Seq<usize>, p: int, n: int) -> nat
    decreases n,
{
    if n <= 0 {
        0
    } else {
        row_together(inset, blk, p, n - 1) + if together(inset, blk, p, n - 1) { 1nat } else { 0nat }
    }
}

/// A finer grouping has no more pairs in one row, and fewer where it splits a pair.
pub proof fn lemma_row_finer(inset: Seq<bool>, b1: Seq<usize>, b2: Seq<usize>, p: int, n: int, q0: int)
    requires
        forall|q: int| together(inset, b2, p, q) ==> together(inset, b1, p, q),
    ensures
        row_together(inset, b2, p, n) <= row_together(inset, b1, p, n),
        0 <= q0 < n && together(inset, b1, p, q0) && !together(inset, b2, p, q0) ==> row_together(inset, b2, p, n) < row_together(inset, b1, p, n),
    decreases n,
{
    if n > 0 {
        lemma_row_finer(inset, b1, b2, p, n - 1, q0);
    }
}

/// A finer grouping has no more pairs, and fewer where it splits a pair.
pub proof fn lemma_pairs_finer(inset: Seq<bool>, b1: Seq<usize>, b2: Seq<usize>, m: int, n: int, p0: int, q0: int)
    requires
        forall|p: int, q: int| together(inset, b2, p, q) ==> together(inset, b1, p, q),
    ensures
        pairs_together(inset, b2, m, n) <= pairs_together(inset, b1, m, n),
        0 <= p0 < m && 0 <= q0 < n && together(inset, b1, p0, q0) && !together(inset, b2, p0, q0)
            ==> pairs_together(inset, b2, m, n) < pairs_together(inset, b1, m, n),
    decreases m,
{
    if m > 0 {
        lemma_pairs_finer(inset, b1, b2, m - 1, n, p0, q0);
        lemma_row_finer(inset, b1, b2, m - 1, n, q0);
    }
}

impl DFA {
    /// The block that `p` moves into on symbol `a`, if its transition leads into the kept states.
    fn target_block_of(&self, inset: &Vec<bool>, blk: &Vec<usize>, p: usize, a: usize) -> (r: Option<usize>)
        requires
            self.wf(),
            p < self.n(),
            inset@.len() == self.n(),
            blk@.len() == self.n(),
        ensures
            r == target_block(*self, inset@, blk@, p, a),
    {
        match self.next_state(p, a) {
            Some(t) => if inset[t] {
                Some(blk[t])
            } else {
                None
            },
            None => None,
        }
    }

    /// Whether `p` and `q` move into the same blocks on every symbol.
    fn moves_alike(&self, inset: &Vec<bool>, blk: &Vec<usize>, p: usize, q: usize) -> (r: bool)
        requires
            self.wf(),
            p < self.n(),
            q < self.n(),
            inset@.len() == self.n(),
            blk@.len() == self.n(),
        ensures
            r == same_moves(*self, inset@, blk@, p, q),
    {
        let mut a: usize = 0;
        while a < self.alphabet.len()
            invariant
                self.wf(),
                p < self.n(),
                q < self.n(),
                inset@.len() == self.n(),
                blk@.len() == self.n(),
                a <= self.alphabet@.len(),
                forall|b: usize| b < a ==> #[trigger] target_block(*self, inset@, blk@, p, b) == target_block(*self, inset@, blk@, q, b),
            decreases self.alphabet@.len() - a,
        {
            if self.target_block_of(inset, blk, p, a) != self.target_block_of(inset, blk, q, a) {
                return false;
            }
            a = a + 1;
        }
        proof {
            assert forall|b: usize| #[trigger] target_block(*self, inset@, blk@, p, b) == target_block(*self, inset@, blk@, q, b) by {
                if b >= a {
                    assert(self.step(p, b) is None);
                    assert(self.step(q, b) is None);
                }
            }
        }
        true
    }

    /// One round of refinement: the kept states are grouped again, two
    /// sharing a new block where they shared a block and move alike.
    fn refine(&self, inset: &Vec<bool>, blk: &Vec<usize>, c: usize) -> (r: (Vec<usize>, usize))
        requires
            self.wf(),
            blocks_ok(*self, inset@, blk@, c as nat),
        ensures
            blocks_ok(*self, inset@, r.0@, r.1 as nat),
            forall|p: int, q: int| together(inset@, r.0@, p, q) <==> together(inset@, blk@, p, q)
                && same_moves(*self, inset@, blk@, p as usize, q as usize),
    {
        let n = self.states.len();
        let mut nb: Vec<usize> = Vec::new();
        let mut reps: Vec<usize> = Vec::new();
        let mut p: usize = 0;
        while p < n
            invariant
                self.wf(),
                n == self.n(),
                blocks_ok(*self, inset@, blk@, c as nat),
                p <= n,
                nb@.len() == p,
                reps@.len() <= p,
                forall|b: int| 0 <= b < reps@.len() ==> #[trigger] reps@[b] < p && inset@[reps@[b] as int] && nb@[reps@[b] as int] == b,
                forall|x: int| 0 <= x < p && inset@[x] ==> #[trigger] nb@[x] < reps@.len()
                    && blk@[reps@[nb@[x] as int] as int] == blk@[x] && same_moves(*self, inset@, blk@, reps@[nb@[x] as int], x as usize),
                forall|b1: int, b2: int| 0 <= b1 < b2 < reps@.len() ==> !(blk@[reps@[b1] as int] == blk@[reps@[b2] as int]
                    && same_moves(*self, inset@, blk@, #[trigger] reps@[b1], #[trigger] reps@[b2])),
            decreases n - p,
        {
            if !inset[p] {
                nb.push(0);
            } else {
                let mut b: usize = 0;
                let mut found = false;
                while b < reps.len()
                    invariant_except_break
                        !found,
                    invariant
                        self.wf(),
                        n == self.n(),
                        p < n,
                        inset@.len() == n,
                        blk@.len() == n,
                        b <= reps@.len(),
                        forall|b2: int| 0 <= b2 < reps@.len() ==> #[trigger] reps@[b2] < n,
                        forall|b2: int| 0 <= b2 < b ==> !(blk@[reps@[b2] as int] == blk@[p as int]
                            && same_moves(*self, inset@, blk@, #[trigger] reps@[b2], p)),
                    ensures
                        found ==> b < reps@.len() && blk@[reps@[b as int] as int] == blk@[p as int] && same_moves(*self, inset@, blk@, reps@[b as int], p),
                        !found ==> forall|b2: int| 0 <= b2 < reps@.len() ==> !(blk@[reps@[b2] as int] == blk@[p as int]
                            && same_moves(*self, inset@, blk@, #[trigger] reps@[b2], p)),
                    decreases reps@.len() - b,
                {
                    let r = reps[b];
                    if blk[r] == blk[p] && self.moves_alike(inset, blk, r, p) {
                        found = true;
                        break;
                    }
                    b = b + 1;
                }
                if found {
                    nb.push(b);
                } else {
                    let ghost reps0 = reps@;
                    nb.push(reps.len());
                    reps.push(p);
                    proof {
                        assert forall|b1: int, b2: int| 0 <= b1 < b2 < reps@.len() implies !(blk@[reps@[b1] as int] == blk@[reps@[b2] as int]
                            && same_moves(*self, inset@, blk@, #[trigger] reps@[b1], #[trigger] reps@[b2])) by {
                            if b2 == reps@.len() - 1 {
                                assert(reps@[b1] == reps0[b1]);
                            } else {
                                assert(reps@[b1] == reps0[b1] && reps@[b2] == reps0[b2]);
                            }
                        }
                    }
                }
            }
            p = p + 1;
        }
        proof {
            let s = inset@;
            assert forall|p1: int, q1: int| together(s, nb@, p1, q1) <==> together(s, blk@, p1, q1)
                && same_moves(*self, s, blk@, p1 as usize, q1 as usize) by {
                if together(s, nb@, p1, q1) {
                    let r = reps@[nb@[p1] as int];
                    lemma_same_moves_trans(*self, s, blk@, r, p1 as usize, q1 as usize);
                }
                if together(s, blk@, p1, q1) && same_moves(*self, s, blk@, p1 as usize, q1 as usize) {
                    let r1 = reps@[nb@[p1] as int];
                    let r2 = reps@[nb@[q1] as int];
                    lemma_same_moves_trans(*self, s, blk@, r1, p1 as usize, q1 as usize);
                    lemma_same_moves_trans(*self, s, blk@, r2, q1 as usize, r1);
                    if nb@[p1] != nb@[q1] {
                        let lo = if nb@[p1] < nb@[q1] { nb@[p1] as int } else { nb@[q1] as int };
                        let hi = if nb@[p1] < nb@[q1] { nb@[q1] as int } else { nb@[p1] as int };
                        lemma_same_moves_sym(*self, s, blk@, r2, r1);
                        assert(blk@[reps@[lo] as int] == blk@[reps@[hi] as int] && same_moves(*self, s, blk@, reps@[lo], reps@[hi]));
                    }
                }
            }
            assert forall|b: int| 0 <= b < reps@.len() implies #[trigger] block_used(s, nb@, b) by {
                assert(nb@[reps@[b] as int] == b);
            }
            assert forall|p1: int, q1: int| 0 <= p1 < n && 0 <= q1 < n && s[p1] && s[q1] && #[trigger] nb@[p1] == #[trigger] nb@[q1]
                implies (self.accept_states@.contains(p1 as usize) <==> self.accept_states@.contains(q1 as usize)) by {
                assert(together(s, nb@, p1, q1));
            }
        }
        (nb, reps.len())
    }
}


impl DFA {
    /// A pair of kept states that shared a block in `blk` and no longer do in `nb`, if any.
    fn find_split(&self, inset: &Vec<bool>, blk: &Vec<usize>, nb: &Vec<usize>) -> (r: Option<(usize, usize)>)
        requires
            inset@.len() == self.n(),
            blk@.len() == self.n(),
            nb@.len() == self.n(),
        ensures
            r is None ==> forall|p: int, q: int| together(inset@, blk@, p, q) ==> together(inset@, nb@, p, q),
            r matches Some(pq) ==> together(inset@, blk@, pq.0 as int, pq.1 as int) && !together(inset@, nb@, pq.0 as int, pq.1 as int),
    {
        let n = self.states.len();
        let mut p: usize = 0;
        while p < n
            invariant
                n == self.n(),
                inset@.len() == n,
                blk@.len() == n,
                nb@.len() == n,
                p <= n,
                forall|p2: int, q: int| 0 <= p2 < p && together(inset@, blk@, p2, q) ==> together(inset@, nb@, p2, q),
            decreases n - p,
        {
            let mut q: usize = 0;
            while q < n
                invariant
                    n == self.n(),
                    inset@.len() == n,
                    blk@.len() == n,
                    nb@.len() == n,
                    p < n,
                    q <= n,
                    forall|p2: int, q2: int| 0 <= p2 < p && together(inset@, blk@, p2, q2) ==> together(inset@, nb@, p2, q2),
                    forall|q2: int| 0 <= q2 < q && together(inset@, blk@, p as int, q2) ==> together(inset@, nb@, p as int, q2),
                decreases n - q,
            {
                if inset[p] && inset[q] && blk[p] == blk[q] && nb[p] != nb[q] {
                    return Some((p, q));
                }
                q = q + 1;
            }
            p = p + 1;
        }
        None
    }

    /// The first grouping of the kept states: the accepting ones and the others.
    fn first_blocks(&self, inset: &Vec<bool>) -> (r: (Vec<usize>, usize))
        requires
            self.wf(),
            inset@.len() == self.n(),
        ensures
            blocks_ok(*self, inset@, r.0@, r.1 as nat),
            forall|p: int, q: int| 0 <= p < self.n() && 0 <= q < self.n() && inset@[p] && inset@[q] && #[trigger] r.0@[p] != #[trigger] r.0@[q]
                ==> (self.accept_states@.contains(p as usize) <==> !self.accept_states@.contains(q as usize)),
    {
        let n = self.states.len();
        let mut blk: Vec<usize> = Vec::new();
        let mut acc_id: Option<usize> = None;
        let mut rej_id: Option<usize> = None;
        let mut c: usize = 0;
        let mut p: usize = 0;
        while p < n
            invariant
                self.wf(),
                n == self.n(),
                inset@.len() == n,
                p <= n,
                blk@.len() == p,
                c <= p,
                c <= 2,
                forall|x: int| 0 <= x < p && inset@[x] ==> #[trigger] blk@[x] < c,
                forall|x: int| 0 <= x < p && inset@[x] && self.accept_states@.contains(x as usize) ==> acc_id == Some(#[trigger] blk@[x]),
                forall|x: int| 0 <= x < p && inset@[x] && !self.accept_states@.contains(x as usize) ==> rej_id == Some(#[trigger] blk@[x]),
                acc_id matches Some(i) ==> i < c && block_used(inset@, blk@, i as int),
                rej_id matches Some(i) ==> i < c && block_used(inset@, blk@, i as int),
                acc_id is Some && rej_id is Some ==> acc_id != rej_id,
                c == (if acc_id is Some { 1int } else { 0int }) + (if rej_id is Some { 1int } else { 0int }),
            decreases n - p,
        {
            let ghost blk0 = blk@;
            if !inset[p] {
                blk.push(0);
            } else if self.accept_states.contains(p) {
                match acc_id {
                    Some(i) => {
                        blk.push(i);
                    },
                    None => {
                        acc_id = Some(c);
                        blk.push(c);
                        c = c + 1;
                    },
                }
            } else {
                match rej_id {
                    Some(i) => {
                        blk.push(i);
                    },
                    None => {
                        rej_id = Some(c);
                        blk.push(c);
                        c = c + 1;
                    },
                }
            }
            proof {
                assert forall|i: int| 0 <= i < inset@.len() && blk0.len() > i implies blk@[i] == blk0[i] by {}
                if let Some(i) = acc_id {
                    if i as int != blk@[p as int] as int || !inset@[p as int] {
                        let w = choose|w: int| 0 <= w < inset@.len() && w < blk0.len() && inset@[w] && #[trigger] blk0[w] == i;
                        assert(blk@[w] == blk0[w]);
                    }
                    assert(block_used(inset@, blk@, i as int)) by {
                        if inset@[p as int] && blk@[p as int] == i {
                        } else {
                            let w = choose|w: int| 0 <= w < inset@.len() && w < blk0.len() && inset@[w] && #[trigger] blk0[w] == i;
                            assert(blk@[w] == blk0[w]);
                        }
                    }
                }
                if let Some(i) = rej_id {
                    assert(block_used(inset@, blk@, i as int)) by {
                        if inset@[p as int] && blk@[p as int] == i {
                        } else {
                            let w = choose|w: int| 0 <= w < inset@.len() && w < blk0.len() && inset@[w] && #[trigger] blk0[w] == i;
                            assert(blk@[w] == blk0[w]);
                        }
                    }
                }
            }
            p = p + 1;
        }
        proof {
            assert forall|b: int| 0 <= b < c implies #[trigger] block_used(inset@, blk@, b) by {
                if acc_id == Some(b as usize) {
                } else if rej_id == Some(b as usize) {
                } else {
                    assert(false);
                }
            }
            assert forall|x: int, y: int| 0 <= x < n && 0 <= y < n && inset@[x] && inset@[y] && #[trigger] blk@[x] == #[trigger] blk@[y]
                implies (self.accept_states@.contains(x as usize) <==> self.accept_states@.contains(y as usize)) by {
            }
        }
        (blk, c)
    }

    /// The coarsest grouping of the kept states into blocks that keep
    /// accepting and other states apart and whose states move alike.
    fn stable_blocks(&self, inset: &Vec<bool>) -> (r: (Vec<usize>, usize))
        requires
            self.wf(),
            inset@.len() == self.n(),
        ensures
            blocks_ok(*self, inset@, r.0@, r.1 as nat),
            stable(*self, inset@, r.0@),
            (forall|x: int| 0 <= x < self.n() ==> (#[trigger] inset@[x] <==> kept(*self, x as usize))) ==> separated(*self, inset@, r.0@),
    {
        let n = self.states.len();
        let ghost is_kept = forall|x: int| 0 <= x < self.n() ==> (#[trigger] inset@[x] <==> kept(*self, x as usize));
        let (mut blk, mut c) = self.first_blocks(inset);
        proof {
            assert forall|p: int, q: int| 0 <= p < self.n() && 0 <= q < self.n() && inset@[p] && inset@[q] && #[trigger] blk@[p] != #[trigger] blk@[q]
                implies distinguished(*self, p as usize, q as usize) by {
                let e = Seq::<usize>::empty();
                assert(self.run(p as usize, e) == Some(p as usize));
                assert(self.run(q as usize, e) == Some(q as usize));
                assert(self.accepts_from(p as usize, e) != self.accepts_from(q as usize, e));
            }
        }
        loop
            invariant
                self.wf(),
                n == self.n(),
                blocks_ok(*self, inset@, blk@, c as nat),
                is_kept == forall|x: int| 0 <= x < self.n() ==> (#[trigger] inset@[x] <==> kept(*self, x as usize)),
                is_kept ==> separated(*self, inset@, blk@),
            ensures
                blocks_ok(*self, inset@, blk@, c as nat),
                stable(*self, inset@, blk@),
                is_kept ==> separated(*self, inset@, blk@),
            decreases pairs_together(inset@, blk@, n as int, n as int),
        {
            let (nb, nc) = self.refine(inset, &blk, c);
            match self.find_split(inset, &blk, &nb) {
                None => {
                    proof {
                        assert forall|p: int, q: int| 0 <= p < n && 0 <= q < n && inset@[p] && inset@[q] && #[trigger] blk@[p] == #[trigger] blk@[q]
                            implies same_moves(*self, inset@, blk@, p as usize, q as usize) by {
                            assert(together(inset@, blk@, p, q));
                        }
                    }
                    break;
                },
                Some(pq) => {
                    proof {
                        lemma_pairs_finer(inset@, blk@, nb@, n as int, n as int, pq.0 as int, pq.1 as int);
                        assert forall|p: int, q: int| is_kept && 0 <= p < self.n() && 0 <= q < self.n() && inset@[p] && inset@[q] && #[trigger] nb@[p] != #[trigger] nb@[q]
                            implies distinguished(*self, p as usize, q as usize) by {
                            assert(!together(inset@, nb@, p, q));
                            if blk@[p] == blk@[q] {
                                assert(together(inset@, blk@, p, q));
                                assert(!same_moves(*self, inset@, blk@, p as usize, q as usize));
                                let a = choose|a: usize| #[trigger] target_block(*self, inset@, blk@, p as usize, a) != target_block(*self, inset@, blk@, q as usize, a);
                                lemma_moves_distinguish(*self, inset@, blk@, p as usize, q as usize, a);
                            }
                        }
                    }
                    blk = nb;
                    c = nc;
                },
            }
        }
        (blk, c)
    }
}


/// Whether state `p` is kept: reached from the start state and leading to an accept state.
pub open spec fn kept(dfa: DFA, p: usize) -> bool {
    p < dfa.n() && dfa.reaches(dfa.start_state, p) && dfa.leads_to_accept(p)
}

/// Whether `trans` and `acc` are the moves and the accepting blocks of the
/// blocks `blk` of the kept states of `dfa`.
pub open spec fn quotient_ok(dfa: DFA, inset: Seq<bool>, blk: Seq<usize>, c: nat, trans: Seq<IndexMap>, acc: Set<usize>) -> bool {
    &&& trans.len() == c
    &&& forall|b: int, a: usize| 0 <= b < c && #[trigger] trans[b]@.contains_key(a) ==> a < dfa.alphabet@.len() && trans[b]@[a] < c
        && forall|p: int| 0 <= p < dfa.n() && inset[p] && blk[p] == b ==> #[trigger] target_block(dfa, inset, blk, p as usize, a) == Some(trans[b]@[a])
    &&& forall|p: int, a: usize| 0 <= p < dfa.n() && inset[p] && (#[trigger] target_block(dfa, inset, blk, p as usize, a)) is Some
        ==> trans[blk[p] as int]@.contains_key(a)
    &&& forall|b: usize| #[trigger] acc.contains(b) ==> b < c && exists|p: int| 0 <= p < dfa.n() && inset[p] && blk[p] == b
        && #[trigger] dfa.accept_states@.contains(p as usize)
    &&& forall|p: int| 0 <= p < dfa.n() && inset[p] && #[trigger] dfa.accept_states@.contains(p as usize) ==> acc.contains(blk[p])
}

impl DFA {
    /// The moves between the blocks, and the blocks of accepting states.
    fn quotient_parts(&self, inset: &Vec<bool>, blk: &Vec<usize>, c: usize) -> (r: (Vec<IndexMap>, IndexSet))
        requires
            self.wf(),
            blocks_ok(*self, inset@, blk@, c as nat),
            stable(*self, inset@, blk@),
        ensures
            quotient_ok(*self, inset@, blk@, c as nat, r.0@, r.1@),
    {
        let n = self.states.len();
        let mut trans: Vec<IndexMap> = Vec::new();
        let mut i: usize = 0;
        while i < c
            invariant
                i <= c,
                trans@.len() == i,
                forall|b: int| 0 <= b < i ==> (#[trigger] trans@[b])@ == crate::collections::no_index_entries(),
            decreases c - i,
        {
            trans.push(IndexMap::new());
            i = i + 1;
        }
        let mut acc = IndexSet::new();
        let mut p: usize = 0;
        while p < n
            invariant
                self.wf(),
                n == self.n(),
                blocks_ok(*self, inset@, blk@, c as nat),
                stable(*self, inset@, blk@),
                p <= n,
                trans@.len() == c,
                forall|b: int, a: usize| 0 <= b < c && #[trigger] trans@[b]@.contains_key(a) ==> a < self.alphabet@.len() && trans@[b]@[a] < c
                    && forall|q: int| 0 <= q < n && inset@[q] && blk@[q] == b ==> #[trigger] target_block(*self, inset@, blk@, q as usize, a) == Some(trans@[b]@[a]),
                forall|q: int, a: usize| 0 <= q < p && inset@[q] && (#[trigger] target_block(*self, inset@, blk@, q as usize, a)) is Some
                    ==> trans@[blk@[q] as int]@.contains_key(a),
                forall|b: usize| #[trigger] acc@.contains(b) ==> b < c && exists|q: int| 0 <= q < n && inset@[q] && blk@[q] == b
                    && #[trigger] self.accept_states@.contains(q as usize),
                forall|q: int| 0 <= q < p && inset@[q] && #[trigger] self.accept_states@.contains(q as usize) ==> acc@.contains(blk@[q]),
            decreases n - p,
        {
            if inset[p] {
                let row = self.transitions[p].to_vec();
                let bp = blk[p];
                let mut k: usize = 0;
                while k < row.len()
                    invariant
                        self.wf(),
                        n == self.n(),
                        blocks_ok(*self, inset@, blk@, c as nat),
                        stable(*self, inset@, blk@),
                        p < n,
                        inset@[p as int],
                        bp == blk@[p as int],
                        bp < c,
                        k <= row@.len(),
                        forall|t: int| 0 <= t < row@.len() ==> self.row(p as int).contains_key(#[trigger] row@[t].0) && self.row(p as int)[row@[t].0] == row@[t].1,
                        trans@.len() == c,
                        forall|b: int, a: usize| 0 <= b < c && #[trigger] trans@[b]@.contains_key(a) ==> a < self.alphabet@.len() && trans@[b]@[a] < c
                            && forall|q: int| 0 <= q < n && inset@[q] && blk@[q] == b ==> #[trigger] target_block(*self, inset@, blk@, q as usize, a) == Some(trans@[b]@[a]),
                        forall|q: int, a: usize| 0 <= q < p && inset@[q] && (#[trigger] target_block(*self, inset@, blk@, q as usize, a)) is Some
                            ==> trans@[blk@[q] as int]@.contains_key(a),
                        forall|t: int| 0 <= t < k && (#[trigger] target_block(*self, inset@, blk@, p, row@[t].0)) is Some
                            ==> trans@[bp as int]@.contains_key(row@[t].0),
                    decreases row@.len() - k,
                {
                    let (a, t) = row[k];
                    if inset[t] {
                        let ghost tr0 = trans@;
                        let bt = blk[t];
                        proof {
                            assert(self.step(p, a) == Some(t));
                            assert(target_block(*self, inset@, blk@, p, a) == Some(bt));
                        }
                        trans[bp].insert(a, bt);
                        proof {
                            assert forall|b: int, a2: usize| 0 <= b < c && #[trigger] trans@[b]@.contains_key(a2) implies a2 < self.alphabet@.len() && trans@[b]@[a2] < c
                                && forall|q: int| 0 <= q < n && inset@[q] && blk@[q] == b ==> #[trigger] target_block(*self, inset@, blk@, q as usize, a2) == Some(trans@[b]@[a2]) by {
                                if b == bp && a2 == a {
                                    assert forall|q: int| 0 <= q < n && inset@[q] && blk@[q] == b implies #[trigger] target_block(*self, inset@, blk@, q as usize, a2) == Some(trans@[b]@[a2]) by {
                                        assert(same_moves(*self, inset@, blk@, p, q as usize));
                                        assert(target_block(*self, inset@, blk@, p, a2) == target_block(*self, inset@, blk@, q as usize, a2));
                                    }
                                } else {
                                    assert(trans@[b]@.contains_key(a2) == tr0[b]@.contains_key(a2));
                                    assert(trans@[b]@[a2] == tr0[b]@[a2]);
                                }
                            }
                            assert forall|q: int, a2: usize| 0 <= q < p && inset@[q] && (#[trigger] target_block(*self, inset@, blk@, q as usize, a2)) is Some
                                implies trans@[blk@[q] as int]@.contains_key(a2) by {
                                assert(tr0[blk@[q] as int]@.contains_key(a2));
                            }
                            assert forall|t2: int| 0 <= t2 < k + 1 && (#[trigger] target_block(*self, inset@, blk@, p, row@[t2].0)) is Some
                                implies trans@[bp as int]@.contains_key(row@[t2].0) by {
                                if t2 < k {
                                    assert(tr0[bp as int]@.contains_key(row@[t2].0));
                                }
                            }
                        }
                    } else {
                        proof {
                            assert(target_block(*self, inset@, blk@, p, a) is None);
                        }
                    }
                    k = k + 1;
                }
                proof {
                    assert forall|q: int, a: usize| 0 <= q < p + 1 && inset@[q] && (#[trigger] target_block(*self, inset@, blk@, q as usize, a)) is Some
                        implies trans@[blk@[q] as int]@.contains_key(a) by {
                        if q == p {
                            assert(self.row(p as int).contains_key(a));
                            let t = choose|t: int| 0 <= t < row@.len() && #[trigger] row@[t].0 == a;
                            assert(target_block(*self, inset@, blk@, p, row@[t].0) is Some);
                        }
                    }
                }
                if self.accept_states.contains(p) {
                    acc.insert(bp);
                }
            }
            p = p + 1;
        }
        (trans, acc)
    }
}

/// A run between kept states is matched by a run between their blocks.
pub proof fn lemma_quotient_forward(dfa: DFA, inset: Seq<bool>, blk: Seq<usize>, c: nat, q: DFA, p: usize, w: Seq<usize>)
    requires
        dfa.wf(),
        blocks_ok(dfa, inset, blk, c),
        forall|x: int| 0 <= x < dfa.n() ==> (#[trigger] inset[x] <==> kept(dfa, x as usize)),
        quotient_ok(dfa, inset, blk, c, q.transitions@, q.accept_states@),
        kept(dfa, p),
        dfa.run(p, w) matches Some(t) && kept(dfa, t),
    ensures
        q.run(blk[p as int], w) == Some(blk[dfa.run(p, w)->0 as int]),
    decreases w.len(),
{
    let t = dfa.run(p, w)->0;
    if w.len() > 0 {
        let w0 = w.drop_last();
        let x = w.last();
        let t0 = dfa.run(p, w0)->0;
        assert(dfa.run(p, w0) is Some);
        dfa.lemma_run_in_range(p, w0);
        // t0 is reached from the start and leads to an accept state through t
        let u = choose|u: Seq<usize>| #[trigger] dfa.run(dfa.start_state, u) == Some(p);
        dfa.lemma_run_concat(dfa.start_state, u, w0);
        assert(dfa.reaches(dfa.start_state, t0));
        let v = choose|v: Seq<usize>| #[trigger] dfa.run(t, v) matches Some(f) && dfa.accept_states@.contains(f);
        dfa.lemma_run_concat(t0, seq![x], v);
        assert(seq![x].drop_last() =~= Seq::<usize>::empty());
        assert(dfa.run(t0, seq![x].drop_last()) == Some(t0));
        assert(seq![x].last() == x);
        assert(dfa.step(t0, x) == Some(t));
        assert(dfa.run(t0, seq![x]) == Some(t));
        assert(dfa.leads_to_accept(t0));
        assert(inset[t0 as int]);
        lemma_quotient_forward(dfa, inset, blk, c, q, p, w0);
        dfa.lemma_run_in_range(p, w);
        assert(inset[t as int]);
        assert(target_block(dfa, inset, blk, t0, x) == Some(blk[t as int]));
        assert(q.transitions@[blk[t0 as int] as int]@.contains_key(x));
    }
}

/// A run between blocks is matched by a run between kept states in them.
pub proof fn lemma_quotient_back(dfa: DFA, inset: Seq<bool>, blk: Seq<usize>, c: nat, q: DFA, p: usize, w: Seq<usize>)
    requires
        dfa.wf(),
        blocks_ok(dfa, inset, blk, c),
        forall|x: int| 0 <= x < dfa.n() ==> (#[trigger] inset[x] <==> kept(dfa, x as usize)),
        quotient_ok(dfa, inset, blk, c, q.transitions@, q.accept_states@),
        p < dfa.n(),
        inset[p as int],
        q.run(blk[p as int], w) is Some,
    ensures
        dfa.run(p, w) matches Some(t) && t < dfa.n() && inset[t as int] && blk[t as int] == q.run(blk[p as int], w)->0,
    decreases w.len(),
{
    if w.len() > 0 {
        let w0 = w.drop_last();
        let x = w.last();
        lemma_quotient_back(dfa, inset, blk, c, q, p, w0);
        let t0 = dfa.run(p, w0)->0;
        let b0 = q.run(blk[p as int], w0)->0;
        assert(q.step(b0, x) is Some);
        assert(q.transitions@[b0 as int]@.contains_key(x));
        assert(target_block(dfa, inset, blk, t0, x) == Some(q.transitions@[b0 as int]@[x]));
    }
}

/// A kept state that moves on a symbol out of the kept states, or not at
/// all, accepts no word that starts with that symbol.
proof fn lemma_no_kept_move(dfa: DFA, inset: Seq<bool>, blk: Seq<usize>, p: usize, a: usize, rest: Seq<usize>)
    requires
        dfa.wf(),
        inset.len() == dfa.n(),
        blk.len() == dfa.n(),
        forall|x: int| 0 <= x < dfa.n() ==> (#[trigger] inset[x] <==> kept(dfa, x as usize)),
        kept(dfa, p),
        target_block(dfa, inset, blk, p, a) is None,
    ensures
        !dfa.accepts_from(p, seq![a] + rest),
{
    dfa.lemma_run_cons(p, a, rest);
    if dfa.step(p, a) is Some {
        let t = dfa.step(p, a)->0;
        assert(t < dfa.n());
        assert(!inset[t as int]);
        let w = choose|w: Seq<usize>| #[trigger] dfa.run(dfa.start_state, w) == Some(p);
        dfa.lemma_run_concat(dfa.start_state, w, seq![a]);
        assert(seq![a].drop_last() =~= Seq::<usize>::empty());
        assert(dfa.run(p, seq![a].drop_last()) == Some(p));
        assert(seq![a].last() == a);
        assert(dfa.run(dfa.start_state, w + seq![a]) == Some(t));
        assert(dfa.reaches(dfa.start_state, t));
        assert(!dfa.leads_to_accept(t));
        assert(!dfa.accepts_from(t, rest));
    }
}

/// Kept states in one block of a stable grouping accept the same words.
pub proof fn lemma_stable_same_words(dfa: DFA, inset: Seq<bool>, blk: Seq<usize>, c: nat, p: usize, q: usize, u: Seq<usize>)
    requires
        dfa.wf(),
        blocks_ok(dfa, inset, blk, c),
        stable(dfa, inset, blk),
        forall|x: int| 0 <= x < dfa.n() ==> (#[trigger] inset[x] <==> kept(dfa, x as usize)),
        kept(dfa, p),
        kept(dfa, q),
        blk[p as int] == blk[q as int],
    ensures
        dfa.accepts_from(p, u) == dfa.accepts_from(q, u),
    decreases u.len(),
{
    assert(inset[p as int] && inset[q as int]);
    if u.len() == 0 {
        assert(dfa.run(p, u) == Some(p));
        assert(dfa.run(q, u) == Some(q));
    } else {
        let a = u[0];
        let rest = u.drop_first();
        assert(u == seq![a] + rest);
        assert(same_moves(dfa, inset, blk, p, q));
        assert(target_block(dfa, inset, blk, p, a) == target_block(dfa, inset, blk, q, a));
        if target_block(dfa, inset, blk, p, a) is Some {
            let tp = dfa.step(p, a)->0;
            let tq = dfa.step(q, a)->0;
            assert(inset[tp as int] && inset[tq as int]);
            dfa.lemma_run_cons(p, a, rest);
            dfa.lemma_run_cons(q, a, rest);
            lemma_stable_same_words(dfa, inset, blk, c, tp, tq, rest);
        } else {
            lemma_no_kept_move(dfa, inset, blk, p, a, rest);
            lemma_no_kept_move(dfa, inset, blk, q, a, rest);
        }
    }
}

/// From a kept state and from its block the same words are accepted.
pub proof fn lemma_quotient_accepts_from(dfa: DFA, inset: Seq<bool>, blk: Seq<usize>, c: nat, q: DFA, p: usize, u: Seq<usize>)
    requires
        dfa.wf(),
        blocks_ok(dfa, inset, blk, c),
        forall|x: int| 0 <= x < dfa.n() ==> (#[trigger] inset[x] <==> kept(dfa, x as usize)),
        quotient_ok(dfa, inset, blk, c, q.transitions@, q.accept_states@),
        kept(dfa, p),
    ensures
        q.accepts_from(blk[p as int], u) == dfa.accepts_from(p, u),
{
    if dfa.accepts_from(p, u) {
        let t = dfa.run(p, u)->0;
        dfa.lemma_run_in_range(p, u);
        let w = choose|w: Seq<usize>| #[trigger] dfa.run(dfa.start_state, w) == Some(p);
        dfa.lemma_run_concat(dfa.start_state, w, u);
        assert(dfa.reaches(dfa.start_state, t));
        assert(dfa.run(t, Seq::<usize>::empty()) == Some(t));
        assert(dfa.leads_to_accept(t));
        lemma_quotient_forward(dfa, inset, blk, c, q, p, u);
        assert(inset[t as int]);
    }
    if q.accepts_from(blk[p as int], u) {
        assert(inset[p as int]);
        lemma_quotient_back(dfa, inset, blk, c, q, p, u);
        let t = dfa.run(p, u)->0;
        let bb = q.run(blk[p as int], u)->0;
        assert(q.accept_states@.contains(bb));
        let x = choose|x: int| 0 <= x < dfa.n() && inset[x] && blk[x] == bb && #[trigger] dfa.accept_states@.contains(x as usize);
        assert(blk[x] == blk[t as int]);
    }
}

impl DFA {
    /// The minimal automaton: the states reached from the start state that
    /// lead to an accept state, grouped into blocks of states that accept the
    /// same words, each block one state named `q` and its number. Where no
    /// accept state is reached, the empty automaton.
    pub fn minimize(&self) -> (r: DFA)
        requires
            self.wf(),
        ensures
            r.wf(),
            forall|u: Seq<usize>| #[trigger] r.accepts_indices(u) <==> self.accepts_indices(u),
            self.leads_to_accept(self.start_state) ==> r.alphabet@ == self.alphabet@ && r.alphabet_index_map@ == self.alphabet_index_map@
                && forall|w: Seq<Seq<char>>| #[trigger] r.accepts_word(w) <==> self.accepts_word(w),
            !self.leads_to_accept(self.start_state) ==> r.n() == 1 && r.accept_states@ == Set::<usize>::empty()
                && forall|w: Seq<Seq<char>>| !r.accepts_word(w) && !self.accepts_word(w),
            forall|b1: usize, b2: usize| b1 < r.n() && b2 < r.n() && b1 != b2 ==> #[trigger] distinguished(r, b1, b2),
            forall|b: usize| b < r.n() ==> #[trigger] r.reaches(r.start_state, b),
            self.symbols_mapped() ==> r.symbols_mapped(),
    {
        let n = self.states.len();
        let reach = self.reachable_states(self.start_state);
        let lead = self.leading_to_accept_states();
        let mut inset: Vec<bool> = Vec::new();
        let mut p: usize = 0;
        while p < n
            invariant
                self.wf(),
                n == self.n(),
                p <= n,
                inset@.len() == p,
                forall|x: usize| #[trigger] reach@.contains(x) <==> self.reaches(self.start_state, x),
                forall|x: usize| #[trigger] lead@.contains(x) <==> x < self.n() && self.leads_to_accept(x),
                forall|x: int| 0 <= x < p ==> (#[trigger] inset@[x] <==> kept(*self, x as usize)),
            decreases n - p,
        {
            inset.push(reach.contains(p) && lead.contains(p));
            p = p + 1;
        }
        if !inset[self.start_state] {
            proof {
                assert(self.run(self.start_state, Seq::<usize>::empty()) == Some(self.start_state));
                assert(!self.leads_to_accept(self.start_state));
                assert forall|u: Seq<usize>| !self.accepts_indices(u) by {
                    if self.accepts_indices(u) {
                        assert(self.run(self.start_state, u) matches Some(f) && self.accept_states@.contains(f));
                    }
                }
            }
            let e = DFA::empty();
            proof {
                assert(e.run(e.start_state, Seq::<usize>::empty()) == Some(e.start_state));
                assert(e.reaches(e.start_state, 0));
            }
            return e;
        }
        let (blk, c) = self.stable_blocks(&inset);
        let (trans, acc) = self.quotient_parts(&inset, &blk, c);
        let mut names: Vec<State> = Vec::new();
        let mut i: usize = 0;
        while i < c
            invariant
                i <= c,
                names@.len() == i,
            decreases c - i,
        {
            names.push(State::from_string(crate::text::name_with_number("q", i)));
            i = i + 1;
        }
        let r = DFA::new(StateIndexMap::new(), self.alphabet_index_map.clone(), names, self.alphabet.clone(), trans, blk[self.start_state], acc);
        proof {
            let s = inset@;
            let b = blk@;
            assert(b[self.start_state as int] < c);
            assert forall|x: usize| #[trigger] r.accept_states@.contains(x) implies x < r.states@.len() by {}
            assert forall|x: int, a: usize| 0 <= x < r.transitions@.len() && #[trigger] r.transitions@[x]@.contains_key(a) implies a
                < r.alphabet@.len() && r.transitions@[x]@[a] < r.states@.len() by {}
            assert(r.state_index_map@ == crate::collections::no_name_entries());
            assert(r.wf());
            assert forall|u: Seq<usize>| #[trigger] r.accepts_indices(u) <==> self.accepts_indices(u) by {
                if self.accepts_indices(u) {
                    let f = self.run(self.start_state, u)->0;
                    self.lemma_run_in_range(self.start_state, u);
                    assert(self.reaches(self.start_state, f));
                    assert(self.run(f, Seq::<usize>::empty()) == Some(f));
                    assert(self.leads_to_accept(f));
                    assert(s[f as int]);
                    assert(s[self.start_state as int]);
                    lemma_quotient_forward(*self, s, b, c as nat, r, self.start_state, u);
                }
                if r.accepts_indices(u) {
                    lemma_quotient_back(*self, s, b, c as nat, r, self.start_state, u);
                    let t = self.run(self.start_state, u)->0;
                    let bb = r.run(b[self.start_state as int], u)->0;
                    assert(r.accept_states@.contains(bb));
                    let x = choose|x: int| 0 <= x < self.n() && s[x] && b[x] == bb && #[trigger] self.accept_states@.contains(x as usize);
                    assert(b[x] == b[t as int]);
                }
            }
            if self.symbols_mapped() {
                assert forall|x: int, a: usize| 0 <= x < r.transitions@.len() && #[trigger] r.transitions@[x]@.contains_key(a)
                    implies r.alphabet_index_map@.contains_key(r.alphabet@[a as int]@) && r.alphabet_index_map@[r.alphabet@[a as int]@] == a by {
                    assert(block_used(s, b, x));
                    let p = choose|p: int| 0 <= p < s.len() && p < b.len() && s[p] && #[trigger] b[p] == x;
                    assert(target_block(*self, s, b, p as usize, a) == Some(trans@[x]@[a]));
                    assert(self.transitions@[p]@.contains_key(a));
                }
            }
            assert forall|b1: usize| b1 < r.n() implies #[trigger] r.reaches(r.start_state, b1) by {
                assert(block_used(s, b, b1 as int));
                let p = choose|p: int| 0 <= p < s.len() && p < b.len() && s[p] && #[trigger] b[p] == b1 as int;
                assert(kept(*self, p as usize));
                let u = choose|u: Seq<usize>| #[trigger] self.run(self.start_state, u) == Some(p as usize);
                assert(kept(*self, self.start_state));
                lemma_quotient_forward(*self, s, b, c as nat, r, self.start_state, u);
                assert(r.run(r.start_state, u) == Some(b1));
            }
            assert forall|b1: usize, b2: usize| b1 < r.n() && b2 < r.n() && b1 != b2 implies #[trigger] distinguished(r, b1, b2) by {
                assert(block_used(s, b, b1 as int));
                assert(block_used(s, b, b2 as int));
                let p = choose|p: int| 0 <= p < s.len() && p < b.len() && s[p] && #[trigger] b[p] == b1 as int;
                let q = choose|q: int| 0 <= q < s.len() && q < b.len() && s[q] && #[trigger] b[q] == b2 as int;
                assert(b[p] != b[q]);
                assert(distinguished(*self, p as usize, q as usize));
                let u = choose|u: Seq<usize>| #[trigger] self.accepts_from(p as usize, u) != self.accepts_from(q as usize, u);
                lemma_quotient_accepts_from(*self, s, b, c as nat, r, p as usize, u);
                lemma_quotient_accepts_from(*self, s, b, c as nat, r, q as usize, u);
                assert(r.accepts_from(b1, u) != r.accepts_from(b2, u));
            }
            assert(self.run(self.start_state, Seq::<usize>::empty()) == Some(self.start_state));
            assert forall|w: Seq<Seq<char>>| #[trigger] r.accepts_word(w) <==> self.accepts_word(w) by {
                assert(r.over_alphabet(w) == self.over_alphabet(w));
                assert(r.symbol_indices(w) == self.symbol_indices(w));
                assert(r.accepts_indices(self.symbol_indices(w)) <==> self.accepts_indices(self.symbol_indices(w)));
            }
        }
        r
    }
}


/// Whether `p` and `q` both move on `a` into `states`, into one block of
/// `r`, or neither does.
pub open spec fn moves_to_one_block(dfa: DFA, states: Set<usize>, r: Seq<Vec<usize>>, p: usize, q: usize, a: usize) -> bool {
    let tp = dfa.step(p, a);
    let tq = dfa.step(q, a);
    let ip = tp is Some && states.contains(tp->0);
    let iq = tq is Some && states.contains(tq->0);
    &&& ip <==> iq
    &&& ip ==> exists|j: int| #[trigger] in_block(r, tp->0, j) && in_block(r, tq->0, j)
}

/// Whether state `p` stands in block `i` of `r`.
pub open spec fn in_block(r: Seq<Vec<usize>>, p: usize, i: int) -> bool {
    0 <= i < r.len() && exists|k: int| 0 <= k < r[i]@.len() && #[trigger] r[i]@[k] == p
}

impl DFA {
    /// Partitions `states` into blocks: the accepting states and the others
    /// are kept apart, and the blocks are split until, in every block, the
    /// states move on each symbol into one same block, or all out of `states`.
    /// Each block lists its states in increasing order.
    pub fn partition_states(&self, states: &IndexSet) -> (r: Vec<Vec<usize>>)
        requires
            self.wf(),
            forall|p: usize| #[trigger] states@.contains(p) ==> p < self.n(),
        ensures
            forall|i: int| 0 <= i < r@.len() ==> (#[trigger] r@[i])@.len() > 0,
            forall|i: int, k: int| 0 <= i < r@.len() && 0 <= k < r@[i]@.len() ==> states@.contains(#[trigger] r@[i]@[k]),
            forall|p: usize| #[trigger] states@.contains(p) ==> exists|i: int| #[trigger] in_block(r@, p, i),
            forall|i: int, j: int, k: int, l: int| 0 <= i < r@.len() && 0 <= j < r@.len() && 0 <= k < r@[i]@.len() && 0 <= l < r@[j]@.len()
                && #[trigger] r@[i]@[k] == #[trigger] r@[j]@[l] ==> i == j && k == l,
            forall|i: int, k: int, l: int| 0 <= i < r@.len() && 0 <= k < r@[i]@.len() && 0 <= l < r@[i]@.len()
                ==> (self.accept_states@.contains(#[trigger] r@[i]@[k]) <==> self.accept_states@.contains(#[trigger] r@[i]@[l])),
            forall|i: int, k: int, l: int, a: usize| 0 <= i < r@.len() && 0 <= k < r@[i]@.len() && 0 <= l < r@[i]@.len()
                ==> #[trigger] moves_to_one_block(*self, states@, r@, r@[i]@[k], r@[i]@[l], a),
            (forall|x: usize| x < self.n() ==> (#[trigger] states@.contains(x) <==> kept(*self, x))) ==> forall|i: int, j: int, k: int, l: int|
                0 <= i < r@.len() && 0 <= j < r@.len() && 0 <= k < r@[i]@.len() && 0 <= l < r@[j]@.len()
                    ==> (i == j <==> !#[trigger] distinguished(*self, r@[i]@[k], r@[j]@[l])),
    {
        let n = self.states.len();
        let mut inset: Vec<bool> = Vec::new();
        let mut p: usize = 0;
        while p < n
            invariant
                n == self.n(),
                p <= n,
                inset@.len() == p,
                forall|x: int| 0 <= x < p ==> (#[trigger] inset@[x] <==> states@.contains(x as usize)),
            decreases n - p,
        {
            inset.push(states.contains(p));
            p = p + 1;
        }
        let (blk, c) = self.stable_blocks(&inset);
        let mut r: Vec<Vec<usize>> = Vec::new();
        let mut b: usize = 0;
        while b < c
            invariant
                self.wf(),
                n == self.n(),
                inset@.len() == n,
                blocks_ok(*self, inset@, blk@, c as nat),
                b <= c,
                r@.len() == b,
                forall|i: int, k: int| 0 <= i < b && 0 <= k < r@[i]@.len() ==> #[trigger] r@[i]@[k] < n
                    && inset@[r@[i]@[k] as int] && blk@[r@[i]@[k] as int] == i,
                forall|i: int, k: int, l: int| 0 <= i < b && 0 <= k < l < r@[i]@.len() ==> #[trigger] r@[i]@[k] < #[trigger] r@[i]@[l],
                forall|x: int| 0 <= x < n && inset@[x] && blk@[x] < b ==> #[trigger] in_block(r@, x as usize, blk@[x] as int),
            decreases c - b,
        {
            let mut row: Vec<usize> = Vec::new();
            let mut x: usize = 0;
            while x < n
                invariant
                    n == self.n(),
                    inset@.len() == n,
                    blk@.len() == n,
                    x <= n,
                    forall|k: int| 0 <= k < row@.len() ==> #[trigger] row@[k] < x && inset@[row@[k] as int] && blk@[row@[k] as int] == b,
                    forall|k: int, l: int| 0 <= k < l < row@.len() ==> #[trigger] row@[k] < #[trigger] row@[l],
                    forall|y: int| 0 <= y < x && inset@[y] && blk@[y] == b ==> #[trigger] row@.contains(y as usize),
                decreases n - x,
            {
                let ghost row0 = row@;
                if inset[x] && blk[x] == b {
                    row.push(x);
                }
                proof {
                    assert forall|y: int| 0 <= y < x + 1 && inset@[y] && blk@[y] == b implies #[trigger] row@.contains(y as usize) by {
                        if y < x {
                            assert(row0.contains(y as usize));
                            let k = choose|k: int| 0 <= k < row0.len() && row0[k] == y as usize;
                            assert(row@[k] == row0[k]);
                        } else {
                            assert(row@[row@.len() - 1] == x);
                        }
                    }
                }
                x = x + 1;
            }
            let ghost r0 = r@;
            r.push(row);
            proof {
                assert forall|y: int| 0 <= y < n && inset@[y] && blk@[y] < b + 1 implies #[trigger] in_block(r@, y as usize, blk@[y] as int) by {
                    if blk@[y] < b {
                        assert(in_block(r0, y as usize, blk@[y] as int));
                        let k = choose|k: int| 0 <= k < r0[blk@[y] as int]@.len() && #[trigger] r0[blk@[y] as int]@[k] == y as usize;
                        assert(r@[blk@[y] as int] == r0[blk@[y] as int]);
                    } else {
                        assert(row@.contains(y as usize));
                        assert(r@[b as int]@ == row@);
                        let k = choose|k: int| 0 <= k < row@.len() && row@[k] == y as usize;
                        assert(r@[b as int]@[k] == y as usize);
                    }
                }
                assert forall|i: int, k: int| 0 <= i < b + 1 && 0 <= k < r@[i]@.len() implies #[trigger] r@[i]@[k] < n
                    && inset@[r@[i]@[k] as int] && blk@[r@[i]@[k] as int] == i by {
                    if i < b {
                        assert(r@[i] == r0[i]);
                    }
                }
                assert forall|i: int, k: int, l: int| 0 <= i < b + 1 && 0 <= k < l < r@[i]@.len() implies #[trigger] r@[i]@[k] < #[trigger] r@[i]@[l] by {
                    if i < b {
                        assert(r@[i] == r0[i]);
                    }
                }
            }
            b = b + 1;
        }
        proof {
            let s = inset@;
            let bl = blk@;
            assert forall|x: usize| #[trigger] in_block(r@, x, bl[x as int] as int) || !(x < n && s[x as int]) by {}
            assert forall|i: int| 0 <= i < r@.len() implies (#[trigger] r@[i])@.len() > 0 by {
                assert(block_used(s, bl, i));
                let x = choose|x: int| 0 <= x < s.len() && x < bl.len() && s[x] && #[trigger] bl[x] == i;
                assert(in_block(r@, x as usize, i));
            }
            assert forall|p1: usize| #[trigger] states@.contains(p1) implies exists|i: int| #[trigger] in_block(r@, p1, i) by {
                assert(s[p1 as int]);
                assert(in_block(r@, p1, bl[p1 as int] as int));
            }
            assert forall|i: int, j: int, k: int, l: int| 0 <= i < r@.len() && 0 <= j < r@.len() && 0 <= k < r@[i]@.len() && 0 <= l < r@[j]@.len()
                && #[trigger] r@[i]@[k] == #[trigger] r@[j]@[l] implies i == j && k == l by {
                assert(bl[r@[i]@[k] as int] == i);
                assert(bl[r@[j]@[l] as int] == j);
                if k < l {
                    assert(r@[i]@[k] < r@[i]@[l]);
                } else if l < k {
                    assert(r@[i]@[l] < r@[i]@[k]);
                }
            }
            assert forall|i: int, k: int, l: int| 0 <= i < r@.len() && 0 <= k < r@[i]@.len() && 0 <= l < r@[i]@.len()
                implies (self.accept_states@.contains(#[trigger] r@[i]@[k]) <==> self.accept_states@.contains(#[trigger] r@[i]@[l])) by {
                let x = r@[i]@[k] as int;
                let y = r@[i]@[l] as int;
                assert(bl[x] == bl[y]);
            }
            assert forall|i: int, k: int, l: int, a: usize| 0 <= i < r@.len() && 0 <= k < r@[i]@.len() && 0 <= l < r@[i]@.len()
                implies #[trigger] moves_to_one_block(*self, states@, r@, r@[i]@[k], r@[i]@[l], a) by {
                let x = r@[i]@[k];
                let y = r@[i]@[l];
                assert(bl[x as int] == bl[y as int]);
                assert(same_moves(*self, s, bl, x, y));
                assert(target_block(*self, s, bl, x, a) == target_block(*self, s, bl, y, a));
                if self.step(x, a) is Some && states@.contains(self.step(x, a)->0) {
                    let t = self.step(x, a)->0;
                    assert(t < n);
                    assert(s[t as int]);
                    let t2 = self.step(y, a)->0;
                    assert(t2 < n);
                    assert(in_block(r@, t, bl[t as int] as int));
                    assert(in_block(r@, t2, bl[t2 as int] as int));
                }
                if self.step(y, a) is Some && states@.contains(self.step(y, a)->0) {
                    let t2 = self.step(y, a)->0;
                    assert(t2 < n);
                    assert(s[t2 as int]);
                }
            }
            if forall|x: usize| x < self.n() ==> (#[trigger] states@.contains(x) <==> kept(*self, x)) {
                assert forall|x: int| 0 <= x < self.n() implies (#[trigger] s[x] <==> kept(*self, x as usize)) by {
                    assert(states@.contains(x as usize) <==> kept(*self, x as usize));
                }
                assert forall|i: int, j: int, k: int, l: int|
                    0 <= i < r@.len() && 0 <= j < r@.len() && 0 <= k < r@[i]@.len() && 0 <= l < r@[j]@.len()
                        implies (i == j <==> !#[trigger] distinguished(*self, r@[i]@[k], r@[j]@[l])) by {
                    let x = r@[i]@[k];
                    let y = r@[j]@[l];
                    assert(bl[x as int] == i);
                    assert(bl[y as int] == j);
                    assert(states@.contains(x) && states@.contains(y));
                    assert(x < n && y < n);
                    assert(s[x as int] && s[y as int]);
                    if i == j {
                        if distinguished(*self, x, y) {
                            let u = choose|u: Seq<usize>| #[trigger] self.accepts_from(x, u) != self.accepts_from(y, u);
                            lemma_stable_same_words(*self, s, bl, c as nat, x, y, u);
                        }
                    } else {
                        assert(bl[x as int] != bl[y as int]);
                    }
                }
            }
        }
        r
    }
}

/// Moving alike is transitive through a common partner.
pub proof fn lemma_same_moves_trans(dfa: DFA, inset: Seq<bool>, blk: Seq<usize>, r: usize, p: usize, q: usize)
    requires
        same_moves(dfa, inset, blk, r, p),
        same_moves(dfa, inset, blk, r, q),
    ensures
        same_moves(dfa, inset, blk, p, q),
{
    assert forall|a: usize| #[trigger] target_block(dfa, inset, blk, p, a) == target_block(dfa, inset, blk, q, a) by {
        assert(target_block(dfa, inset, blk, r, a) == target_block(dfa, inset, blk, p, a));
        assert(target_block(dfa, inset, blk, r, a) == target_block(dfa, inset, blk, q, a));
    }
}

/// Moving alike is symmetric.
pub proof fn lemma_same_moves_sym(dfa: DFA, inset: Seq<bool>, blk: Seq<usize>, p: usize, q: usize)
    requires
        same_moves(dfa, inset, blk, p, q),
    ensures
        same_moves(dfa, inset, blk, q, p),
{
    assert forall|a: usize| #[trigger] target_block(dfa, inset, blk, q, a) == target_block(dfa, inset, blk, p, a) by {
        assert(target_block(dfa, inset, blk, p, a) == target_block(dfa, inset, blk, q, a));
    }
}

} // verus!
