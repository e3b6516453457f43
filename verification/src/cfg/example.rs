//! Example words of the intersection of a grammar with an automaton: the
//! search records, for every intersection variable it finds, one body that
//! derives a word, shortest words first; the word is then read off by
//! expanding the bodies from the start.
use crate::cfg::cfg::{binary_form, generates, grammar_ok, symbol_in, IntersectionSymbolIndex, SymbolIndex, CFG};
use crate::cfg::generating::lemma_terminal_generating;
use crate::cfg::intersection::{
    closed, finals_ok, init_at, left_fact, no_final_marked, lemma_visit_step, single_fact, variables_in, lemma_head_from_words, lemma_flatten_one, lemma_tri_bound, lemma_tri_injective, pair_at,
    production_maps_ok, right_fact, tri, tri_index, unit_at, waiting,
};
use crate::collections::GenerationMap;
use crate::fa::dfa::DFA;
use crate::queue::LengthQueue;
use vstd::prelude::*;

verus! {

/// Whether `body` is the empty body, recorded for `(p, a, q)` because `a`
/// has an empty production and `p == q`.
pub open spec fn empty_entry(g: Seq<Seq<Seq<SymbolIndex>>>, p: usize, a: usize, q: usize, body: Seq<IntersectionSymbolIndex>) -> bool {
    body.len() == 0 && p == q && exists|j: int| 0 <= j < g[a as int].len() && #[trigger] g[a as int][j].len() == 0
}

/// Whether `body` is one terminal `o`, recorded for `(p, a, q)` because of a
/// production `a -> o` and a transition from `p` to `q` on `o`.
pub open spec fn terminal_entry(g: Seq<Seq<Seq<SymbolIndex>>>, dfa: DFA, nt: nat, p: usize, a: usize, q: usize, body: Seq<IntersectionSymbolIndex>) -> bool {
    body.len() == 1 && body[0] is TerminalIndex && {
        let o = body[0]->TerminalIndex_0;
        &&& o < nt
        &&& dfa.step(p, o) == Some(q)
        &&& exists|j: int| 0 <= j < g[a as int].len() && #[trigger] g[a as int][j] == seq![SymbolIndex::TerminalIndex(o)]
    }
}

/// Whether `body` is one variable `(p, b, q)`, recorded for `(p, a, q)`
/// because of a production `a -> b`.
pub open spec fn unit_entry(g: Seq<Seq<Seq<SymbolIndex>>>, p: usize, a: usize, q: usize, body: Seq<IntersectionSymbolIndex>) -> bool {
    body.len() == 1 && body[0] is VariableIndex && {
        let t = body[0]->VariableIndex_0;
        &&& t.0 == p
        &&& t.2 == q
        &&& exists|j: int| 0 <= j < g[a as int].len() && #[trigger] g[a as int][j] == seq![SymbolIndex::VariableIndex(t.1)]
    }
}

/// Whether `body` is two variables `(p, b, m)` and `(m, c, q)`, recorded for
/// `(p, a, q)` because of a production `a -> b c`.
pub open spec fn pair_entry(g: Seq<Seq<Seq<SymbolIndex>>>, p: usize, a: usize, q: usize, body: Seq<IntersectionSymbolIndex>) -> bool {
    body.len() == 2 && body[0] is VariableIndex && body[1] is VariableIndex && {
        let t1 = body[0]->VariableIndex_0;
        let t2 = body[1]->VariableIndex_0;
        &&& t1.0 == p
        &&& t2.2 == q
        &&& t1.2 == t2.0
        &&& exists|j: int| 0 <= j < g[a as int].len() && #[trigger] g[a as int][j] == seq![SymbolIndex::VariableIndex(t1.1), SymbolIndex::VariableIndex(t2.1)]
    }
}

/// Whether `body` is a body that some production gives to `(p, a, q)`.
pub open spec fn entry_ok(g: Seq<Seq<Seq<SymbolIndex>>>, dfa: DFA, nt: nat, key: (usize, usize, usize), body: Seq<IntersectionSymbolIndex>) -> bool {
    let (p, a, q) = key;
    &&& p < dfa.n()
    &&& q < dfa.n()
    &&& a < g.len()
    &&& {
        ||| empty_entry(g, p, a, q, body)
        ||| terminal_entry(g, dfa, nt, p, a, q, body)
        ||| unit_entry(g, p, a, q, body)
        ||| pair_entry(g, p, a, q, body)
    }
}

/// Whether `x` is a terminal or a variable that the map has an entry for.
pub open spec fn has_entry(map: Map<(usize, usize, usize), Seq<IntersectionSymbolIndex>>, x: IntersectionSymbolIndex) -> bool {
    match x {
        IntersectionSymbolIndex::TerminalIndex(_) => true,
        IntersectionSymbolIndex::VariableIndex(t) => map.contains_key(t),
    }
}

/// Whether every entry of the map is a body of its variable whose variables have entries too.
pub open spec fn map_ok(map: Map<(usize, usize, usize), Seq<IntersectionSymbolIndex>>, g: Seq<Seq<Seq<SymbolIndex>>>, dfa: DFA, nt: nat) -> bool {
    forall|k: (usize, usize, usize)| #[trigger] map.contains_key(k) ==> entry_ok(g, dfa, nt, k, map[k]) && forall|i: int|
        0 <= i < map[k].len() ==> has_entry(map, #[trigger] map[k][i])
}

/// Whether the map has an entry for the start variable between the start
/// state and some accepting state.
pub open spec fn start_recorded(map: Map<(usize, usize, usize), Seq<IntersectionSymbolIndex>>, dfa: DFA, start: usize) -> bool {
    exists|f: usize| dfa.accept_states@.contains(f) && #[trigger] map.contains_key((dfa.start_state, start, f))
}

/// The number of unmarked entries.
pub open spec fn nones(gs: Seq<Option<usize>>) -> nat
    decreases gs.len(),
{
    if gs.len() == 0 {
        0
    } else {
        nones(gs.drop_last()) + if gs.last() is None { 1nat } else { 0nat }
    }
}

/// With no length set, every entry counts.
pub proof fn lemma_nones_all(gs: Seq<Option<usize>>)
    requires
        forall|k: int| 0 <= k < gs.len() ==> (#[trigger] gs[k]) is None,
    ensures
        nones(gs) == gs.len(),
    decreases gs.len(),
{
    if gs.len() > 0 {
        assert(gs[gs.len() - 1] is None);
        lemma_nones_all(gs.drop_last());
    }
}

/// An entry with no length makes the count positive.
pub proof fn lemma_nones_pos(gs: Seq<Option<usize>>, x: int)
    requires
        0 <= x < gs.len(),
        gs[x] is None,
    ensures
        nones(gs) >= 1,
    decreases gs.len(),
{
    if x < gs.len() - 1 {
        lemma_nones_pos(gs.drop_last(), x);
    }
}

/// Marking an unmarked entry leaves one fewer unmarked.
pub proof fn lemma_nones_update(gs: Seq<Option<usize>>, x: int, v: usize)
    requires
        0 <= x < gs.len(),
        gs[x] is None,
    ensures
        nones(gs.update(x, Some(v))) + 1 == nones(gs),
    decreases gs.len(),
{
    if x < gs.len() - 1 {
        assert(gs.update(x, Some(v)).drop_last() =~= gs.drop_last().update(x, Some(v)));
        lemma_nones_update(gs.drop_last(), x, v);
    } else {
        assert(gs.update(x, Some(v)).drop_last() =~= gs.drop_last());
    }
}

/// Changing a marked entry keeps the number of unmarked ones.
pub proof fn lemma_nones_keep(gs: Seq<Option<usize>>, x: int, v: usize)
    requires
        0 <= x < gs.len(),
        gs[x] is Some,
    ensures
        nones(gs.update(x, Some(v))) == nones(gs),
    decreases gs.len(),
{
    if x < gs.len() - 1 {
        assert(gs.update(x, Some(v)).drop_last() =~= gs.drop_last().update(x, Some(v)));
        lemma_nones_keep(gs.drop_last(), x, v);
    } else {
        assert(gs.update(x, Some(v)).drop_last() =~= gs.drop_last());
    }
}

/// The state of the search for example words: the lengths found, the map of
/// recorded bodies, and the queue.
pub open spec fn gen_search_ok(
    gs: Seq<Option<usize>>,
    pq: Map<(usize, usize, usize, usize), usize>,
    map: Map<(usize, usize, usize), Seq<IntersectionSymbolIndex>>,
    g: Seq<Seq<Seq<SymbolIndex>>>,
    dfa: DFA,
    nt: nat,
    n: nat,
    nv: nat,
) -> bool {
    &&& gs.len() == n * n * nv + 1
    &&& map_ok(map, g, dfa, nt)
    &&& forall|p: usize, v: usize, q: usize|
        p < n && q < n && v < nv && (#[trigger] gs[tri(n, p as int, v as int, q as int)]) is Some ==> map.contains_key((p, v, q))
    &&& pq.dom().finite()
    &&& forall|e: (usize, usize, usize, usize)| #[trigger] pq.contains_key(e) ==> {
        &&& e.0 < n
        &&& e.2 < n
        &&& e.1 < nv
        &&& e.3 == tri(n, e.0 as int, e.1 as int, e.2 as int)
        &&& gs[e.3 as int] is Some
    }
}

/// Records `body` for the intersection variable `(p, a, r)`; tells whether it
/// is the start variable between the start state and an accepting state, and
/// otherwise marks it with `length` and queues it.
fn record(
    gs: &mut Vec<Option<usize>>,
    pq: &mut LengthQueue,
    map: &mut GenerationMap,
    finals: &Vec<bool>,
    p: usize,
    a: usize,
    r: usize,
    body: Vec<IntersectionSymbolIndex>,
    length: usize,
    use_push: bool,
    n: usize,
    nv: usize,
    start_state: usize,
    start_symbol: usize,
    Ghost(g): Ghost<Seq<Seq<Seq<SymbolIndex>>>>,
    Ghost(dfa): Ghost<DFA>,
    Ghost(nt): Ghost<nat>,
) -> (found: bool)
    requires
        gen_search_ok(old(gs)@, old(pq)@, old(map)@, g, dfa, nt, n as nat, nv as nat),
        finals_ok(finals@, dfa),
        dfa.wf(),
        n == dfa.n(),
        nv == g.len(),
        start_state == dfa.start_state,
        n * n * nv < usize::MAX,
        p < n,
        r < n,
        a < nv,
        entry_ok(g, dfa, nt, (p, a, r), body@),
        forall|i: int| 0 <= i < body@.len() ==> has_entry(old(map)@, #[trigger] body@[i]),
        use_push ==> old(gs)@[tri(n as nat, p as int, a as int, r as int)] is None,
    ensures
        gen_search_ok(final(gs)@, final(pq)@, final(map)@, g, dfa, nt, n as nat, nv as nat),
        final(map)@.contains_key((p, a, r)),
        final(map)@.dom() == old(map)@.dom().insert((p, a, r)),
        final(map)@ == old(map)@.insert((p, a, r), body@),
        !found && (forall|k: (usize, usize, usize)| #[trigger] old(map)@.contains_key(k) ==> k.0 < n && k.2 < n && k.1 < nv
            && old(gs)@[tri(n as nat, k.0 as int, k.1 as int, k.2 as int)] is Some) ==> forall|k: (usize, usize, usize)|
            #[trigger] final(map)@.contains_key(k) ==> k.0 < n && k.2 < n && k.1 < nv && final(gs)@[tri(n as nat, k.0 as int, k.1 as int, k.2 as int)] is Some,
        found ==> exists|f: usize| dfa.accept_states@.contains(f) && #[trigger] final(map)@.contains_key((dfa.start_state, start_symbol, f)),
        !found && old(gs)@[tri(n as nat, p as int, a as int, r as int)] is None ==> 2 * nones(final(gs)@) + final(pq)@.dom().len()
            < 2 * nones(old(gs)@) + old(pq)@.dom().len(),
        found <==> (p == start_state && a == start_symbol && finals@[r as int]),
        found ==> final(gs)@ == old(gs)@ && final(pq)@ == old(pq)@,
        !found ==> final(gs)@ == old(gs)@.update(tri(n as nat, p as int, a as int, r as int), Some(length))
            && final(pq)@.dom() == old(pq)@.dom().insert((p, a, r, tri(n as nat, p as int, a as int, r as int) as usize)),
        !found && old(gs)@[tri(n as nat, p as int, a as int, r as int)] is None ==> nones(final(gs)@) + 1 == nones(old(gs)@)
            && final(pq)@.dom().len() == old(pq)@.dom().len() + 1,
        !found && old(gs)@[tri(n as nat, p as int, a as int, r as int)] is Some && old(pq)@.contains_key((p, a, r, tri(n as nat, p as int, a as int, r as int) as usize))
            ==> nones(final(gs)@) == nones(old(gs)@) && final(pq)@.dom().len() == old(pq)@.dom().len(),
        start_symbol < nv && no_final_marked(marks(old(gs)@), dfa, n as nat, start_symbol) ==> no_final_marked(marks(final(gs)@), dfa, n as nat, start_symbol),
{
    let x = tri_index(n, nv, p, a, r);
    proof {
        lemma_tri_bound(n as nat, nv as nat, p as int, a as int, r as int);
    }
    let ghost m0 = map@;
    map.insert((p, a, r), body);
    proof {
        assert(map@.dom() =~= m0.dom().insert((p, a, r)));
        assert forall|k: (usize, usize, usize)| #[trigger] map@.contains_key(k) implies entry_ok(g, dfa, nt, k, map@[k]) && forall|i: int|
            0 <= i < map@[k].len() ==> has_entry(map@, #[trigger] map@[k][i]) by {
            if k == (p, a, r) {
                assert forall|i: int| 0 <= i < map@[k].len() implies has_entry(map@, #[trigger] map@[k][i]) by {
                    assert(has_entry(m0, body@[i]));
                }
            } else {
                assert forall|i: int| 0 <= i < map@[k].len() implies has_entry(map@, #[trigger] map@[k][i]) by {
                    assert(has_entry(m0, m0[k][i]));
                }
            }
        }
    }
    if p == start_state && a == start_symbol && finals[r] {
        proof {
            assert(dfa.accept_states@.contains(r));
            assert(map@.contains_key((start_state, start_symbol, r)));
        }
        return true;
    }
    let ghost gs0 = gs@;
    let ghost pq0 = pq@;
    let was_none = gs[x].is_none();
    gs.set(x, Some(length));
    if use_push {
        pq.push((p, a, r, x), length);
    } else {
        pq.push_increase((p, a, r, x), length);
    }
    proof {
        if was_none {
            lemma_nones_update(gs0, x as int, length);
            assert(!pq0.contains_key((p, a, r, x)));
            assert(pq@.dom() =~= pq0.dom().insert((p, a, r, x)));
        } else {
            lemma_nones_keep(gs0, x as int, length);
        }
        assert(pq@.dom() =~= pq0.dom().insert((p, a, r, x)));
        if !was_none && pq0.contains_key((p, a, r, x)) {
            assert(pq@.dom() =~= pq0.dom());
        }
        if forall|k: (usize, usize, usize)| #[trigger] m0.contains_key(k) ==> k.0 < n && k.2 < n && k.1 < nv
            && gs0[tri(n as nat, k.0 as int, k.1 as int, k.2 as int)] is Some {
            assert forall|k: (usize, usize, usize)| #[trigger] map@.contains_key(k) implies k.0 < n && k.2 < n && k.1 < nv
                && gs@[tri(n as nat, k.0 as int, k.1 as int, k.2 as int)] is Some by {
                if k != (p, a, r) {
                    assert(m0.contains_key(k));
                    lemma_tri_bound(n as nat, nv as nat, k.0 as int, k.1 as int, k.2 as int);
                }
            }
        }
        if start_symbol < nv && no_final_marked(marks(gs0), dfa, n as nat, start_symbol) {
            assert forall|f: usize| f < n && #[trigger] dfa.accept_states@.contains(f)
                implies !marks(gs@)[tri(n as nat, dfa.start_state as int, start_symbol as int, f as int)] by {
                lemma_tri_bound(n as nat, nv as nat, dfa.start_state as int, start_symbol as int, f as int);
                assert(!marks(gs0)[tri(n as nat, dfa.start_state as int, start_symbol as int, f as int)]);
                if tri(n as nat, dfa.start_state as int, start_symbol as int, f as int) == x {
                    lemma_tri_injective(n as nat, dfa.start_state as int, start_symbol as int, f as int, p as int, a as int, r as int);
                    assert(finals@[r as int]);
                }
            }
        }
        assert forall|p2: usize, v2: usize, q2: usize|
            p2 < n && q2 < n && v2 < nv && (#[trigger] gs@[tri(n as nat, p2 as int, v2 as int, q2 as int)]) is Some implies map@.contains_key((p2, v2, q2)) by {
            lemma_tri_bound(n as nat, nv as nat, p2 as int, v2 as int, q2 as int);
            if tri(n as nat, p2 as int, v2 as int, q2 as int) == x {
                lemma_tri_injective(n as nat, p2 as int, v2 as int, q2 as int, p as int, a as int, r as int);
            } else {
                assert(gs0[tri(n as nat, p2 as int, v2 as int, q2 as int)] is Some);
            }
        }
        assert forall|e: (usize, usize, usize, usize)| #[trigger] pq@.contains_key(e) implies {
            &&& e.0 < n
            &&& e.2 < n
            &&& e.1 < nv
            &&& e.3 == tri(n as nat, e.0 as int, e.1 as int, e.2 as int)
            &&& gs@[e.3 as int] is Some
        } by {
            if e != (p, a, r, x) {
                assert(pq0.contains_key(e));
                lemma_tri_bound(n as nat, nv as nat, e.0 as int, e.1 as int, e.2 as int);
            }
        }
    }
    false
}

} // verus!

verus! {

/// `len` entries with no length.
pub fn all_none(len: usize) -> (r: Vec<Option<usize>>)
    ensures
        r@.len() == len,
        forall|k: int| 0 <= k < len ==> (#[trigger] r@[k]) is None,
{
    let mut r: Vec<Option<usize>> = Vec::new();
    let mut i: usize = 0;
    while i < len
        invariant
            i <= len,
            r@.len() == i,
            forall|k: int| 0 <= k < i ==> (#[trigger] r@[k]) is None,
        decreases len - i,
    {
        r.push(None);
        i = i + 1;
    }
    r
}

/// The body of one intersection symbol.
pub fn isym_body_one(s: IntersectionSymbolIndex) -> (b: Vec<IntersectionSymbolIndex>)
    ensures
        b@ == seq![s],
{
    let mut b: Vec<IntersectionSymbolIndex> = Vec::new();
    b.push(s);
    assert(b@ =~= seq![s]);
    b
}

/// The body of two intersection symbols.
pub fn isym_body_two(s: IntersectionSymbolIndex, t: IntersectionSymbolIndex) -> (b: Vec<IntersectionSymbolIndex>)
    ensures
        b@ == seq![s, t],
{
    let mut b: Vec<IntersectionSymbolIndex> = Vec::new();
    b.push(s);
    b.push(t);
    assert(b@ =~= seq![s, t]);
    b
}

impl CFG {
    /// Searches the variables `(p, v, q)` of the intersection with `dfa` that
    /// derive a word, shortest words first, recording for each one body that
    /// derives it, and stops as soon as `(start state, start variable,
    /// accepting state)` is found. Returns whether it found none (also after
    /// `timeout`, or once the search has grown past its bounds) and the
    /// recorded bodies.
    pub fn _find_generating_word(&self, dfa: &DFA, timeout: Option<core::time::Duration>) -> (r: (bool, GenerationMap))
        requires
            self.wf(),
            dfa.wf(),
            dfa.alphabet@.len() <= self.nt(),
            dfa.n() * dfa.n() * self.productions@.len() < usize::MAX,
        ensures
            map_ok(r.1@, self.g(), *dfa, self.nt()),
            ranked(r.1@),
            !r.0 ==> start_recorded(r.1@, *dfa, self.start_symbol),
            r.0 && timeout is None && binary_form(self.g())
                && crate::cfg::intersection::generating_triples(self.g(), *dfa, dfa.n(), self.productions@.len() as nat) <= 64_000_000
                ==> !crate::cfg::intersection::intersection_nonempty(self.g(), self.start_symbol, *dfa),
    {
        let ghost g = self.g();
        let ghost nt = self.nt();
        let states_len = dfa.states.len();
        let nonterminals_len = self.productions.len();
        let ghost n = states_len as nat;
        let ghost nv = nonterminals_len as nat;
        let dfa_start_state = dfa.start_state;
        let cfg_start_symbol = self.start_symbol;
        let dfa_final_states = crate::cfg::intersection::final_flags(dfa);
        proof {
            assert(n * n <= n * n * nv) by (nonlinear_arith)
                requires
                    nv >= 1,
            ;
        }
        let new_non_terminals = states_len * states_len * nonterminals_len + 1;
        let mut to_process = LengthQueue::with_capacity(new_non_terminals);
        let mut generating_symbols = all_none(new_non_terminals);
        let mut generation_map = GenerationMap::new();
        let ghost mut rk: Map<(usize, usize, usize), nat> = Map::empty();
        let ghost mut counter: nat = 0;
        proof {
            assert(to_process@.dom() =~= Set::<(usize, usize, usize, usize)>::empty());
            assert forall|p: usize, v: usize, q: usize|
                p < n && q < n && v < nv && (#[trigger] generating_symbols@[tri(n, p as int, v as int, q as int)]) is Some implies generation_map@.contains_key((p, v, q)) by {
                lemma_tri_bound(n, nv, p as int, v as int, q as int);
            }
        }
        let trans_exists = crate::cfg::intersection::transitions_by_symbol(dfa, self.terminals.len());
        let (single_production_map, two_production_map_r, two_production_map_l) = self.production_maps();
        proof {
            assert forall|a: int, j: int, k: int| 0 <= a < g.len() && 0 <= j < g[a].len() && 0 <= k < g[a][j].len()
                implies (#[trigger] g[a][j][k] matches SymbolIndex::VariableIndex(v) ==> v < g.len()) by {
                assert(symbol_in(g, self.nt(), g[a][j][k]));
            }
            lemma_nones_all(generating_symbols@);
            assert(queued(to_process@) =~= Seq::<(usize, usize, usize, usize)>::empty());
            assert forall|a: int, j: int, p: usize, q: usize| 0 <= a < g.len() && 0 <= j < g[a].len() && p < n && q < n
                implies #[trigger] unit_at(marks(generating_symbols@), queued(to_process@), None, g, n, a, j, p, q) by {
                let body = g[a][j];
                if body.len() == 1 && body[0] is VariableIndex {
                    assert(symbol_in(g, self.nt(), g[a][j][0]));
                    lemma_tri_bound(n, nv, p as int, body[0]->VariableIndex_0 as int, q as int);
                }
            }
            assert forall|a: int, j: int, p: usize, q: usize, r: usize| 0 <= a < g.len() && 0 <= j < g[a].len() && p < n && q < n && r < n
                implies #[trigger] pair_at(marks(generating_symbols@), queued(to_process@), None, g, n, a, j, p, q, r) by {
                let body = g[a][j];
                if body.len() == 2 && body[0] is VariableIndex && body[1] is VariableIndex {
                    assert(symbol_in(g, self.nt(), g[a][j][0]));
                    lemma_tri_bound(n, nv, p as int, body[0]->VariableIndex_0 as int, q as int);
                }
            }
            assert forall|f: usize| f < n && #[trigger] dfa.accept_states@.contains(f)
                implies !marks(generating_symbols@)[tri(n, dfa.start_state as int, cfg_start_symbol as int, f as int)] by {
                lemma_tri_bound(n, nv, dfa.start_state as int, cfg_start_symbol as int, f as int);
            }
            assert forall|p2: usize, v2: usize, q2: usize| p2 < n && q2 < n && v2 < nv && (#[trigger] generating_symbols@[tri(n, p2 as int, v2 as int, q2 as int)]) is Some
                implies to_process@.contains_key((p2, v2, q2, tri(n, p2 as int, v2 as int, q2 as int) as usize)) by {
                lemma_tri_bound(n, nv, p2 as int, v2 as int, q2 as int);
            }
        }
        let mut a_symbol: usize = 0;
        while a_symbol < nonterminals_len
            invariant
                self.wf(),
                g == self.g(),
                nt == self.nt(),
                dfa.wf(),
                n == dfa.n(),
                states_len == n,
                nv == g.len(),
                nonterminals_len == nv,
                dfa_start_state == dfa.start_state,
                cfg_start_symbol == self.start_symbol,
                n * n * nv < usize::MAX,
                a_symbol <= nonterminals_len,
                finals_ok(dfa_final_states@, *dfa),
                gen_search_ok(generating_symbols@, to_process@, generation_map@, g, *dfa, nt, n, nv),
                ranks_ok(generation_map@, rk),
                forall|k: (usize, usize, usize)| #[trigger] rk.contains_key(k) ==> generation_map@.contains_key(k),
                forall|k: (usize, usize, usize)| #[trigger] rk.contains_key(k) ==> rk[k] < counter,
                forall|k: (usize, usize, usize)| #[trigger] generation_map@.contains_key(k) ==> k.0 < n && k.2 < n && k.1 < nv && generating_symbols@[tri(n, k.0 as int, k.1 as int, k.2 as int)] is Some,
                variables_in(g),
                cfg_start_symbol < nv,
                closed(marks(generating_symbols@), queued(to_process@), None, g, n),
                no_final_marked(marks(generating_symbols@), *dfa, n, cfg_start_symbol),
                !marks(generating_symbols@)[(n * n * nv) as int],
                nones(generating_symbols@) + to_process@.dom().len() == generating_symbols@.len(),
                forall|p2: usize, v2: usize, q2: usize| p2 < n && q2 < n && v2 < nv && (#[trigger] generating_symbols@[tri(n, p2 as int, v2 as int, q2 as int)]) is Some ==> to_process@.contains_key((p2, v2, q2, tri(n, p2 as int, v2 as int, q2 as int) as usize)),
                forall|o: usize, p2: usize| p2 < n && #[trigger] dfa.step(p2, o) is Some ==> o < self.nt() && trans_exists@[o as int]@.contains((p2, dfa.step(p2, o)->0)),
                forall|a2: int, j2: int, p2: usize| 0 <= a2 < a_symbol && 0 <= j2 < g[a2].len() && p2 < n ==> #[trigger] init_at(marks(generating_symbols@), g, *dfa, n, a2, j2, p2),
                trans_exists@.len() == self.nt(),
                forall|o: int, p2: usize, q: usize| 0 <= o < self.nt() && #[trigger] trans_exists@[o]@.contains((p2, q)) ==> p2 < n && dfa.step(p2, o as usize) == Some(q),
            decreases nonterminals_len - a_symbol,
        {
            let rules = &self.productions[a_symbol];
            let mut j: usize = 0;
            while j < rules.len()
                invariant
                    self.wf(),
                    g == self.g(),
                    nt == self.nt(),
                    dfa.wf(),
                    n == dfa.n(),
                    states_len == n,
                    nv == g.len(),
                    nonterminals_len == nv,
                    dfa_start_state == dfa.start_state,
                    cfg_start_symbol == self.start_symbol,
                    n * n * nv < usize::MAX,
                    a_symbol < nonterminals_len,
                    rules@ == self.productions@[a_symbol as int]@,
                    j <= rules@.len(),
                    finals_ok(dfa_final_states@, *dfa),
                    gen_search_ok(generating_symbols@, to_process@, generation_map@, g, *dfa, nt, n, nv),
                    ranks_ok(generation_map@, rk),
                    forall|k: (usize, usize, usize)| #[trigger] rk.contains_key(k) ==> generation_map@.contains_key(k),
                    forall|k: (usize, usize, usize)| #[trigger] rk.contains_key(k) ==> rk[k] < counter,
                    forall|k: (usize, usize, usize)| #[trigger] generation_map@.contains_key(k) ==> k.0 < n && k.2 < n && k.1 < nv && generating_symbols@[tri(n, k.0 as int, k.1 as int, k.2 as int)] is Some,
                    variables_in(g),
                    cfg_start_symbol < nv,
                    closed(marks(generating_symbols@), queued(to_process@), None, g, n),
                    no_final_marked(marks(generating_symbols@), *dfa, n, cfg_start_symbol),
                    !marks(generating_symbols@)[(n * n * nv) as int],
                    nones(generating_symbols@) + to_process@.dom().len() == generating_symbols@.len(),
                    forall|p2: usize, v2: usize, q2: usize| p2 < n && q2 < n && v2 < nv && (#[trigger] generating_symbols@[tri(n, p2 as int, v2 as int, q2 as int)]) is Some ==> to_process@.contains_key((p2, v2, q2, tri(n, p2 as int, v2 as int, q2 as int) as usize)),
                    forall|o: usize, p2: usize| p2 < n && #[trigger] dfa.step(p2, o) is Some ==> o < self.nt() && trans_exists@[o as int]@.contains((p2, dfa.step(p2, o)->0)),
                    forall|a2: int, j2: int, p2: usize| 0 <= a2 < a_symbol && 0 <= j2 < g[a2].len() && p2 < n ==> #[trigger] init_at(marks(generating_symbols@), g, *dfa, n, a2, j2, p2),
                    forall|j2: int, p2: usize| 0 <= j2 < j && p2 < n ==> #[trigger] init_at(marks(generating_symbols@), g, *dfa, n, a_symbol as int, j2, p2),
                    trans_exists@.len() == self.nt(),
                    forall|o: int, p2: usize, q: usize| 0 <= o < self.nt() && #[trigger] trans_exists@[o]@.contains((p2, q)) ==> p2 < n && dfa.step(p2, o as usize) == Some(q),
                decreases rules@.len() - j,
            {
                let production = &rules[j];
                assert(production@ == g[a_symbol as int][j as int]);
                if production.len() == 1 {
                    assert(symbol_in(g, self.nt(), g[a_symbol as int][j as int][0]));
                    match production[0] {
                        SymbolIndex::TerminalIndex(terminal_index) => {
                            proof {
                                assert(production@ =~= seq![SymbolIndex::TerminalIndex(terminal_index)]);
                            }
                            let pairs = trans_exists[terminal_index].to_vec();
                            let mut k: usize = 0;
                            while k < pairs.len()
                                invariant
                                    g == self.g(),
                                    nt == self.nt(),
                                    dfa.wf(),
                                    n == dfa.n(),
                                    states_len == n,
                                    nv == g.len(),
                                    nonterminals_len == nv,
                                    dfa_start_state == dfa.start_state,
                                    cfg_start_symbol == self.start_symbol,
                                    n * n * nv < usize::MAX,
                                    a_symbol < nv,
                                    j < g[a_symbol as int].len(),
                                    g[a_symbol as int][j as int] == seq![SymbolIndex::TerminalIndex(terminal_index)],
                                    terminal_index < self.nt(),
                                    trans_exists@.len() == self.nt(),
                                    forall|o: int, p2: usize, q: usize| 0 <= o < self.nt() && #[trigger] trans_exists@[o]@.contains((p2, q)) ==> p2 < n && dfa.step(p2, o as usize) == Some(q),
                                    pairs@.to_set() == trans_exists@[terminal_index as int]@,
                                    k <= pairs@.len(),
                                    finals_ok(dfa_final_states@, *dfa),
                                    gen_search_ok(generating_symbols@, to_process@, generation_map@, g, *dfa, nt, n, nv),
                                    ranks_ok(generation_map@, rk),
                                    forall|k: (usize, usize, usize)| #[trigger] rk.contains_key(k) ==> generation_map@.contains_key(k),
                                    forall|k: (usize, usize, usize)| #[trigger] rk.contains_key(k) ==> rk[k] < counter,
                                    forall|k: (usize, usize, usize)| #[trigger] generation_map@.contains_key(k) ==> k.0 < n && k.2 < n && k.1 < nv && generating_symbols@[tri(n, k.0 as int, k.1 as int, k.2 as int)] is Some,
                                    variables_in(g),
                                    cfg_start_symbol < nv,
                                    closed(marks(generating_symbols@), queued(to_process@), None, g, n),
                                    no_final_marked(marks(generating_symbols@), *dfa, n, cfg_start_symbol),
                                    !marks(generating_symbols@)[(n * n * nv) as int],
                                    nones(generating_symbols@) + to_process@.dom().len() == generating_symbols@.len(),
                                    forall|p2: usize, v2: usize, q2: usize| p2 < n && q2 < n && v2 < nv && (#[trigger] generating_symbols@[tri(n, p2 as int, v2 as int, q2 as int)]) is Some ==> to_process@.contains_key((p2, v2, q2, tri(n, p2 as int, v2 as int, q2 as int) as usize)),
                                    forall|o: usize, p2: usize| p2 < n && #[trigger] dfa.step(p2, o) is Some ==> o < self.nt() && trans_exists@[o as int]@.contains((p2, dfa.step(p2, o)->0)),
                                    forall|a2: int, j2: int, p2: usize| 0 <= a2 < a_symbol && 0 <= j2 < g[a2].len() && p2 < n ==> #[trigger] init_at(marks(generating_symbols@), g, *dfa, n, a2, j2, p2),
                                    forall|j2: int, p2: usize| 0 <= j2 < j && p2 < n ==> #[trigger] init_at(marks(generating_symbols@), g, *dfa, n, a_symbol as int, j2, p2),
                                    forall|k2: int| 0 <= k2 < k ==> #[trigger] marks(generating_symbols@)[tri(n, pairs@[k2].0 as int, a_symbol as int, pairs@[k2].1 as int)],
                                decreases pairs@.len() - k,
                            {
                                let (pp, qq) = pairs[k];
                                proof {
                                    assert(pairs@.to_set().contains(pairs@[k as int]));
                                    assert(trans_exists@[terminal_index as int]@.contains((pp, qq)));
                                    dfa.lemma_run_in_range(pp, seq![terminal_index]);
                                    assert(seq![terminal_index].drop_last() =~= Seq::<usize>::empty());
                                    assert(dfa.run(pp, Seq::<usize>::empty()) == Some(pp));
                                }
                                let new_symbol_index = tri_index(states_len, nonterminals_len, pp, a_symbol, qq);
                                if generating_symbols[new_symbol_index].is_none() {
                                    let body = isym_body_one(IntersectionSymbolIndex::TerminalIndex(terminal_index));
                                    proof {
                                        assert(terminal_entry(g, *dfa, nt, pp, a_symbol, qq, body@));
                                    }
                                    let rec_len: usize = 1;
                                    let ghost gs0 = generating_symbols@;
                                    let ghost pq0 = to_process@;
                                    let ghost mp0 = generation_map@;
                                    let ghost bd = body@;
                                    let found = record(&mut generating_symbols, &mut to_process, &mut generation_map, &dfa_final_states, pp, a_symbol, qq, body, rec_len, true, states_len, nonterminals_len, dfa_start_state, cfg_start_symbol, Ghost(g), Ghost(*dfa), Ghost(nt));
                                    proof {
                                        lemma_rank_record(mp0, generation_map@, rk, counter, (pp, a_symbol, qq), bd);
                                        if !mp0.contains_key((pp, a_symbol, qq)) {
                                            rk = rk.insert((pp, a_symbol, qq), counter);
                                            counter = counter + 1;
                                        }
                                    }
                                    if found {
                                        proof {
                                            let f = choose|f: usize| dfa.accept_states@.contains(f) && #[trigger] generation_map@.contains_key((dfa.start_state, cfg_start_symbol, f));
                                            assert(generation_map@.contains_key((dfa.start_state, self.start_symbol, f)));
    assert(dfa.accept_states@.contains(f));
    assert(start_recorded(generation_map@, *dfa, self.start_symbol));
                                        }
                                        return (false, generation_map);
                                    }
                                    proof {
                                        lemma_record_step(gs0, pq0, generating_symbols@, to_process@, None, g, *dfa, n, pp, a_symbol, qq, rec_len);
                                        assert forall|p2: usize, v2: usize, q2: usize| p2 < n && q2 < n && v2 < nv && (#[trigger] generating_symbols@[tri(n, p2 as int, v2 as int, q2 as int)]) is Some
                                            implies to_process@.contains_key((p2, v2, q2, tri(n, p2 as int, v2 as int, q2 as int) as usize)) by {
                                            lemma_tri_bound(n, nv, p2 as int, v2 as int, q2 as int);
                                            lemma_tri_bound(n, nv, pp as int, a_symbol as int, qq as int);
                                            if tri(n, p2 as int, v2 as int, q2 as int) == tri(n, pp as int, a_symbol as int, qq as int) {
                                                lemma_tri_injective(n, p2 as int, v2 as int, q2 as int, pp as int, a_symbol as int, qq as int);
                                            } else {
                                                assert(gs0[tri(n, p2 as int, v2 as int, q2 as int)] is Some);
                                                assert(pq0.contains_key((p2, v2, q2, tri(n, p2 as int, v2 as int, q2 as int) as usize)));
                                            }
                                        }
                                    }
                                }
                                proof {
                                    lemma_tri_bound(n, nv, pp as int, a_symbol as int, qq as int);
                                    assert(marks(generating_symbols@)[tri(n, pp as int, a_symbol as int, qq as int)]);
                                    assert forall|k2: int| 0 <= k2 < k + 1 implies #[trigger] marks(generating_symbols@)[tri(n, pairs@[k2].0 as int, a_symbol as int, pairs@[k2].1 as int)] by {
                                        if k2 < k {
                                            assert(pairs@.to_set().contains(pairs@[k2]));
                                            assert(trans_exists@[terminal_index as int]@.contains(pairs@[k2]));
                                            lemma_tri_bound(n, nv, pairs@[k2].0 as int, a_symbol as int, pairs@[k2].1 as int);
                                        }
                                    }
                                }
                                k = k + 1;
                            }
                            proof {
                                assert forall|p2: usize| p2 < n implies #[trigger] init_at(marks(generating_symbols@), g, *dfa, n, a_symbol as int, j as int, p2) by {
                                    if dfa.step(p2, terminal_index) is Some {
                                        let q2 = dfa.step(p2, terminal_index)->0;
                                        assert(trans_exists@[terminal_index as int]@.contains((p2, q2)));
                                        assert(pairs@.to_set().contains((p2, q2)));
                                        assert(pairs@.contains((p2, q2)));
                                        let k2 = choose|k2: int| 0 <= k2 < pairs@.len() && pairs@[k2] == (p2, q2);
                                        assert(marks(generating_symbols@)[tri(n, pairs@[k2].0 as int, a_symbol as int, pairs@[k2].1 as int)]);
                                    }
                                }
                            }
                        },
                        _ => {},
                    }
                } else if production.len() == 0 {
                    let mut pp: usize = 0;
                    while pp < states_len
                        invariant
                            g == self.g(),
                            nt == self.nt(),
                            dfa.wf(),
                            n == dfa.n(),
                            states_len == n,
                            nv == g.len(),
                            nonterminals_len == nv,
                            dfa_start_state == dfa.start_state,
                            cfg_start_symbol == self.start_symbol,
                            n * n * nv < usize::MAX,
                            a_symbol < nv,
                            j < g[a_symbol as int].len(),
                            g[a_symbol as int][j as int].len() == 0,
                            pp <= states_len,
                            finals_ok(dfa_final_states@, *dfa),
                            gen_search_ok(generating_symbols@, to_process@, generation_map@, g, *dfa, nt, n, nv),
                            ranks_ok(generation_map@, rk),
                            forall|k: (usize, usize, usize)| #[trigger] rk.contains_key(k) ==> generation_map@.contains_key(k),
                            forall|k: (usize, usize, usize)| #[trigger] rk.contains_key(k) ==> rk[k] < counter,
                            forall|k: (usize, usize, usize)| #[trigger] generation_map@.contains_key(k) ==> k.0 < n && k.2 < n && k.1 < nv && generating_symbols@[tri(n, k.0 as int, k.1 as int, k.2 as int)] is Some,
                            variables_in(g),
                            cfg_start_symbol < nv,
                            closed(marks(generating_symbols@), queued(to_process@), None, g, n),
                            no_final_marked(marks(generating_symbols@), *dfa, n, cfg_start_symbol),
                            !marks(generating_symbols@)[(n * n * nv) as int],
                            nones(generating_symbols@) + to_process@.dom().len() == generating_symbols@.len(),
                            forall|p2: usize, v2: usize, q2: usize| p2 < n && q2 < n && v2 < nv && (#[trigger] generating_symbols@[tri(n, p2 as int, v2 as int, q2 as int)]) is Some ==> to_process@.contains_key((p2, v2, q2, tri(n, p2 as int, v2 as int, q2 as int) as usize)),
                            forall|o: usize, p2: usize| p2 < n && #[trigger] dfa.step(p2, o) is Some ==> o < self.nt() && trans_exists@[o as int]@.contains((p2, dfa.step(p2, o)->0)),
                            forall|a2: int, j2: int, p2: usize| 0 <= a2 < a_symbol && 0 <= j2 < g[a2].len() && p2 < n ==> #[trigger] init_at(marks(generating_symbols@), g, *dfa, n, a2, j2, p2),
                            forall|j2: int, p2: usize| 0 <= j2 < j && p2 < n ==> #[trigger] init_at(marks(generating_symbols@), g, *dfa, n, a_symbol as int, j2, p2),
                            forall|p2: usize| p2 < pp ==> #[trigger] marks(generating_symbols@)[tri(n, p2 as int, a_symbol as int, p2 as int)],
                        decreases states_len - pp,
                    {
                        let symbol_index = tri_index(states_len, nonterminals_len, pp, a_symbol, pp);
                        let skip = match generating_symbols[symbol_index] {
                            Some(x) => x == 0,
                            None => false,
                        };
                        if !skip {
                            let body: Vec<IntersectionSymbolIndex> = Vec::new();
                            proof {
                                assert(empty_entry(g, pp, a_symbol, pp, body@));
                            }
                            let rec_len: usize = 0;
                            let ghost gs0 = generating_symbols@;
                            let ghost pq0 = to_process@;
                            let ghost mp0 = generation_map@;
                            let ghost bd = body@;
                            let found = record(&mut generating_symbols, &mut to_process, &mut generation_map, &dfa_final_states, pp, a_symbol, pp, body, rec_len, false, states_len, nonterminals_len, dfa_start_state, cfg_start_symbol, Ghost(g), Ghost(*dfa), Ghost(nt));
                            proof {
                                lemma_rank_record(mp0, generation_map@, rk, counter, (pp, a_symbol, pp), bd);
                                if !mp0.contains_key((pp, a_symbol, pp)) {
                                    rk = rk.insert((pp, a_symbol, pp), counter);
                                    counter = counter + 1;
                                }
                            }
                            if found {
                                proof {
                                    let f = choose|f: usize| dfa.accept_states@.contains(f) && #[trigger] generation_map@.contains_key((dfa.start_state, cfg_start_symbol, f));
                                    assert(generation_map@.contains_key((dfa.start_state, self.start_symbol, f)));
    assert(dfa.accept_states@.contains(f));
    assert(start_recorded(generation_map@, *dfa, self.start_symbol));
                                }
                                return (false, generation_map);
                            }
                            proof {
                                lemma_record_step(gs0, pq0, generating_symbols@, to_process@, None, g, *dfa, n, pp, a_symbol, pp, rec_len);
                                assert forall|p2: usize, v2: usize, q2: usize| p2 < n && q2 < n && v2 < nv && (#[trigger] generating_symbols@[tri(n, p2 as int, v2 as int, q2 as int)]) is Some
                                    implies to_process@.contains_key((p2, v2, q2, tri(n, p2 as int, v2 as int, q2 as int) as usize)) by {
                                    lemma_tri_bound(n, nv, p2 as int, v2 as int, q2 as int);
                                    lemma_tri_bound(n, nv, pp as int, a_symbol as int, pp as int);
                                    if tri(n, p2 as int, v2 as int, q2 as int) == tri(n, pp as int, a_symbol as int, pp as int) {
                                        lemma_tri_injective(n, p2 as int, v2 as int, q2 as int, pp as int, a_symbol as int, pp as int);
                                    } else {
                                        assert(gs0[tri(n, p2 as int, v2 as int, q2 as int)] is Some);
                                        assert(pq0.contains_key((p2, v2, q2, tri(n, p2 as int, v2 as int, q2 as int) as usize)));
                                    }
                                }
                            }
                        }
                        proof {
                            lemma_tri_bound(n, nv, pp as int, a_symbol as int, pp as int);
                            assert(marks(generating_symbols@)[tri(n, pp as int, a_symbol as int, pp as int)]);
                            assert forall|p2: usize| p2 < pp + 1 implies #[trigger] marks(generating_symbols@)[tri(n, p2 as int, a_symbol as int, p2 as int)] by {
                                if p2 < pp {
                                    lemma_tri_bound(n, nv, p2 as int, a_symbol as int, p2 as int);
                                }
                            }
                        }
                        pp = pp + 1;
                    }
                    proof {
                        assert forall|p2: usize| p2 < n implies #[trigger] init_at(marks(generating_symbols@), g, *dfa, n, a_symbol as int, j as int, p2) by {
                            assert(marks(generating_symbols@)[tri(n, p2 as int, a_symbol as int, p2 as int)]);
                        }
                    }
                }
                proof {
                    assert forall|j2: int, p2: usize| 0 <= j2 < j + 1 && p2 < n implies #[trigger] init_at(marks(generating_symbols@), g, *dfa, n, a_symbol as int, j2, p2) by {
                        if j2 == j {
                            let body = g[a_symbol as int][j as int];
                            if body.len() == 0 || (body.len() == 1 && body[0] is TerminalIndex) {
                                assert(init_at(marks(generating_symbols@), g, *dfa, n, a_symbol as int, j as int, p2));
                            }
                        }
                    }
                }
                j = j + 1;
            }
            a_symbol = a_symbol + 1;
        }
        let start_time = crate::clock::now();
        let mut count: usize = 0;
        while to_process.len() > 0
            invariant
                g == self.g(),
                nt == self.nt(),
                dfa.wf(),
                n == dfa.n(),
                states_len == n,
                nv == g.len(),
                nonterminals_len == nv,
                dfa_start_state == dfa.start_state,
                cfg_start_symbol == self.start_symbol,
                n * n * nv < usize::MAX,
                count <= 64_000_000,
                finals_ok(dfa_final_states@, *dfa),
                gen_search_ok(generating_symbols@, to_process@, generation_map@, g, *dfa, nt, n, nv),
                ranks_ok(generation_map@, rk),
                forall|k: (usize, usize, usize)| #[trigger] rk.contains_key(k) ==> generation_map@.contains_key(k),
                forall|k: (usize, usize, usize)| #[trigger] rk.contains_key(k) ==> rk[k] < counter,
                forall|k: (usize, usize, usize)| #[trigger] generation_map@.contains_key(k) ==> k.0 < n && k.2 < n && k.1 < nv && generating_symbols@[tri(n, k.0 as int, k.1 as int, k.2 as int)] is Some,
                variables_in(g),
                cfg_start_symbol < nv,
                closed(marks(generating_symbols@), queued(to_process@), None, g, n),
                crate::cfg::intersection::init_closed(marks(generating_symbols@), g, *dfa, n),
                no_final_marked(marks(generating_symbols@), *dfa, n, cfg_start_symbol),
                !marks(generating_symbols@)[(n * n * nv) as int],
                count + to_process@.dom().len() + nones(generating_symbols@) == generating_symbols@.len(),
                forall|a2: int, j2: int| 0 <= a2 < g.len() && 0 <= j2 < g[a2].len() ==> #[trigger] crate::cfg::intersection::listed_at(g, single_production_map@, two_production_map_r@, two_production_map_l@, a2, j2),
                production_maps_ok(g, single_production_map@, two_production_map_r@, two_production_map_l@),
            decreases 2 * nones(generating_symbols@) + to_process@.dom().len(),
        {
            let ghost pq0 = to_process@;
            let popped = to_process.pop();
            let ((p_old, b_old, q_old, _new_symbol), cur_length) = match popped {
                Some(x) => x,
                None => {
                    proof {
                        assert(pq0.dom().len() == 0);
                        lemma_queued_empty(pq0);
                        if binary_form(g) {
                            crate::cfg::intersection::lemma_closed_empty(marks(generating_symbols@), g, *dfa, n, cfg_start_symbol);
                        }
                    }
                    return (true, generation_map);
                },
            };
            let ghost t = (p_old, b_old, q_old);
            proof {
                lemma_pop_hold(marks(generating_symbols@), pq0, (p_old, b_old, q_old, _new_symbol), g, n);
                assert(pq0.contains_key((p_old, b_old, q_old, _new_symbol)));
                assert(to_process@.dom() =~= pq0.dom().remove((p_old, b_old, q_old, _new_symbol)));
                assert(generation_map@.contains_key((p_old, b_old, q_old)));
                assert forall|e: (usize, usize, usize, usize)| #[trigger] to_process@.contains_key(e) implies pq0.contains_key(e) by {}
            }
            count = count + 1;
            match timeout {
                Some(limit) => {
                    if crate::clock::elapsed_beyond(&start_time, limit) {
                        return (true, generation_map);
                    }
                },
                None => {},
            }
            if to_process.len() > 64_000_000 || count > 64_000_000 {
                proof {
                    lemma_nones_pos(generating_symbols@, (n * n * nv) as int);
                    let ms = marks(generating_symbols@);
                    assert forall|p: usize, v: usize, q: usize|
                        p < n && q < n && v < nv && #[trigger] ms[tri(n, p as int, v as int, q as int)]
                        implies crate::cfg::intersection::triple_gen(g, *dfa, p, v, q) by {
                        lemma_tri_bound(n, nv, p as int, v as int, q as int);
                        assert(generating_symbols@[tri(n, p as int, v as int, q as int)] is Some);
                        lemma_entry_generates(g, *dfa, nt, generation_map@, rk, (p, v, q));
                    }
                    lemma_nones_unmarked(generating_symbols@);
                    crate::cfg::intersection::lemma_marked_at_most_generating(ms, g, *dfa, n, nv);
                }
                return (true, generation_map);
            }
            let ghost measure0 = 2 * nones(generating_symbols@) + to_process@.dom().len();
            let ghost len0 = to_process@.dom().len();
            let ghost nones0 = nones(generating_symbols@);
            let singles = &single_production_map[b_old];
            let mut k: usize = 0;
            while k < singles.len()
                invariant
                    g == self.g(),
                    nt == self.nt(),
                    dfa.wf(),
                    n == dfa.n(),
                    states_len == n,
                    nv == g.len(),
                    nonterminals_len == nv,
                    dfa_start_state == dfa.start_state,
                    cfg_start_symbol == self.start_symbol,
                    n * n * nv < usize::MAX,
                    p_old < n,
                    q_old < n,
                    b_old < nv,
                    generation_map@.contains_key((p_old, b_old, q_old)),
                    singles@ == single_production_map@[b_old as int]@,
                    k <= singles@.len(),
                    finals_ok(dfa_final_states@, *dfa),
                    gen_search_ok(generating_symbols@, to_process@, generation_map@, g, *dfa, nt, n, nv),
                    ranks_ok(generation_map@, rk),
                    forall|k: (usize, usize, usize)| #[trigger] rk.contains_key(k) ==> generation_map@.contains_key(k),
                    forall|k: (usize, usize, usize)| #[trigger] rk.contains_key(k) ==> rk[k] < counter,
                    forall|k: (usize, usize, usize)| #[trigger] generation_map@.contains_key(k) ==> k.0 < n && k.2 < n && k.1 < nv && generating_symbols@[tri(n, k.0 as int, k.1 as int, k.2 as int)] is Some,
                    variables_in(g),
                    cfg_start_symbol < nv,
                    closed(marks(generating_symbols@), queued(to_process@), Some(t), g, n),
                    crate::cfg::intersection::init_closed(marks(generating_symbols@), g, *dfa, n),
                    no_final_marked(marks(generating_symbols@), *dfa, n, cfg_start_symbol),
                    !marks(generating_symbols@)[(n * n * nv) as int],
                    count + len0 + nones0 == generating_symbols@.len(),
                    nones(generating_symbols@) + to_process@.dom().len() == nones0 + len0,
                    t == (p_old, b_old, q_old),
                    production_maps_ok(g, single_production_map@, two_production_map_r@, two_production_map_l@),
                    forall|a2: int, j2: int| 0 <= a2 < g.len() && 0 <= j2 < g[a2].len() ==> #[trigger] crate::cfg::intersection::listed_at(g, single_production_map@, two_production_map_r@, two_production_map_l@, a2, j2),
                    forall|k2: int| 0 <= k2 < k ==> #[trigger] single_fact(marks(generating_symbols@), n, t, single_production_map@[b_old as int]@[k2]),
                    production_maps_ok(g, single_production_map@, two_production_map_r@, two_production_map_l@),
                    2 * nones(generating_symbols@) + to_process@.dom().len() <= measure0,
                decreases singles@.len() - k,
            {
                let ghost gsb = generating_symbols@;
                let ghost pqb = to_process@;
                let a_symbol = singles[k];
                let symbol_index = tri_index(states_len, nonterminals_len, p_old, a_symbol, q_old);
                if generating_symbols[symbol_index].is_none() {
                    let body = isym_body_one(IntersectionSymbolIndex::VariableIndex((p_old, b_old, q_old)));
                    proof {
                        assert(unit_entry(g, p_old, a_symbol, q_old, body@));
                    }
                    let rec_len: usize = cur_length;
                    let ghost gs0 = generating_symbols@;
                    let ghost pq0 = to_process@;
                    let ghost mp0 = generation_map@;
                    let ghost bd = body@;
                    let found = record(&mut generating_symbols, &mut to_process, &mut generation_map, &dfa_final_states, p_old, a_symbol, q_old, body, rec_len, false, states_len, nonterminals_len, dfa_start_state, cfg_start_symbol, Ghost(g), Ghost(*dfa), Ghost(nt));
                    proof {
                        lemma_rank_record(mp0, generation_map@, rk, counter, (p_old, a_symbol, q_old), bd);
                        if !mp0.contains_key((p_old, a_symbol, q_old)) {
                            rk = rk.insert((p_old, a_symbol, q_old), counter);
                            counter = counter + 1;
                        }
                    }
                    if found {
                        proof {
                            let f = choose|f: usize| dfa.accept_states@.contains(f) && #[trigger] generation_map@.contains_key((dfa.start_state, cfg_start_symbol, f));
                            assert(generation_map@.contains_key((dfa.start_state, self.start_symbol, f)));
    assert(dfa.accept_states@.contains(f));
    assert(start_recorded(generation_map@, *dfa, self.start_symbol));
                        }
                        return (false, generation_map);
                    }
                    proof {
                        lemma_record_step(gs0, pq0, generating_symbols@, to_process@, Some(t), g, *dfa, n, p_old, a_symbol, q_old, rec_len);
                        crate::cfg::intersection::lemma_facts_transfer(marks(gs0), queued(pq0), marks(generating_symbols@), queued(to_process@), g, n, t, single_production_map@, two_production_map_r@, two_production_map_l@);
                    }
                }
                proof {
                    lemma_tri_bound(n, nv, p_old as int, a_symbol as int, q_old as int);
                    assert(marks(generating_symbols@)[tri(n, p_old as int, a_symbol as int, q_old as int)]);
                    assert forall|k2: int| 0 <= k2 < k + 1 implies #[trigger] single_fact(marks(generating_symbols@), n, t, single_production_map@[b_old as int]@[k2]) by {
                        if k2 < k {
                            assert(single_fact(marks(gsb), n, t, single_production_map@[b_old as int]@[k2]));
                        }
                    }
                }
                k = k + 1;
            }
            let rights = &two_production_map_r[b_old];
            k = 0;
            while k < rights.len()
                invariant
                    g == self.g(),
                    nt == self.nt(),
                    dfa.wf(),
                    n == dfa.n(),
                    states_len == n,
                    nv == g.len(),
                    nonterminals_len == nv,
                    dfa_start_state == dfa.start_state,
                    cfg_start_symbol == self.start_symbol,
                    n * n * nv < usize::MAX,
                    p_old < n,
                    q_old < n,
                    b_old < nv,
                    generation_map@.contains_key((p_old, b_old, q_old)),
                    rights@ == two_production_map_r@[b_old as int]@,
                    k <= rights@.len(),
                    finals_ok(dfa_final_states@, *dfa),
                    gen_search_ok(generating_symbols@, to_process@, generation_map@, g, *dfa, nt, n, nv),
                    ranks_ok(generation_map@, rk),
                    forall|k: (usize, usize, usize)| #[trigger] rk.contains_key(k) ==> generation_map@.contains_key(k),
                    forall|k: (usize, usize, usize)| #[trigger] rk.contains_key(k) ==> rk[k] < counter,
                    forall|k: (usize, usize, usize)| #[trigger] generation_map@.contains_key(k) ==> k.0 < n && k.2 < n && k.1 < nv && generating_symbols@[tri(n, k.0 as int, k.1 as int, k.2 as int)] is Some,
                    variables_in(g),
                    cfg_start_symbol < nv,
                    closed(marks(generating_symbols@), queued(to_process@), Some(t), g, n),
                    crate::cfg::intersection::init_closed(marks(generating_symbols@), g, *dfa, n),
                    no_final_marked(marks(generating_symbols@), *dfa, n, cfg_start_symbol),
                    !marks(generating_symbols@)[(n * n * nv) as int],
                    count + len0 + nones0 == generating_symbols@.len(),
                    nones(generating_symbols@) + to_process@.dom().len() == nones0 + len0,
                    t == (p_old, b_old, q_old),
                    production_maps_ok(g, single_production_map@, two_production_map_r@, two_production_map_l@),
                    forall|a2: int, j2: int| 0 <= a2 < g.len() && 0 <= j2 < g[a2].len() ==> #[trigger] crate::cfg::intersection::listed_at(g, single_production_map@, two_production_map_r@, two_production_map_l@, a2, j2),
                    forall|k2: int| 0 <= k2 < single_production_map@[b_old as int]@.len() ==> #[trigger] single_fact(marks(generating_symbols@), n, t, single_production_map@[b_old as int]@[k2]),
                    forall|k2: int, r2: usize| 0 <= k2 < k && r2 < n ==> #[trigger] right_fact(marks(generating_symbols@), queued(to_process@), n, t, two_production_map_r@[b_old as int]@[k2].0, two_production_map_r@[b_old as int]@[k2].1, r2),
                    production_maps_ok(g, single_production_map@, two_production_map_r@, two_production_map_l@),
                    2 * nones(generating_symbols@) + to_process@.dom().len() <= measure0,
                decreases rights@.len() - k,
            {
                let (c_symbol, a_symbol) = rights[k];
                let mut r_old: usize = 0;
                while r_old < states_len
                    invariant
                        g == self.g(),
                        nt == self.nt(),
                        dfa.wf(),
                        n == dfa.n(),
                        states_len == n,
                        nv == g.len(),
                        nonterminals_len == nv,
                        dfa_start_state == dfa.start_state,
                        cfg_start_symbol == self.start_symbol,
                        n * n * nv < usize::MAX,
                        p_old < n,
                        q_old < n,
                        b_old < nv,
                        c_symbol < nv,
                        a_symbol < nv,
                        exists|jj: int| 0 <= jj < g[a_symbol as int].len() && #[trigger] g[a_symbol as int][jj] == seq![SymbolIndex::VariableIndex(b_old), SymbolIndex::VariableIndex(c_symbol)],
                        generation_map@.contains_key((p_old, b_old, q_old)),
                        r_old <= states_len,
                        finals_ok(dfa_final_states@, *dfa),
                        gen_search_ok(generating_symbols@, to_process@, generation_map@, g, *dfa, nt, n, nv),
                        ranks_ok(generation_map@, rk),
                        forall|k: (usize, usize, usize)| #[trigger] rk.contains_key(k) ==> generation_map@.contains_key(k),
                        forall|k: (usize, usize, usize)| #[trigger] rk.contains_key(k) ==> rk[k] < counter,
                        forall|k: (usize, usize, usize)| #[trigger] generation_map@.contains_key(k) ==> k.0 < n && k.2 < n && k.1 < nv && generating_symbols@[tri(n, k.0 as int, k.1 as int, k.2 as int)] is Some,
                        variables_in(g),
                        cfg_start_symbol < nv,
                        closed(marks(generating_symbols@), queued(to_process@), Some(t), g, n),
                        crate::cfg::intersection::init_closed(marks(generating_symbols@), g, *dfa, n),
                        no_final_marked(marks(generating_symbols@), *dfa, n, cfg_start_symbol),
                        !marks(generating_symbols@)[(n * n * nv) as int],
                        count + len0 + nones0 == generating_symbols@.len(),
                        nones(generating_symbols@) + to_process@.dom().len() == nones0 + len0,
                        t == (p_old, b_old, q_old),
                        production_maps_ok(g, single_production_map@, two_production_map_r@, two_production_map_l@),
                        forall|a2: int, j2: int| 0 <= a2 < g.len() && 0 <= j2 < g[a2].len() ==> #[trigger] crate::cfg::intersection::listed_at(g, single_production_map@, two_production_map_r@, two_production_map_l@, a2, j2),
                        forall|k2: int| 0 <= k2 < single_production_map@[b_old as int]@.len() ==> #[trigger] single_fact(marks(generating_symbols@), n, t, single_production_map@[b_old as int]@[k2]),
                        forall|k2: int, r2: usize| 0 <= k2 < k && r2 < n ==> #[trigger] right_fact(marks(generating_symbols@), queued(to_process@), n, t, two_production_map_r@[b_old as int]@[k2].0, two_production_map_r@[b_old as int]@[k2].1, r2),
                        rights@ == two_production_map_r@[b_old as int]@,
                        k < rights@.len(),
                        rights@[k as int] == (c_symbol, a_symbol),
                        forall|r2: usize| r2 < r_old ==> #[trigger] right_fact(marks(generating_symbols@), queued(to_process@), n, t, c_symbol, a_symbol, r2),
                        2 * nones(generating_symbols@) + to_process@.dom().len() <= measure0,
                    decreases states_len - r_old,
                {
                    let ghost gsb = generating_symbols@;
                    let ghost pqb = to_process@;
                    let c_symbol_index = tri_index(states_len, nonterminals_len, q_old, c_symbol, r_old);
                    match generating_symbols[c_symbol_index] {
                        Some(c_length) => {
                            let a_symbol_index = tri_index(states_len, nonterminals_len, p_old, a_symbol, r_old);
                            if generating_symbols[a_symbol_index].is_none() {
                                let body = isym_body_two(
                                    IntersectionSymbolIndex::VariableIndex((p_old, b_old, q_old)),
                                    IntersectionSymbolIndex::VariableIndex((q_old, c_symbol, r_old)),
                                );
                                proof {
                                    assert(generation_map@.contains_key((q_old, c_symbol, r_old)));
                                    assert(pair_entry(g, p_old, a_symbol, r_old, body@));
                                }
                                let rec_len: usize = c_length.saturating_add(cur_length);
                                let ghost gs0 = generating_symbols@;
                                let ghost pq0 = to_process@;
                                let ghost mp0 = generation_map@;
                                let ghost bd = body@;
                                let found = record(&mut generating_symbols, &mut to_process, &mut generation_map, &dfa_final_states, p_old, a_symbol, r_old, body, rec_len, false, states_len, nonterminals_len, dfa_start_state, cfg_start_symbol, Ghost(g), Ghost(*dfa), Ghost(nt));
                                proof {
                                    lemma_rank_record(mp0, generation_map@, rk, counter, (p_old, a_symbol, r_old), bd);
                                    if !mp0.contains_key((p_old, a_symbol, r_old)) {
                                        rk = rk.insert((p_old, a_symbol, r_old), counter);
                                        counter = counter + 1;
                                    }
                                }
                                if found {
                                    proof {
                                        let f = choose|f: usize| dfa.accept_states@.contains(f) && #[trigger] generation_map@.contains_key((dfa.start_state, cfg_start_symbol, f));
                                        assert(generation_map@.contains_key((dfa.start_state, self.start_symbol, f)));
    assert(dfa.accept_states@.contains(f));
    assert(start_recorded(generation_map@, *dfa, self.start_symbol));
                                    }
                                    return (false, generation_map);
                                }
                                proof {
                                    lemma_record_step(gs0, pq0, generating_symbols@, to_process@, Some(t), g, *dfa, n, p_old, a_symbol, r_old, rec_len);
                                    crate::cfg::intersection::lemma_facts_transfer(marks(gs0), queued(pq0), marks(generating_symbols@), queued(to_process@), g, n, t, single_production_map@, two_production_map_r@, two_production_map_l@);
                                }
                            }
                        },
                        None => {},
                    }
                    proof {
                        lemma_tri_bound(n, nv, p_old as int, a_symbol as int, r_old as int);
                        lemma_tri_bound(n, nv, q_old as int, c_symbol as int, r_old as int);
                        assert forall|r2: usize| r2 < r_old + 1 implies #[trigger] right_fact(marks(generating_symbols@), queued(to_process@), n, t, c_symbol, a_symbol, r2) by {
                            if r2 < r_old {
                                assert(right_fact(marks(gsb), queued(pqb), n, t, c_symbol, a_symbol, r2));
                            }
                        }
                    }
                    r_old = r_old + 1;
                }
                proof {
                    assert forall|k2: int, r2: usize| 0 <= k2 < k + 1 && r2 < n implies #[trigger] right_fact(marks(generating_symbols@), queued(to_process@), n, t, two_production_map_r@[b_old as int]@[k2].0, two_production_map_r@[b_old as int]@[k2].1, r2) by {
                        if k2 == k {
                            assert(right_fact(marks(generating_symbols@), queued(to_process@), n, t, c_symbol, a_symbol, r2));
                        }
                    }
                }
                k = k + 1;
            }
            let lefts = &two_production_map_l[b_old];
            k = 0;
            while k < lefts.len()
                invariant
                    g == self.g(),
                    nt == self.nt(),
                    dfa.wf(),
                    n == dfa.n(),
                    states_len == n,
                    nv == g.len(),
                    nonterminals_len == nv,
                    dfa_start_state == dfa.start_state,
                    cfg_start_symbol == self.start_symbol,
                    n * n * nv < usize::MAX,
                    p_old < n,
                    q_old < n,
                    b_old < nv,
                    generation_map@.contains_key((p_old, b_old, q_old)),
                    lefts@ == two_production_map_l@[b_old as int]@,
                    k <= lefts@.len(),
                    finals_ok(dfa_final_states@, *dfa),
                    gen_search_ok(generating_symbols@, to_process@, generation_map@, g, *dfa, nt, n, nv),
                    ranks_ok(generation_map@, rk),
                    forall|k: (usize, usize, usize)| #[trigger] rk.contains_key(k) ==> generation_map@.contains_key(k),
                    forall|k: (usize, usize, usize)| #[trigger] rk.contains_key(k) ==> rk[k] < counter,
                    forall|k: (usize, usize, usize)| #[trigger] generation_map@.contains_key(k) ==> k.0 < n && k.2 < n && k.1 < nv && generating_symbols@[tri(n, k.0 as int, k.1 as int, k.2 as int)] is Some,
                    variables_in(g),
                    cfg_start_symbol < nv,
                    closed(marks(generating_symbols@), queued(to_process@), Some(t), g, n),
                    crate::cfg::intersection::init_closed(marks(generating_symbols@), g, *dfa, n),
                    no_final_marked(marks(generating_symbols@), *dfa, n, cfg_start_symbol),
                    !marks(generating_symbols@)[(n * n * nv) as int],
                    count + len0 + nones0 == generating_symbols@.len(),
                    nones(generating_symbols@) + to_process@.dom().len() == nones0 + len0,
                    t == (p_old, b_old, q_old),
                    production_maps_ok(g, single_production_map@, two_production_map_r@, two_production_map_l@),
                    forall|a2: int, j2: int| 0 <= a2 < g.len() && 0 <= j2 < g[a2].len() ==> #[trigger] crate::cfg::intersection::listed_at(g, single_production_map@, two_production_map_r@, two_production_map_l@, a2, j2),
                    forall|k2: int| 0 <= k2 < single_production_map@[b_old as int]@.len() ==> #[trigger] single_fact(marks(generating_symbols@), n, t, single_production_map@[b_old as int]@[k2]),
                    forall|k2: int, r2: usize| 0 <= k2 < two_production_map_r@[b_old as int]@.len() && r2 < n ==> #[trigger] right_fact(marks(generating_symbols@), queued(to_process@), n, t, two_production_map_r@[b_old as int]@[k2].0, two_production_map_r@[b_old as int]@[k2].1, r2),
                    forall|k2: int, r2: usize| 0 <= k2 < k && r2 < n ==> #[trigger] left_fact(marks(generating_symbols@), queued(to_process@), n, t, two_production_map_l@[b_old as int]@[k2].0, two_production_map_l@[b_old as int]@[k2].1, r2),
                    production_maps_ok(g, single_production_map@, two_production_map_r@, two_production_map_l@),
                    2 * nones(generating_symbols@) + to_process@.dom().len() <= measure0,
                decreases lefts@.len() - k,
            {
                let (b_symbol, a_symbol) = lefts[k];
                let mut r_old: usize = 0;
                while r_old < states_len
                    invariant
                        g == self.g(),
                        nt == self.nt(),
                        dfa.wf(),
                        n == dfa.n(),
                        states_len == n,
                        nv == g.len(),
                        nonterminals_len == nv,
                        dfa_start_state == dfa.start_state,
                        cfg_start_symbol == self.start_symbol,
                        n * n * nv < usize::MAX,
                        p_old < n,
                        q_old < n,
                        b_old < nv,
                        b_symbol < nv,
                        a_symbol < nv,
                        exists|jj: int| 0 <= jj < g[a_symbol as int].len() && #[trigger] g[a_symbol as int][jj] == seq![SymbolIndex::VariableIndex(b_symbol), SymbolIndex::VariableIndex(b_old)],
                        generation_map@.contains_key((p_old, b_old, q_old)),
                        r_old <= states_len,
                        finals_ok(dfa_final_states@, *dfa),
                        gen_search_ok(generating_symbols@, to_process@, generation_map@, g, *dfa, nt, n, nv),
                        ranks_ok(generation_map@, rk),
                        forall|k: (usize, usize, usize)| #[trigger] rk.contains_key(k) ==> generation_map@.contains_key(k),
                        forall|k: (usize, usize, usize)| #[trigger] rk.contains_key(k) ==> rk[k] < counter,
                        forall|k: (usize, usize, usize)| #[trigger] generation_map@.contains_key(k) ==> k.0 < n && k.2 < n && k.1 < nv && generating_symbols@[tri(n, k.0 as int, k.1 as int, k.2 as int)] is Some,
                        variables_in(g),
                        cfg_start_symbol < nv,
                        closed(marks(generating_symbols@), queued(to_process@), Some(t), g, n),
                        crate::cfg::intersection::init_closed(marks(generating_symbols@), g, *dfa, n),
                        no_final_marked(marks(generating_symbols@), *dfa, n, cfg_start_symbol),
                        !marks(generating_symbols@)[(n * n * nv) as int],
                        count + len0 + nones0 == generating_symbols@.len(),
                        nones(generating_symbols@) + to_process@.dom().len() == nones0 + len0,
                        t == (p_old, b_old, q_old),
                        production_maps_ok(g, single_production_map@, two_production_map_r@, two_production_map_l@),
                        forall|a2: int, j2: int| 0 <= a2 < g.len() && 0 <= j2 < g[a2].len() ==> #[trigger] crate::cfg::intersection::listed_at(g, single_production_map@, two_production_map_r@, two_production_map_l@, a2, j2),
                        forall|k2: int| 0 <= k2 < single_production_map@[b_old as int]@.len() ==> #[trigger] single_fact(marks(generating_symbols@), n, t, single_production_map@[b_old as int]@[k2]),
                        forall|k2: int, r2: usize| 0 <= k2 < two_production_map_r@[b_old as int]@.len() && r2 < n ==> #[trigger] right_fact(marks(generating_symbols@), queued(to_process@), n, t, two_production_map_r@[b_old as int]@[k2].0, two_production_map_r@[b_old as int]@[k2].1, r2),
                        forall|k2: int, r2: usize| 0 <= k2 < k && r2 < n ==> #[trigger] left_fact(marks(generating_symbols@), queued(to_process@), n, t, two_production_map_l@[b_old as int]@[k2].0, two_production_map_l@[b_old as int]@[k2].1, r2),
                        lefts@ == two_production_map_l@[b_old as int]@,
                        k < lefts@.len(),
                        lefts@[k as int] == (b_symbol, a_symbol),
                        forall|r2: usize| r2 < r_old ==> #[trigger] left_fact(marks(generating_symbols@), queued(to_process@), n, t, b_symbol, a_symbol, r2),
                        2 * nones(generating_symbols@) + to_process@.dom().len() <= measure0,
                    decreases states_len - r_old,
                {
                    let ghost gsb = generating_symbols@;
                    let ghost pqb = to_process@;
                    let b_symbol_index = tri_index(states_len, nonterminals_len, r_old, b_symbol, p_old);
                    match generating_symbols[b_symbol_index] {
                        Some(b_length) => {
                            let a_symbol_index = tri_index(states_len, nonterminals_len, r_old, a_symbol, q_old);
                            if generating_symbols[a_symbol_index].is_none() {
                                let body = isym_body_two(
                                    IntersectionSymbolIndex::VariableIndex((r_old, b_symbol, p_old)),
                                    IntersectionSymbolIndex::VariableIndex((p_old, b_old, q_old)),
                                );
                                proof {
                                    assert(generation_map@.contains_key((r_old, b_symbol, p_old)));
                                    assert(pair_entry(g, r_old, a_symbol, q_old, body@));
                                }
                                let rec_len: usize = b_length.saturating_add(cur_length);
                                let ghost gs0 = generating_symbols@;
                                let ghost pq0 = to_process@;
                                let ghost mp0 = generation_map@;
                                let ghost bd = body@;
                                let found = record(&mut generating_symbols, &mut to_process, &mut generation_map, &dfa_final_states, r_old, a_symbol, q_old, body, rec_len, false, states_len, nonterminals_len, dfa_start_state, cfg_start_symbol, Ghost(g), Ghost(*dfa), Ghost(nt));
                                proof {
                                    lemma_rank_record(mp0, generation_map@, rk, counter, (r_old, a_symbol, q_old), bd);
                                    if !mp0.contains_key((r_old, a_symbol, q_old)) {
                                        rk = rk.insert((r_old, a_symbol, q_old), counter);
                                        counter = counter + 1;
                                    }
                                }
                                if found {
                                    proof {
                                        let f = choose|f: usize| dfa.accept_states@.contains(f) && #[trigger] generation_map@.contains_key((dfa.start_state, cfg_start_symbol, f));
                                        assert(generation_map@.contains_key((dfa.start_state, self.start_symbol, f)));
    assert(dfa.accept_states@.contains(f));
    assert(start_recorded(generation_map@, *dfa, self.start_symbol));
                                    }
                                    return (false, generation_map);
                                }
                                proof {
                                    lemma_record_step(gs0, pq0, generating_symbols@, to_process@, Some(t), g, *dfa, n, r_old, a_symbol, q_old, rec_len);
                                    crate::cfg::intersection::lemma_facts_transfer(marks(gs0), queued(pq0), marks(generating_symbols@), queued(to_process@), g, n, t, single_production_map@, two_production_map_r@, two_production_map_l@);
                                }
                            }
                        },
                        None => {},
                    }
                    proof {
                        lemma_tri_bound(n, nv, r_old as int, a_symbol as int, q_old as int);
                        lemma_tri_bound(n, nv, r_old as int, b_symbol as int, p_old as int);
                        assert forall|r2: usize| r2 < r_old + 1 implies #[trigger] left_fact(marks(generating_symbols@), queued(to_process@), n, t, b_symbol, a_symbol, r2) by {
                            if r2 < r_old {
                                assert(left_fact(marks(gsb), queued(pqb), n, t, b_symbol, a_symbol, r2));
                            }
                        }
                    }
                    r_old = r_old + 1;
                }
                proof {
                    assert forall|k2: int, r2: usize| 0 <= k2 < k + 1 && r2 < n implies #[trigger] left_fact(marks(generating_symbols@), queued(to_process@), n, t, two_production_map_l@[b_old as int]@[k2].0, two_production_map_l@[b_old as int]@[k2].1, r2) by {
                        if k2 == k {
                            assert(left_fact(marks(generating_symbols@), queued(to_process@), n, t, b_symbol, a_symbol, r2));
                        }
                    }
                }
                k = k + 1;
            }
            proof {
                crate::cfg::intersection::lemma_release(marks(generating_symbols@), queued(to_process@), t, g, n, single_production_map@, two_production_map_r@, two_production_map_l@);
            }
        }
        proof {
            assert(to_process@.dom().len() == 0);
            lemma_queued_empty(to_process@);
            if binary_form(g) {
                crate::cfg::intersection::lemma_closed_empty(marks(generating_symbols@), g, *dfa, n, cfg_start_symbol);
            }
        }
        (true, generation_map)
    }
}

} // verus!

verus! {

/// Whether `w` is a word that `x` stands for: the terminal itself, or a word
/// that the variable derives and that leads the automaton between its states.
pub open spec fn resolves(g: Seq<Seq<Seq<SymbolIndex>>>, dfa: DFA, x: IntersectionSymbolIndex, w: Seq<usize>) -> bool {
    match x {
        IntersectionSymbolIndex::TerminalIndex(o) => w == seq![o],
        IntersectionSymbolIndex::VariableIndex(t) => generates(g, SymbolIndex::VariableIndex(t.1), w) && dfa.run(t.0, w) == Some(t.2),
    }
}

/// Whether every word of `ws` stands for the symbol of `form` at its place.
pub open spec fn all_resolve(g: Seq<Seq<Seq<SymbolIndex>>>, dfa: DFA, form: Seq<IntersectionSymbolIndex>, ws: Seq<Seq<usize>>) -> bool {
    ws.len() == form.len() && forall|i: int| 0 <= i < form.len() ==> resolves(g, dfa, #[trigger] form[i], ws[i])
}

/// Whether the start variable derives `w` and the automaton accepts it.
pub open spec fn in_both(g: Seq<Seq<Seq<SymbolIndex>>>, dfa: DFA, start: usize, w: Seq<usize>) -> bool {
    generates(g, SymbolIndex::VariableIndex(start), w) && dfa.accepts_indices(w)
}

/// Whether every choice of words for the symbols of `form` gives a word of both languages.
pub open spec fn form_ok(g: Seq<Seq<Seq<SymbolIndex>>>, dfa: DFA, start: usize, form: Seq<IntersectionSymbolIndex>) -> bool {
    forall|ws: Seq<Seq<usize>>| #[trigger] all_resolve(g, dfa, form, ws) ==> in_both(g, dfa, start, ws.flatten())
}

/// Whether every terminal of `form` is below `nt`.
pub open spec fn terminals_below(form: Seq<IntersectionSymbolIndex>, nt: nat) -> bool {
    forall|i: int| 0 <= i < form.len() ==> (#[trigger] form[i] matches IntersectionSymbolIndex::TerminalIndex(o) ==> o < nt)
}

/// Whether every variable of `form` has an entry in the map.
pub open spec fn keyed(map: Map<(usize, usize, usize), Seq<IntersectionSymbolIndex>>, form: Seq<IntersectionSymbolIndex>) -> bool {
    forall|i: int| 0 <= i < form.len() ==> has_entry(map, #[trigger] form[i])
}

/// The words that a recorded body stands for make up a word of its variable.
pub proof fn lemma_resolve_entry(
    g: Seq<Seq<Seq<SymbolIndex>>>,
    dfa: DFA,
    nt: nat,
    t: (usize, usize, usize),
    body: Seq<IntersectionSymbolIndex>,
    mid: Seq<Seq<usize>>,
)
    requires
        entry_ok(g, dfa, nt, t, body),
        all_resolve(g, dfa, body, mid),
    ensures
        resolves(g, dfa, IntersectionSymbolIndex::VariableIndex(t), mid.flatten()),
{
    let (p, a, q) = t;
    if empty_entry(g, p, a, q, body) {
        let j = choose|j: int| 0 <= j < g[a as int].len() && #[trigger] g[a as int][j].len() == 0;
        crate::cfg::generating::lemma_empty_body_nullable(g, a as int, j);
        assert(mid =~= Seq::<Seq<usize>>::empty());
        assert(mid.flatten() =~= Seq::<usize>::empty());
        assert(dfa.run(p, Seq::<usize>::empty()) == Some(p));
    } else if terminal_entry(g, dfa, nt, p, a, q, body) {
        let o = body[0]->TerminalIndex_0;
        let j = choose|j: int| 0 <= j < g[a as int].len() && #[trigger] g[a as int][j] == seq![SymbolIndex::TerminalIndex(o)];
        assert(resolves(g, dfa, body[0], mid[0]));
        assert(mid[0] == seq![o]);
        lemma_terminal_generating(g, o);
        assert(generates(g, g[a as int][j][0], mid[0]));
        lemma_head_from_words(g, a as int, j, mid);
        lemma_flatten_one(mid);
        assert(seq![o].drop_last() =~= Seq::<usize>::empty());
        assert(dfa.run(p, Seq::<usize>::empty()) == Some(p));
        assert(dfa.run(p, seq![o]) == Some(q));
    } else if unit_entry(g, p, a, q, body) {
        let s = body[0]->VariableIndex_0;
        let j = choose|j: int| 0 <= j < g[a as int].len() && #[trigger] g[a as int][j] == seq![SymbolIndex::VariableIndex(s.1)];
        assert(resolves(g, dfa, body[0], mid[0]));
        assert(generates(g, g[a as int][j][0], mid[0]));
        lemma_head_from_words(g, a as int, j, mid);
        lemma_flatten_one(mid);
    } else {
        let s1 = body[0]->VariableIndex_0;
        let s2 = body[1]->VariableIndex_0;
        let j = choose|j: int| 0 <= j < g[a as int].len() && #[trigger] g[a as int][j] == seq![SymbolIndex::VariableIndex(s1.1), SymbolIndex::VariableIndex(s2.1)];
        assert(resolves(g, dfa, body[0], mid[0]));
        assert(resolves(g, dfa, body[1], mid[1]));
        assert(generates(g, g[a as int][j][0], mid[0]));
        assert(generates(g, g[a as int][j][1], mid[1]));
        lemma_head_from_words(g, a as int, j, mid);
        assert(mid.drop_first() =~= seq![mid[1]]);
        lemma_flatten_one(mid.drop_first());
        assert(mid.flatten() =~= mid[0] + mid[1]);
        dfa.lemma_run_concat(p, mid[0], mid[1]);
    }
}

/// Expanding a variable of an acceptable form by a recorded body keeps it acceptable.
pub proof fn lemma_expand_form(
    g: Seq<Seq<Seq<SymbolIndex>>>,
    dfa: DFA,
    nt: nat,
    start: usize,
    pre: Seq<IntersectionSymbolIndex>,
    t: (usize, usize, usize),
    body: Seq<IntersectionSymbolIndex>,
    post: Seq<IntersectionSymbolIndex>,
)
    requires
        form_ok(g, dfa, start, pre + seq![IntersectionSymbolIndex::VariableIndex(t)] + post),
        entry_ok(g, dfa, nt, t, body),
    ensures
        form_ok(g, dfa, start, pre + body + post),
{
    let old_form = pre + seq![IntersectionSymbolIndex::VariableIndex(t)] + post;
    let new_form = pre + body + post;
    assert forall|ws2: Seq<Seq<usize>>| #[trigger] all_resolve(g, dfa, new_form, ws2) implies in_both(g, dfa, start, ws2.flatten()) by {
        let a = pre.len() as int;
        let b = body.len() as int;
        let mid = ws2.subrange(a, a + b);
        let ws = ws2.take(a) + seq![mid.flatten()] + ws2.skip(a + b);
        assert forall|i: int| 0 <= i < body.len() implies resolves(g, dfa, #[trigger] body[i], mid[i]) by {
            assert(new_form[a + i] == body[i]);
        }
        lemma_resolve_entry(g, dfa, nt, t, body, mid);
        assert forall|i: int| 0 <= i < old_form.len() implies resolves(g, dfa, #[trigger] old_form[i], ws[i]) by {
            if i < a {
                assert(old_form[i] == new_form[i]);
                assert(ws[i] == ws2[i]);
            } else if i == a {
                assert(ws[i] == mid.flatten());
            } else {
                assert(old_form[i] == new_form[i - 1 + b]);
                assert(ws[i] == ws2[i - 1 + b]);
            }
        }
        assert(all_resolve(g, dfa, old_form, ws));
        assert(ws2 =~= ws2.take(a) + mid + ws2.skip(a + b));
        vstd::seq_lib::lemma_flatten_concat(ws2.take(a) + mid, ws2.skip(a + b));
        vstd::seq_lib::lemma_flatten_concat(ws2.take(a), mid);
        vstd::seq_lib::lemma_flatten_concat(ws2.take(a) + seq![mid.flatten()], ws2.skip(a + b));
        vstd::seq_lib::lemma_flatten_concat(ws2.take(a), seq![mid.flatten()]);
        lemma_flatten_one(seq![mid.flatten()]);
        assert(ws.flatten() =~= ws2.flatten());
    }
}

/// A form of terminals only is a word of both languages.
pub proof fn lemma_terminal_form(g: Seq<Seq<Seq<SymbolIndex>>>, dfa: DFA, start: usize, form: Seq<IntersectionSymbolIndex>)
    requires
        form_ok(g, dfa, start, form),
        forall|i: int| 0 <= i < form.len() ==> (#[trigger] form[i]) is TerminalIndex,
    ensures
        in_both(g, dfa, start, form.map_values(|x: IntersectionSymbolIndex| x->TerminalIndex_0)),
{
    let ws = form.map_values(|x: IntersectionSymbolIndex| seq![x->TerminalIndex_0]);
    assert forall|i: int| 0 <= i < form.len() implies resolves(g, dfa, #[trigger] form[i], ws[i]) by {}
    assert(all_resolve(g, dfa, form, ws));
    lemma_flatten_singletons(form);
}

/// Flattening the one-terminal words of a form of terminals gives its terminals.
pub proof fn lemma_flatten_singletons(form: Seq<IntersectionSymbolIndex>)
    ensures
        form.map_values(|x: IntersectionSymbolIndex| seq![x->TerminalIndex_0]).flatten() =~= form.map_values(
            |x: IntersectionSymbolIndex| x->TerminalIndex_0,
        ),
    decreases form.len(),
{
    if form.len() > 0 {
        lemma_flatten_singletons(form.drop_first());
        let ws = form.map_values(|x: IntersectionSymbolIndex| seq![x->TerminalIndex_0]);
        assert(ws.drop_first() =~= form.drop_first().map_values(|x: IntersectionSymbolIndex| seq![x->TerminalIndex_0]));
        assert(form.map_values(|x: IntersectionSymbolIndex| x->TerminalIndex_0) =~= seq![form[0]->TerminalIndex_0]
            + form.drop_first().map_values(|x: IntersectionSymbolIndex| x->TerminalIndex_0));
    } else {
        let ws = form.map_values(|x: IntersectionSymbolIndex| seq![x->TerminalIndex_0]);
        assert(ws =~= Seq::<Seq<usize>>::empty());
    }
}

/// The start variable between the start state and an accepting state is an acceptable form.
pub proof fn lemma_start_form(g: Seq<Seq<Seq<SymbolIndex>>>, dfa: DFA, start: usize, f: usize)
    requires
        dfa.accept_states@.contains(f),
    ensures
        form_ok(g, dfa, start, seq![IntersectionSymbolIndex::VariableIndex((dfa.start_state, start, f))]),
{
    let form = seq![IntersectionSymbolIndex::VariableIndex((dfa.start_state, start, f))];
    assert forall|ws: Seq<Seq<usize>>| #[trigger] all_resolve(g, dfa, form, ws) implies in_both(g, dfa, start, ws.flatten()) by {
        assert(resolves(g, dfa, form[0], ws[0]));
        lemma_flatten_one(ws);
    }
}

} // verus!

verus! {

/// What symbol `x` becomes when every variable is replaced by its recorded body.
pub open spec fn piece(map: Map<(usize, usize, usize), Seq<IntersectionSymbolIndex>>, x: IntersectionSymbolIndex) -> Seq<IntersectionSymbolIndex> {
    match x {
        IntersectionSymbolIndex::VariableIndex(t) => map[t],
        IntersectionSymbolIndex::TerminalIndex(_) => seq![x],
    }
}

/// The form with every variable replaced by its recorded body.
pub open spec fn expand_all(map: Map<(usize, usize, usize), Seq<IntersectionSymbolIndex>>, form: Seq<IntersectionSymbolIndex>) -> Seq<IntersectionSymbolIndex>
    decreases form.len(),
{
    if form.len() == 0 {
        Seq::empty()
    } else {
        expand_all(map, form.drop_last()) + piece(map, form.last())
    }
}

/// The positions of the variables of `form`, in increasing order.
pub open spec fn var_positions(form: Seq<IntersectionSymbolIndex>) -> Seq<usize>
    decreases form.len(),
{
    if form.len() == 0 {
        Seq::empty()
    } else if form.last() is VariableIndex {
        var_positions(form.drop_last()).push((form.len() - 1) as usize)
    } else {
        var_positions(form.drop_last())
    }
}

/// The form after `d` rounds of expansion from the variable `start`.
pub open spec fn form_after(map: Map<(usize, usize, usize), Seq<IntersectionSymbolIndex>>, start: (usize, usize, usize), d: nat) -> Seq<IntersectionSymbolIndex>
    decreases d,
{
    if d == 0 {
        seq![IntersectionSymbolIndex::VariableIndex(start)]
    } else {
        expand_all(map, form_after(map, start, (d - 1) as nat))
    }
}

/// Whether the expansion from `start` is left with terminals alone after `d`
/// rounds, within the bounds: at most 64 000 000 rounds, each on a form of at
/// most 64 000 000 variables.
pub open spec fn expansion_ends(map: Map<(usize, usize, usize), Seq<IntersectionSymbolIndex>>, start: (usize, usize, usize), d: nat) -> bool {
    &&& d <= 64_000_000
    &&& var_positions(form_after(map, start, d)).len() == 0
    &&& forall|d2: nat| d2 < d ==> 0 < #[trigger] var_positions(form_after(map, start, d2)).len() <= 64_000_000
}



/// Whether `rk` ranks the entries of `map`: every variable of a recorded body
/// has a lower rank than the variable it is recorded for.
pub open spec fn ranks_ok(map: Map<(usize, usize, usize), Seq<IntersectionSymbolIndex>>, rk: Map<(usize, usize, usize), nat>) -> bool {
    forall|k: (usize, usize, usize)| #[trigger] map.contains_key(k) ==> rk.contains_key(k) && forall|i: int|
        0 <= i < map[k].len() && (#[trigger] map[k][i]) is VariableIndex ==> rk.contains_key(map[k][i]->VariableIndex_0)
            && rk[map[k][i]->VariableIndex_0] < rk[k]
}

/// Whether the recorded bodies can be ranked, so that no expansion runs in a circle.
pub open spec fn ranked(map: Map<(usize, usize, usize), Seq<IntersectionSymbolIndex>>) -> bool {
    exists|rk: Map<(usize, usize, usize), nat>| #[trigger] ranks_ok(map, rk)
}


/// A recorded entry stands for a word: its variable derives a word leading
/// the automaton from its first state to its last.
pub proof fn lemma_entry_generates(
    g: Seq<Seq<Seq<SymbolIndex>>>,
    dfa: DFA,
    nt: nat,
    map: Map<(usize, usize, usize), Seq<IntersectionSymbolIndex>>,
    rk: Map<(usize, usize, usize), nat>,
    k: (usize, usize, usize),
)
    requires
        map_ok(map, g, dfa, nt),
        ranks_ok(map, rk),
        map.contains_key(k),
    ensures
        crate::cfg::intersection::triple_gen(g, dfa, k.0, k.1, k.2),
    decreases rk[k],
{
    let body = map[k];
    assert forall|i: int| #![trigger body[i]] 0 <= i < body.len() implies exists|w: Seq<usize>| #[trigger] resolves(g, dfa, body[i], w) by {
        match body[i] {
            IntersectionSymbolIndex::TerminalIndex(o) => {
                assert(resolves(g, dfa, body[i], seq![o]));
            },
            IntersectionSymbolIndex::VariableIndex(t) => {
                assert(has_entry(map, map[k][i]));
                assert(rk[t] < rk[k]);
                lemma_entry_generates(g, dfa, nt, map, rk, t);
                let w = choose|w: Seq<usize>| #[trigger] generates(g, SymbolIndex::VariableIndex(t.1), w) && dfa.run(t.0, w) == Some(t.2);
                assert(resolves(g, dfa, body[i], w));
            },
        }
    }
    let mid = Seq::new(body.len(), |i: int| choose|w: Seq<usize>| #[trigger] resolves(g, dfa, body[i], w));
    assert forall|i: int| 0 <= i < body.len() implies resolves(g, dfa, #[trigger] body[i], mid[i]) by {
        assert(exists|w: Seq<usize>| #[trigger] resolves(g, dfa, body[i], w));
    }
    lemma_resolve_entry(g, dfa, nt, k, body, mid);
    assert(resolves(g, dfa, IntersectionSymbolIndex::VariableIndex(k), mid.flatten()));
}

/// The entries without a length are the unmarked ones.
pub proof fn lemma_nones_unmarked(gs: Seq<Option<usize>>)
    ensures
        nones(gs) == crate::cfg::intersection::unmarked(marks(gs)),
    decreases gs.len(),
{
    if gs.len() > 0 {
        lemma_nones_unmarked(gs.drop_last());
        assert(marks(gs).drop_last() =~= marks(gs.drop_last()));
        assert(marks(gs).last() == (gs.last() is Some));
    }
}

/// Recording a body whose variables have entries keeps the entries ranked:
/// a new entry takes the next rank, an entry recorded again has an empty body.
pub proof fn lemma_rank_record(
    m0: Map<(usize, usize, usize), Seq<IntersectionSymbolIndex>>,
    m1: Map<(usize, usize, usize), Seq<IntersectionSymbolIndex>>,
    rk: Map<(usize, usize, usize), nat>,
    counter: nat,
    key: (usize, usize, usize),
    body: Seq<IntersectionSymbolIndex>,
)
    requires
        m1 == m0.insert(key, body),
        ranks_ok(m0, rk),
        forall|k: (usize, usize, usize)| #[trigger] rk.contains_key(k) ==> rk[k] < counter,
        forall|k: (usize, usize, usize)| #[trigger] rk.contains_key(k) ==> m0.contains_key(k),
        forall|i: int| 0 <= i < body.len() ==> has_entry(m0, #[trigger] body[i]),
        m0.contains_key(key) ==> body.len() == 0,
    ensures
        !m0.contains_key(key) ==> ranks_ok(m1, rk.insert(key, counter))
            && forall|k: (usize, usize, usize)| #[trigger] rk.insert(key, counter).contains_key(k) ==> rk.insert(key, counter)[k] < counter + 1
            && m1.contains_key(k),
        m0.contains_key(key) ==> ranks_ok(m1, rk),
        forall|k: (usize, usize, usize)| #[trigger] rk.contains_key(k) ==> m1.contains_key(k),
{
    if !m0.contains_key(key) {
        let rk1 = rk.insert(key, counter);
        assert forall|k: (usize, usize, usize)| #[trigger] m1.contains_key(k) implies rk1.contains_key(k) && forall|i: int|
            0 <= i < m1[k].len() && (#[trigger] m1[k][i]) is VariableIndex ==> rk1.contains_key(m1[k][i]->VariableIndex_0)
                && rk1[m1[k][i]->VariableIndex_0] < rk1[k] by {
            if k == key {
                assert forall|i: int| 0 <= i < m1[k].len() && (#[trigger] m1[k][i]) is VariableIndex implies rk1.contains_key(m1[k][i]->VariableIndex_0)
                    && rk1[m1[k][i]->VariableIndex_0] < rk1[k] by {
                    assert(has_entry(m0, body[i]));
                    let c = body[i]->VariableIndex_0;
                    assert(m0.contains_key(c));
                    assert(c != key);
                    assert(rk.contains_key(c));
                }
            } else {
                assert(m0.contains_key(k));
                assert forall|i: int| 0 <= i < m1[k].len() && (#[trigger] m1[k][i]) is VariableIndex implies rk1.contains_key(m1[k][i]->VariableIndex_0)
                    && rk1[m1[k][i]->VariableIndex_0] < rk1[k] by {
                    assert(m1[k][i] == m0[k][i]);
                    let c = m0[k][i]->VariableIndex_0;
                    assert(rk.contains_key(c));
                    assert(c != key);
                }
            }
        }
    } else {
        assert forall|k: (usize, usize, usize)| #[trigger] m1.contains_key(k) implies rk.contains_key(k) && forall|i: int|
            0 <= i < m1[k].len() && (#[trigger] m1[k][i]) is VariableIndex ==> rk.contains_key(m1[k][i]->VariableIndex_0)
                && rk[m1[k][i]->VariableIndex_0] < rk[k] by {
            assert(m0.contains_key(k));
            if k != key {
                assert forall|i: int| 0 <= i < m1[k].len() && (#[trigger] m1[k][i]) is VariableIndex implies rk.contains_key(m1[k][i]->VariableIndex_0)
                    && rk[m1[k][i]->VariableIndex_0] < rk[k] by {
                    assert(m1[k][i] == m0[k][i]);
                }
            }
        }
    }
}

/// Whether, for some ranked table of recorded bodies that derive what they
/// stand for, the expansion from the start variable between the start state and
/// an accepting state does not end within its bounds.
pub open spec fn expansion_fails(g: Seq<Seq<Seq<SymbolIndex>>>, dfa: DFA, nt: nat, start: usize) -> bool {
    exists|m: Map<(usize, usize, usize), Seq<IntersectionSymbolIndex>>, f: usize|
        #![trigger map_ok(m, g, dfa, nt), m.contains_key((dfa.start_state, start, f))]
        map_ok(m, g, dfa, nt) && ranked(m) && dfa.accept_states@.contains(f) && m.contains_key((dfa.start_state, start, f))
            && !(exists|d: nat| #[trigger] expansion_ends(m, (dfa.start_state, start, f), d))
}

/// The terminal numbers of a form of terminals alone.
pub open spec fn terminal_numbers(form: Seq<IntersectionSymbolIndex>) -> Seq<usize> {
    form.map_values(|x: IntersectionSymbolIndex| x->TerminalIndex_0)
}

/// The positions of the variables of `word`, in increasing order.
pub fn variable_positions(word: &Vec<IntersectionSymbolIndex>) -> (r: Vec<usize>)
    ensures
        r@ == var_positions(word@),
        forall|i: int| 0 <= i < r@.len() ==> (#[trigger] r@[i]) < word@.len() && word@[r@[i] as int] is VariableIndex,
        forall|i: int, j: int| 0 <= i < j < r@.len() ==> r@[i] < r@[j],
        forall|k: int| 0 <= k < word@.len() && (#[trigger] word@[k]) is VariableIndex ==> r@.contains(k as usize),
{
    let mut r: Vec<usize> = Vec::new();
    let mut k: usize = 0;
    while k < word.len()
        invariant
            k <= word@.len(),
            forall|i: int| 0 <= i < r@.len() ==> (#[trigger] r@[i]) < k && word@[r@[i] as int] is VariableIndex,
            forall|i: int, j: int| 0 <= i < j < r@.len() ==> r@[i] < r@[j],
            forall|x: int| 0 <= x < k && (#[trigger] word@[x]) is VariableIndex ==> r@.contains(x as usize),
            r@ == var_positions(word@.take(k as int)),
        decreases word@.len() - k,
    {
        let ghost r0 = r@;
        proof {
            assert(word@.take(k + 1).drop_last() =~= word@.take(k as int));
            assert(word@.take(k + 1).last() == word@[k as int]);
        }
        match word[k] {
            IntersectionSymbolIndex::VariableIndex(_) => {
                r.push(k);
                proof {
                    assert(r@[r0.len() as int] == k);
                    assert forall|x: int| 0 <= x < k + 1 && (#[trigger] word@[x]) is VariableIndex implies r@.contains(x as usize) by {
                        if x < k {
                            let i = choose|i: int| 0 <= i < r0.len() && r0[i] == x as usize;
                            assert(r@[i] == x as usize);
                        }
                    }
                }
            },
            IntersectionSymbolIndex::TerminalIndex(_) => {},
        }
        k = k + 1;
    }
    proof {
        assert(word@.take(k as int) =~= word@);
    }
    r
}

impl CFG {
    /// Expands the recorded bodies from the intersection variable `start`,
    /// every variable of the form in one pass, until only terminals are
    /// left, and returns their symbols; `None` after `timeout` or once the
    /// expansion has run past its bounds.
    pub(crate) fn expand_example(
        &self,
        dfa: &DFA,
        map: &GenerationMap,
        start: (usize, usize, usize),
        timeout: Option<core::time::Duration>,
        start_time: &std::time::Instant,
    ) -> (r: Option<Vec<crate::input_symbol::InputSymbol>>)
        requires
            self.wf(),
            dfa.wf(),
            map_ok(map@, self.g(), *dfa, self.nt()),
            map@.contains_key(start),
            start.0 == dfa.start_state,
            start.1 == self.start_symbol,
            dfa.accept_states@.contains(start.2),
        ensures
            r matches Some(v) ==> exists|u: Seq<usize>| #[trigger] in_both(self.g(), *dfa, self.start_symbol, u)
                && crate::language::word_of(v@) == crate::cfg::cfg::terminal_names(self.terminals@, u),
            r matches Some(v) ==> exists|d: nat| #[trigger] expansion_ends(map@, start, d)
                && crate::language::word_of(v@) == crate::cfg::cfg::terminal_names(self.terminals@, terminal_numbers(form_after(map@, start, d))),
            timeout is None && (exists|d: nat| #[trigger] expansion_ends(map@, start, d)) ==> r is Some,
    {
        let ghost g = self.g();
        let ghost nt = self.nt();
        let mut current_word: Vec<IntersectionSymbolIndex> = Vec::new();
        current_word.push(IntersectionSymbolIndex::VariableIndex(start));
        let mut any_variable_left: Vec<usize> = Vec::new();
        any_variable_left.push(0);
        proof {
            assert(current_word@ =~= seq![IntersectionSymbolIndex::VariableIndex(start)]);
            lemma_start_form(g, *dfa, self.start_symbol, start.2);
            assert(any_variable_left@[0] == 0);
            assert forall|k: int| 0 <= k < current_word@.len() && (#[trigger] current_word@[k]) is VariableIndex implies any_variable_left@.contains(k as usize) by {
                assert(k == 0);
            }
            assert(current_word@ == form_after(map@, start, 0));
            assert(current_word@.drop_last() =~= Seq::<IntersectionSymbolIndex>::empty());
            assert(var_positions(current_word@.drop_last()) == Seq::<usize>::empty());
            assert(current_word@.last() is VariableIndex);
            assert(any_variable_left@ =~= var_positions(current_word@));
        }
        let mut i: usize = 0;
        while any_variable_left.len() > 0
            invariant
                current_word@ == form_after(map@, start, i as nat),
                any_variable_left@ == var_positions(current_word@),
                forall|d2: nat| d2 < i ==> 0 < #[trigger] var_positions(form_after(map@, start, d2)).len() <= 64_000_000,
                self.wf(),
                dfa.wf(),
                g == self.g(),
                nt == self.nt(),
                map_ok(map@, g, *dfa, nt),
                i <= 64_000_000,
                form_ok(g, *dfa, self.start_symbol, current_word@),
                keyed(map@, current_word@),
                terminals_below(current_word@, nt),
                forall|x: int| 0 <= x < any_variable_left@.len() ==> (#[trigger] any_variable_left@[x]) < current_word@.len()
                    && current_word@[any_variable_left@[x] as int] is VariableIndex,
                forall|x: int, y: int| 0 <= x < y < any_variable_left@.len() ==> any_variable_left@[x] < any_variable_left@[y],
                forall|k: int| 0 <= k < current_word@.len() && (#[trigger] current_word@[k]) is VariableIndex ==> any_variable_left@.contains(k as usize),
            decreases 64_000_000 - i,
        {
            i = i + 1;
            match timeout {
                Some(limit) => {
                    if crate::clock::elapsed_beyond(start_time, limit) {
                        return None;
                    }
                },
                None => {},
            }
            if any_variable_left.len() > 64_000_000 || i > 64_000_000 {
                proof {
                    if exists|d: nat| #[trigger] expansion_ends(map@, start, d) {
                        let d = choose|d: nat| #[trigger] expansion_ends(map@, start, d);
                        let i0 = (i - 1) as nat;
                        if d < i0 {
                            assert(0 < var_positions(form_after(map@, start, d)).len());
                        } else if d > i0 {
                            assert(0 < var_positions(form_after(map@, start, i0)).len() <= 64_000_000);
                        }
                    }
                }
                return None;
            }
            let ghost i0 = (i - 1) as nat;
            let ghost cur0 = current_word@;
            let mut expanded_word: Vec<IntersectionSymbolIndex> = Vec::new();
            let mut prev_index: usize = 0;
            let mut t: usize = 0;
            proof {
                assert(expanded_word@ + current_word@.skip(0) =~= current_word@);
            }
            while t < any_variable_left.len()
                invariant
                    self.wf(),
                    dfa.wf(),
                    g == self.g(),
                    nt == self.nt(),
                    map_ok(map@, g, *dfa, nt),
                    keyed(map@, current_word@),
                    terminals_below(current_word@, nt),
                    forall|x: int| 0 <= x < any_variable_left@.len() ==> (#[trigger] any_variable_left@[x]) < current_word@.len()
                        && current_word@[any_variable_left@[x] as int] is VariableIndex,
                    forall|x: int, y: int| 0 <= x < y < any_variable_left@.len() ==> any_variable_left@[x] < any_variable_left@[y],
                    t <= any_variable_left@.len(),
                    prev_index <= current_word@.len(),
                    t == 0 ==> prev_index == 0,
                    t > 0 ==> prev_index == any_variable_left@[t - 1] + 1,
                    form_ok(g, *dfa, self.start_symbol, expanded_word@ + current_word@.skip(prev_index as int)),
                    keyed(map@, expanded_word@),
                    terminals_below(expanded_word@, nt),
                    forall|k: int| 0 <= k < current_word@.len() && (#[trigger] current_word@[k]) is VariableIndex ==> any_variable_left@.contains(k as usize),
                    expanded_word@ == expand_all(map@, current_word@.take(prev_index as int)),
                decreases any_variable_left@.len() - t,
            {
                let current_index = any_variable_left[t];
                proof {
                    if t > 0 {
                        assert(any_variable_left@[t - 1] < any_variable_left@[t as int]);
                    }
                    assert forall|y: int| prev_index <= y < current_index implies !(#[trigger] current_word@[y] is VariableIndex) by {
                        if current_word@[y] is VariableIndex {
                            assert(any_variable_left@.contains(y as usize));
                            let s2 = choose|s2: int| 0 <= s2 < any_variable_left@.len() && any_variable_left@[s2] == y as usize;
                            if s2 < t {
                                if s2 < t - 1 {
                                    assert(any_variable_left@[s2] < any_variable_left@[t - 1]);
                                }
                            } else if s2 > t {
                                assert(any_variable_left@[t as int] < any_variable_left@[s2]);
                            }
                        }
                    }
                }
                let mut m: usize = prev_index;
                while m < current_index
                    invariant
                        prev_index <= m <= current_index,
                        current_index < current_word@.len(),
                        forall|y: int| prev_index <= y < current_index ==> !(#[trigger] current_word@[y] is VariableIndex),
                        expanded_word@ == expand_all(map@, current_word@.take(m as int)),
                        form_ok(g, *dfa, self.start_symbol, expanded_word@ + current_word@.skip(m as int)),
                        keyed(map@, expanded_word@),
                        terminals_below(expanded_word@, nt),
                        keyed(map@, current_word@),
                        terminals_below(current_word@, nt),
                    decreases current_index - m,
                {
                    let ghost e0 = expanded_word@;
                    expanded_word.push(current_word[m]);
                    proof {
                        assert(expanded_word@ + current_word@.skip(m + 1) =~= e0 + current_word@.skip(m as int));
                        assert forall|x: int| 0 <= x < expanded_word@.len() implies has_entry(map@, #[trigger] expanded_word@[x]) by {
                            if x < e0.len() {
                                assert(expanded_word@[x] == e0[x]);
                            } else {
                                assert(expanded_word@[x] == current_word@[m as int]);
                            }
                        }
                        assert forall|x: int| 0 <= x < expanded_word@.len() implies (#[trigger] expanded_word@[x] matches IntersectionSymbolIndex::TerminalIndex(o) ==> o < nt) by {
                            if x < e0.len() {
                                assert(expanded_word@[x] == e0[x]);
                            } else {
                                assert(expanded_word@[x] == current_word@[m as int]);
                            }
                        }
                        assert(current_word@.take(m + 1).drop_last() =~= current_word@.take(m as int));
                        assert(current_word@.take(m + 1).last() == current_word@[m as int]);
                        assert(!(current_word@[m as int] is VariableIndex));
                        assert(piece(map@, current_word@[m as int]) == seq![current_word@[m as int]]);
                        assert(expanded_word@ =~= e0 + seq![current_word@[m as int]]);
                    }
                    m = m + 1;
                }
                assert(current_index < current_word.len());
                proof {
                    assert(current_word@.take(current_index + 1).drop_last() =~= current_word@.take(current_index as int));
                    assert(current_word@.take(current_index + 1).last() == current_word@[current_index as int]);
                }
                prev_index = current_index + 1;
                match current_word[current_index] {
                    IntersectionSymbolIndex::VariableIndex(symbol_to_expand) => {
                        proof {
                            assert(has_entry(map@, current_word@[current_index as int]));
                        }
                        match map.get(symbol_to_expand) {
                            Some(symbols) => {
                                let ghost pre = expanded_word@;
                                let ghost post = current_word@.skip(prev_index as int);
                                proof {
                                    assert(current_word@.skip(current_index as int) =~= seq![IntersectionSymbolIndex::VariableIndex(symbol_to_expand)] + post);
                                    assert(pre + current_word@.skip(current_index as int) =~= pre + seq![IntersectionSymbolIndex::VariableIndex(symbol_to_expand)] + post);
                                    lemma_expand_form(g, *dfa, nt, self.start_symbol, pre, symbol_to_expand, symbols@, post);
                                }
                                let mut s: usize = 0;
                                while s < symbols.len()
                                    invariant
                                        s <= symbols@.len(),
                                        expanded_word@ == pre + symbols@.take(s as int),
                                        map@.contains_key(symbol_to_expand),
                                        symbols@ == map@[symbol_to_expand],
                                        map_ok(map@, g, *dfa, nt),
                                        keyed(map@, pre),
                                        terminals_below(pre, nt),
                                    decreases symbols@.len() - s,
                                {
                                    expanded_word.push(symbols[s]);
                                    proof {
                                        assert(symbols@.take(s + 1) =~= symbols@.take(s as int).push(symbols@[s as int]));
                                    }
                                    s = s + 1;
                                }
                                proof {
                                    assert(symbols@.take(s as int) =~= symbols@);
                                    assert(expanded_word@ == expand_all(map@, current_word@.take(prev_index as int)));
                                    assert(pre + symbols@ + post =~= expanded_word@ + current_word@.skip(prev_index as int));
                                    let (p, a, q) = symbol_to_expand;
                                    assert(entry_ok(g, *dfa, nt, symbol_to_expand, symbols@));
                                    assert forall|x: int| 0 <= x < expanded_word@.len() implies has_entry(map@, #[trigger] expanded_word@[x]) by {
                                        if x < pre.len() {
                                            assert(expanded_word@[x] == pre[x]);
                                        } else {
                                            assert(expanded_word@[x] == symbols@[x - pre.len()]);
                                        }
                                    }
                                    assert forall|x: int| 0 <= x < expanded_word@.len() implies (#[trigger] expanded_word@[x] matches IntersectionSymbolIndex::TerminalIndex(o) ==> o < nt) by {
                                        if x < pre.len() {
                                            assert(expanded_word@[x] == pre[x]);
                                        } else {
                                            assert(expanded_word@[x] == symbols@[x - pre.len()]);
                                        }
                                    }
                                }
                            },
                            None => {
                                proof {
                                    assert(false);
                                }
                            },
                        }
                    },
                    IntersectionSymbolIndex::TerminalIndex(_) => {
                        proof {
                            assert(false);
                        }
                    },
                }
                t = t + 1;
            }
            proof {
                assert(t == any_variable_left@.len());
                assert(t > 0);
                assert(prev_index == any_variable_left@[t - 1] + 1);
                assert forall|y: int| prev_index <= y < current_word@.len() implies !(#[trigger] current_word@[y] is VariableIndex) by {
                    if current_word@[y] is VariableIndex {
                        assert(any_variable_left@.contains(y as usize));
                        let s2 = choose|s2: int| 0 <= s2 < any_variable_left@.len() && any_variable_left@[s2] == y as usize;
                        if s2 < t - 1 {
                            assert(any_variable_left@[s2] < any_variable_left@[t - 1]);
                        }
                    }
                }
            }
            let mut m: usize = prev_index;
            while m < current_word.len()
                invariant
                    forall|y: int| prev_index <= y < current_word@.len() ==> !(#[trigger] current_word@[y] is VariableIndex),
                    expanded_word@ == expand_all(map@, current_word@.take(m as int)),
                    prev_index <= m <= current_word@.len(),
                    form_ok(g, *dfa, self.start_symbol, expanded_word@ + current_word@.skip(m as int)),
                    keyed(map@, expanded_word@),
                    terminals_below(expanded_word@, nt),
                    keyed(map@, current_word@),
                    terminals_below(current_word@, nt),
                decreases current_word@.len() - m,
            {
                let ghost e0 = expanded_word@;
                expanded_word.push(current_word[m]);
                proof {
                    assert(expanded_word@ + current_word@.skip(m + 1) =~= e0 + current_word@.skip(m as int));
                    assert forall|x: int| 0 <= x < expanded_word@.len() implies has_entry(map@, #[trigger] expanded_word@[x]) by {
                        if x < e0.len() {
                            assert(expanded_word@[x] == e0[x]);
                        } else {
                            assert(expanded_word@[x] == current_word@[m as int]);
                        }
                    }
                    assert forall|x: int| 0 <= x < expanded_word@.len() implies (#[trigger] expanded_word@[x] matches IntersectionSymbolIndex::TerminalIndex(o) ==> o < nt) by {
                        if x < e0.len() {
                            assert(expanded_word@[x] == e0[x]);
                        } else {
                            assert(expanded_word@[x] == current_word@[m as int]);
                        }
                    }
                }
                proof {
                    assert(current_word@.take(m + 1).drop_last() =~= current_word@.take(m as int));
                    assert(current_word@.take(m + 1).last() == current_word@[m as int]);
                    assert(!(current_word@[m as int] is VariableIndex));
                    assert(piece(map@, current_word@[m as int]) == seq![current_word@[m as int]]);
                    assert(expanded_word@ =~= e0 + seq![current_word@[m as int]]);
                }
                m = m + 1;
            }
            proof {
                assert(expanded_word@ + current_word@.skip(m as int) =~= expanded_word@);
                assert(current_word@.take(m as int) =~= current_word@);
                assert(expanded_word@ == expand_all(map@, cur0));
                assert(form_after(map@, start, i as nat) == expand_all(map@, form_after(map@, start, i0)));
            }
            any_variable_left = variable_positions(&expanded_word);
            current_word = expanded_word;
            proof {
                assert forall|d2: nat| d2 < i implies 0 < #[trigger] var_positions(form_after(map@, start, d2)).len() <= 64_000_000 by {
                    if d2 == i0 {
                        assert(form_after(map@, start, d2) == cur0);
                    }
                }
            }
        }
        proof {
            assert(expansion_ends(map@, start, i as nat));
        }
        proof {
            assert forall|k: int| 0 <= k < current_word@.len() implies (#[trigger] current_word@[k]) is TerminalIndex by {
                if current_word@[k] is VariableIndex {
                    assert(any_variable_left@.contains(k as usize));
                }
            }
            lemma_terminal_form(g, *dfa, self.start_symbol, current_word@);
        }
        let ghost u = current_word@.map_values(|x: IntersectionSymbolIndex| x->TerminalIndex_0);
        let mut v: Vec<crate::input_symbol::InputSymbol> = Vec::new();
        let mut k: usize = 0;
        while k < current_word.len()
            invariant
                self.wf(),
                k <= current_word@.len(),
                terminals_below(current_word@, nt),
                nt == self.nt(),
                forall|x: int| 0 <= x < current_word@.len() ==> (#[trigger] current_word@[x]) is TerminalIndex,
                u == current_word@.map_values(|x: IntersectionSymbolIndex| x->TerminalIndex_0),
                crate::language::word_of(v@) == crate::cfg::cfg::terminal_names(self.terminals@, u.take(k as int)),
            decreases current_word@.len() - k,
        {
            match current_word[k] {
                IntersectionSymbolIndex::TerminalIndex(o) => {
                    let ghost v0 = v@;
                    v.push(self.terminals[o].clone());
                    proof {
                        assert(u.take(k + 1) =~= u.take(k as int).push(o));
                        assert(crate::language::word_of(v@) =~= crate::language::word_of(v0).push(self.terminals@[o as int]@));
                        assert(crate::cfg::cfg::terminal_names(self.terminals@, u.take(k + 1)) =~= crate::cfg::cfg::terminal_names(self.terminals@, u.take(k as int)).push(self.terminals@[o as int]@));
                    }
                },
                IntersectionSymbolIndex::VariableIndex(_) => {
                    proof {
                        assert(false);
                    }
                },
            }
            k = k + 1;
        }
        proof {
            assert(u.take(k as int) =~= u);
            assert(in_both(g, *dfa, self.start_symbol, u));
        }
        Some(v)
    }
}

} // verus!

verus! {

/// Which intersection variables are marked.
pub open spec fn marks(gs: Seq<Option<usize>>) -> Seq<bool> {
    gs.map_values(|o: Option<usize>| o is Some)
}

/// The entries of the queue, in some order.
pub open spec fn queued(pq: Map<(usize, usize, usize, usize), usize>) -> Seq<(usize, usize, usize, usize)> {
    pq.dom().to_seq()
}

/// What waits in the queue is what the queue holds.
pub proof fn lemma_queued_waiting(pq: Map<(usize, usize, usize, usize), usize>, h: Option<(usize, usize, usize)>, p: usize, v: usize, q: usize)
    requires
        pq.dom().finite(),
    ensures
        waiting(queued(pq), h, p, v, q) <==> (h == Some((p, v, q)) || exists|x: usize| #[trigger] pq.contains_key((p, v, q, x))),
{
    pq.dom().lemma_to_seq_to_set_id();
    let s = queued(pq);
    if exists|x: usize| #[trigger] pq.contains_key((p, v, q, x)) {
        let x = choose|x: usize| #[trigger] pq.contains_key((p, v, q, x));
        assert(s.to_set().contains((p, v, q, x)));
        let k = choose|k: int| 0 <= k < s.len() && s[k] == (p, v, q, x);
        assert(s[k].0 == p && s[k].1 == v && s[k].2 == q);
    }
    if exists|k: int| 0 <= k < s.len() && (#[trigger] s[k]).0 == p && s[k].1 == v && s[k].2 == q {
        let k = choose|k: int| 0 <= k < s.len() && (#[trigger] s[k]).0 == p && s[k].1 == v && s[k].2 == q;
        assert(s.to_set().contains(s[k]));
        assert(pq.contains_key((p, v, q, s[k].3)));
    }
}


/// Recording `(p, a, r)` marks it and queues it: it keeps the marks closed,
/// and the facts of processing survive.
pub proof fn lemma_record_step(
    gs0: Seq<Option<usize>>,
    pq0: Map<(usize, usize, usize, usize), usize>,
    gs1: Seq<Option<usize>>,
    pq1: Map<(usize, usize, usize, usize), usize>,
    held: Option<(usize, usize, usize)>,
    g: Seq<Seq<Seq<SymbolIndex>>>,
    dfa: DFA,
    n: nat,
    p: usize,
    a: usize,
    r: usize,
    len: usize,
)
    requires
        gs0.len() == n * n * g.len() + 1,
        p < n,
        r < n,
        a < g.len(),
        dfa.wf(),
        n == dfa.n(),
        variables_in(g),
        pq0.dom().finite(),
        gs1 == gs0.update(tri(n, p as int, a as int, r as int), Some(len)),
        pq1.dom() == pq0.dom().insert((p, a, r, tri(n, p as int, a as int, r as int) as usize)),
        gs0[tri(n, p as int, a as int, r as int)] is Some ==> pq0.contains_key((p, a, r, tri(n, p as int, a as int, r as int) as usize)),
        closed(marks(gs0), queued(pq0), held, g, n),
    ensures
        pq1.dom().finite(),
        marks(gs1) == marks(gs0).update(tri(n, p as int, a as int, r as int), true),
        closed(marks(gs1), queued(pq1), held, g, n),
        !marks(gs0)[(n * n * g.len()) as int] ==> !marks(gs1)[(n * n * g.len()) as int],
        forall|i: int| 0 <= i < gs0.len() && #[trigger] marks(gs0)[i] ==> marks(gs1)[i],
        forall|a2: int, j: int, p2: usize| 0 <= a2 < g.len() && 0 <= j < g[a2].len() && p2 < n && init_at(marks(gs0), g, dfa, n, a2, j, p2)
            ==> #[trigger] init_at(marks(gs1), g, dfa, n, a2, j, p2),
        forall|t: (usize, usize, usize), a2: usize| t.0 < n && t.2 < n && a2 < g.len() && single_fact(marks(gs0), n, t, a2)
            ==> #[trigger] single_fact(marks(gs1), n, t, a2),
        forall|t: (usize, usize, usize), c: usize, a2: usize, r2: usize| t.0 < n && t.2 < n && c < g.len() && a2 < g.len() && r2 < n
            && right_fact(marks(gs0), queued(pq0), n, t, c, a2, r2) ==> #[trigger] right_fact(marks(gs1), queued(pq1), n, t, c, a2, r2),
        forall|t: (usize, usize, usize), x2: usize, a2: usize, r2: usize| t.0 < n && t.2 < n && x2 < g.len() && a2 < g.len() && r2 < n
            && left_fact(marks(gs0), queued(pq0), n, t, x2, a2, r2) ==> #[trigger] left_fact(marks(gs1), queued(pq1), n, t, x2, a2, r2),
{
    let x = tri(n, p as int, a as int, r as int);
    let e = (p, a, r, x as usize);
    lemma_tri_bound(n, g.len(), p as int, a as int, r as int);
    let ms0 = marks(gs0);
    let ms1 = marks(gs1);
    assert(ms1 =~= ms0.update(x, true));
    assert(pq1.dom().finite());
    if gs0[x] is Some {
        assert(pq1.dom() =~= pq0.dom());
        assert(queued(pq1) == queued(pq0));
        assert(ms1 =~= ms0);
    } else {
        let tq = queued(pq0).push(e);
        lemma_visit_step(ms0, queued(pq0), ms1, tq, held, g, dfa, n, p, a, r);
        assert forall|p2: usize, v2: usize, q2: usize, h: Option<(usize, usize, usize)>|
            #[trigger] waiting(tq, h, p2, v2, q2) implies waiting(queued(pq1), h, p2, v2, q2) by {
            lemma_queued_waiting(pq0, h, p2, v2, q2);
            lemma_queued_waiting(pq1, h, p2, v2, q2);
            if h != Some((p2, v2, q2)) {
                let k = choose|k: int| 0 <= k < tq.len() && (#[trigger] tq[k]).0 == p2 && tq[k].1 == v2 && tq[k].2 == q2;
                if k == tq.len() - 1 {
                    assert(pq1.contains_key((p2, v2, q2, x as usize)));
                } else {
                    assert(tq[k] == queued(pq0)[k]);
                    assert(waiting(queued(pq0), h, p2, v2, q2));
                    let x2 = choose|x2: usize| #[trigger] pq0.contains_key((p2, v2, q2, x2));
                    assert(pq1.contains_key((p2, v2, q2, x2)));
                }
            }
        }
        lemma_waiting_mono(ms1, tq, queued(pq1), held, g, n);
        assert forall|t: (usize, usize, usize), c: usize, a2: usize, r2: usize| t.0 < n && t.2 < n && c < g.len() && a2 < g.len() && r2 < n
            && right_fact(ms0, queued(pq0), n, t, c, a2, r2) implies #[trigger] right_fact(ms1, queued(pq1), n, t, c, a2, r2) by {
            assert(right_fact(ms1, tq, n, t, c, a2, r2));
        }
        assert forall|t: (usize, usize, usize), x2: usize, a2: usize, r2: usize| t.0 < n && t.2 < n && x2 < g.len() && a2 < g.len() && r2 < n
            && left_fact(ms0, queued(pq0), n, t, x2, a2, r2) implies #[trigger] left_fact(ms1, queued(pq1), n, t, x2, a2, r2) by {
            assert(left_fact(ms1, tq, n, t, x2, a2, r2));
        }
    }
}


/// An empty queue has no entries in order.
pub proof fn lemma_queued_empty(pq: Map<(usize, usize, usize, usize), usize>)
    requires
        pq.dom().finite(),
        pq.dom().len() == 0,
    ensures
        queued(pq) == Seq::<(usize, usize, usize, usize)>::empty(),
{
    assert(pq.dom().to_seq() == Seq::<(usize, usize, usize, usize)>::empty());
}

/// Taking the entry `e` out of the queue holds it.
pub proof fn lemma_pop_hold(
    ms: Seq<bool>,
    pq0: Map<(usize, usize, usize, usize), usize>,
    e: (usize, usize, usize, usize),
    g: Seq<Seq<Seq<SymbolIndex>>>,
    n: nat,
)
    requires
        pq0.dom().finite(),
        pq0.contains_key(e),
        forall|k: (usize, usize, usize, usize)| #[trigger] pq0.contains_key(k) ==> k.3 == tri(n, k.0 as int, k.1 as int, k.2 as int),
        closed(ms, queued(pq0), None, g, n),
    ensures
        closed(ms, queued(pq0.remove(e)), Some((e.0, e.1, e.2)), g, n),
{
    let pq1 = pq0.remove(e);
    let te = (e.0, e.1, e.2);
    assert forall|p2: usize, v2: usize, q2: usize| #[trigger] waiting(queued(pq0), None, p2, v2, q2) implies waiting(queued(pq1), Some(te), p2, v2, q2) by {
        lemma_queued_waiting(pq0, None, p2, v2, q2);
        lemma_queued_waiting(pq1, Some(te), p2, v2, q2);
        if (p2, v2, q2) != te {
            let x = choose|x: usize| #[trigger] pq0.contains_key((p2, v2, q2, x));
            assert(pq1.contains_key((p2, v2, q2, x)));
        }
    }
    assert forall|a: int, j: int, p: usize, q: usize| 0 <= a < g.len() && 0 <= j < g[a].len() && p < n && q < n
        implies #[trigger] unit_at(ms, queued(pq1), Some(te), g, n, a, j, p, q) by {
        assert(unit_at(ms, queued(pq0), None, g, n, a, j, p, q));
        let body = g[a][j];
        if body.len() == 1 && body[0] is VariableIndex {
            assert(waiting(queued(pq0), None, p, body[0]->VariableIndex_0, q) ==> waiting(queued(pq1), Some(te), p, body[0]->VariableIndex_0, q));
        }
    }
    assert forall|a: int, j: int, p: usize, q: usize, r: usize| 0 <= a < g.len() && 0 <= j < g[a].len() && p < n && q < n && r < n
        implies #[trigger] pair_at(ms, queued(pq1), Some(te), g, n, a, j, p, q, r) by {
        assert(pair_at(ms, queued(pq0), None, g, n, a, j, p, q, r));
        let body = g[a][j];
        if body.len() == 2 && body[0] is VariableIndex && body[1] is VariableIndex {
            assert(waiting(queued(pq0), None, p, body[0]->VariableIndex_0, q) ==> waiting(queued(pq1), Some(te), p, body[0]->VariableIndex_0, q));
            assert(waiting(queued(pq0), None, q, body[1]->VariableIndex_0, r) ==> waiting(queued(pq1), Some(te), q, body[1]->VariableIndex_0, r));
        }
    }
}

/// Closedness and the facts of processing depend only on what waits.
pub proof fn lemma_waiting_mono(
    gs: Seq<bool>,
    tp_a: Seq<(usize, usize, usize, usize)>,
    tp_b: Seq<(usize, usize, usize, usize)>,
    held: Option<(usize, usize, usize)>,
    g: Seq<Seq<Seq<SymbolIndex>>>,
    n: nat,
)
    requires
        forall|p2: usize, v2: usize, q2: usize, h: Option<(usize, usize, usize)>|
            #[trigger] waiting(tp_a, h, p2, v2, q2) ==> waiting(tp_b, h, p2, v2, q2),
    ensures
        closed(gs, tp_a, held, g, n) ==> closed(gs, tp_b, held, g, n),
        forall|t: (usize, usize, usize), c: usize, a2: usize, r2: usize| right_fact(gs, tp_a, n, t, c, a2, r2) ==> #[trigger] right_fact(gs, tp_b, n, t, c, a2, r2),
        forall|t: (usize, usize, usize), x2: usize, a2: usize, r2: usize| left_fact(gs, tp_a, n, t, x2, a2, r2) ==> #[trigger] left_fact(gs, tp_b, n, t, x2, a2, r2),
{
    if closed(gs, tp_a, held, g, n) {
        assert forall|a: int, j: int, p: usize, q: usize| 0 <= a < g.len() && 0 <= j < g[a].len() && p < n && q < n
            implies #[trigger] unit_at(gs, tp_b, held, g, n, a, j, p, q) by {
            assert(unit_at(gs, tp_a, held, g, n, a, j, p, q));
            let body = g[a][j];
            if body.len() == 1 && body[0] is VariableIndex {
                assert(waiting(tp_a, held, p, body[0]->VariableIndex_0, q) ==> waiting(tp_b, held, p, body[0]->VariableIndex_0, q));
            }
        }
        assert forall|a: int, j: int, p: usize, q: usize, r: usize| 0 <= a < g.len() && 0 <= j < g[a].len() && p < n && q < n && r < n
            implies #[trigger] pair_at(gs, tp_b, held, g, n, a, j, p, q, r) by {
            assert(pair_at(gs, tp_a, held, g, n, a, j, p, q, r));
            let body = g[a][j];
            if body.len() == 2 && body[0] is VariableIndex && body[1] is VariableIndex {
                assert(waiting(tp_a, held, p, body[0]->VariableIndex_0, q) ==> waiting(tp_b, held, p, body[0]->VariableIndex_0, q));
                assert(waiting(tp_a, held, q, body[1]->VariableIndex_0, r) ==> waiting(tp_b, held, q, body[1]->VariableIndex_0, r));
            }
        }
    }
    assert forall|t: (usize, usize, usize), c: usize, a2: usize, r2: usize| right_fact(gs, tp_a, n, t, c, a2, r2) implies #[trigger] right_fact(gs, tp_b, n, t, c, a2, r2) by {
        assert(waiting(tp_a, None, t.2, c, r2) ==> waiting(tp_b, None, t.2, c, r2));
    }
    assert forall|t: (usize, usize, usize), x2: usize, a2: usize, r2: usize| left_fact(gs, tp_a, n, t, x2, a2, r2) implies #[trigger] left_fact(gs, tp_b, n, t, x2, a2, r2) by {
        assert(waiting(tp_a, None, r2, x2, t.0) ==> waiting(tp_b, None, r2, x2, t.0));
    }
}

} // verus!
