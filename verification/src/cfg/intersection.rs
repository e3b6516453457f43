//! The intersection of a grammar with a deterministic automaton: the
//! variables `(p, v, q)` of the intersection stand for the words that variable
//! `v` derives and that lead the automaton from state `p` to state `q`.
use crate::cfg::cfg::{binary_form, clone_body, clone_terminals, derivable, derive_step, derives, generates, grammar_ok, symbol_in, SymbolIndex, CFG};
use crate::cfg::generating::{
    height_of, lemma_body_from_parts, lemma_derivable_unfold, lemma_derives_mono, lemma_max_height, max_height,
};
use crate::clock::{elapsed_beyond, now};
use crate::collections::PairSet;
use crate::fa::dfa::DFA;
use crate::input_symbol::InputSymbol;
use crate::language::{word_of, Language};
use crate::cfg::generating::is_nullable;
use crate::util::{lemma_pair_index_bound, lemma_pair_index_injective};
use vstd::prelude::*;

verus! {

/// The number of the intersection variable `(p, v, r)` over `n` states.
pub open spec fn tri(n: nat, p: int, v: int, r: int) -> int {
    v * (n * n) + p * n + r
}

/// Whether variable `v` derives a word that leads the automaton from `p` to `q`.
pub open spec fn triple_gen(g: Seq<Seq<Seq<SymbolIndex>>>, dfa: DFA, p: usize, v: usize, q: usize) -> bool {
    exists|w: Seq<usize>| #[trigger] generates(g, SymbolIndex::VariableIndex(v), w) && dfa.run(p, w) == Some(q)
}

/// Whether a word derived from `start` is accepted by the automaton.
pub open spec fn intersection_nonempty(g: Seq<Seq<Seq<SymbolIndex>>>, start: usize, dfa: DFA) -> bool {
    exists|w: Seq<usize>| #[trigger] generates(g, SymbolIndex::VariableIndex(start), w) && dfa.accepts_indices(w)
}

/// The numbers of intersection variables lie below `n * n * nv`.
pub proof fn lemma_tri_bound(n: nat, nv: nat, p: int, v: int, r: int)
    requires
        0 <= p < n,
        0 <= r < n,
        0 <= v < nv,
    ensures
        0 <= p * n + r < n * n,
        0 <= tri(n, p, v, r) < n * n * nv,
        n * n * nv == nv * (n * n),
{
    lemma_pair_index_bound(p, r, n as int, n as int);
    lemma_pair_index_bound(v, p * n + r, nv as int, (n * n) as int);
    assert(n * n * nv == nv * (n * n)) by (nonlinear_arith);
}

/// Different intersection variables have different numbers.
pub proof fn lemma_tri_injective(n: nat, p1: int, v1: int, r1: int, p2: int, v2: int, r2: int)
    requires
        0 <= p1 < n,
        0 <= r1 < n,
        0 <= p2 < n,
        0 <= r2 < n,
        0 <= v1,
        0 <= v2,
        tri(n, p1, v1, r1) == tri(n, p2, v2, r2),
    ensures
        p1 == p2,
        v1 == v2,
        r1 == r2,
{
    lemma_pair_index_bound(p1, r1, n as int, n as int);
    lemma_pair_index_bound(p2, r2, n as int, n as int);
    lemma_pair_index_injective(v1, p1 * n + r1, v2, p2 * n + r2, (n * n) as int);
    lemma_pair_index_injective(p1, r1, p2, r2, n as int);
}

/// Flattening one word gives the word.
pub proof fn lemma_flatten_one(ws: Seq<Seq<usize>>)
    requires
        ws.len() == 1,
    ensures
        ws.flatten() == ws[0],
{
    let e = Seq::<Seq<usize>>::empty();
    assert(e.flatten() == Seq::<usize>::empty());
    assert(ws.drop_first() =~= e);
    assert(ws.flatten() =~= ws[0] + e.flatten());
}

/// A variable with a body whose symbols derive given words derives their concatenation.
pub proof fn lemma_head_from_words(g: Seq<Seq<Seq<SymbolIndex>>>, h: int, j: int, ws: Seq<Seq<usize>>)
    requires
        0 <= h < g.len(),
        0 <= j < g[h].len(),
        h <= usize::MAX,
        ws.len() == g[h][j].len(),
        forall|k: int| 0 <= k < ws.len() ==> generates(g, #[trigger] g[h][j][k], ws[k]),
    ensures
        generates(g, SymbolIndex::VariableIndex(h as usize), ws.flatten()),
{
    let body = g[h][j];
    let n = max_height(g, body, ws, body.len());
    let prev = derivable(g, n);
    assert forall|k: int| 0 <= k < body.len() implies #[trigger] prev(body[k], ws[k]) by {
        lemma_max_height(g, body, ws, body.len(), k);
        assert(generates(g, g[h][j][k], ws[k]));
        let m = height_of(g, body[k], ws[k]);
        assert(derives(g, m, body[k], ws[k]));
        lemma_derives_mono(g, m, n, body[k], ws[k]);
    }
    lemma_body_from_parts(prev, body, ws);
    lemma_derivable_unfold(g, n);
    assert(derives(g, n + 1, SymbolIndex::VariableIndex(h as usize), ws.flatten()));
}

/// A production `a -> o` and a transition from `p` to `q` on `o` make `(p, a, q)` derive.
pub proof fn lemma_triple_terminal(g: Seq<Seq<Seq<SymbolIndex>>>, dfa: DFA, a: int, j: int, o: usize, p: usize, q: usize)
    requires
        0 <= a < g.len(),
        0 <= j < g[a].len(),
        a <= usize::MAX,
        g[a][j] == seq![SymbolIndex::TerminalIndex(o)],
        dfa.step(p, o) == Some(q),
    ensures
        triple_gen(g, dfa, p, a as usize, q),
{
    let ws = seq![seq![o]];
    crate::cfg::generating::lemma_terminal_generating(g, o);
    assert(generates(g, SymbolIndex::TerminalIndex(o), seq![o]));
    assert(generates(g, g[a][j][0], ws[0]));
    lemma_head_from_words(g, a, j, ws);
    lemma_flatten_one(ws);
    assert(seq![o].drop_last() =~= Seq::<usize>::empty());
    assert(dfa.run(p, Seq::<usize>::empty()) == Some(p));
    assert(seq![o].last() == o);
    assert(dfa.run(p, seq![o]) == Some(q));
}

/// An empty production of `a` makes `(p, a, p)` derive.
pub proof fn lemma_triple_empty(g: Seq<Seq<Seq<SymbolIndex>>>, dfa: DFA, a: int, j: int, p: usize)
    requires
        0 <= a < g.len(),
        0 <= j < g[a].len(),
        a <= usize::MAX,
        g[a][j].len() == 0,
    ensures
        triple_gen(g, dfa, p, a as usize, p),
{
    crate::cfg::generating::lemma_empty_body_nullable(g, a, j);
    assert(dfa.run(p, Seq::<usize>::empty()) == Some(p));
    assert(generates(g, SymbolIndex::VariableIndex(a as usize), Seq::<usize>::empty()));
}

/// A production `a -> b` makes `(p, a, q)` derive where `(p, b, q)` does.
pub proof fn lemma_triple_unit(g: Seq<Seq<Seq<SymbolIndex>>>, dfa: DFA, a: int, j: int, b: usize, p: usize, q: usize)
    requires
        0 <= a < g.len(),
        0 <= j < g[a].len(),
        a <= usize::MAX,
        g[a][j] == seq![SymbolIndex::VariableIndex(b)],
        triple_gen(g, dfa, p, b, q),
    ensures
        triple_gen(g, dfa, p, a as usize, q),
{
    let w = choose|w: Seq<usize>| #[trigger] generates(g, SymbolIndex::VariableIndex(b), w) && dfa.run(p, w) == Some(q);
    let ws = seq![w];
    assert(generates(g, g[a][j][0], ws[0]));
    lemma_head_from_words(g, a, j, ws);
    lemma_flatten_one(ws);
    assert(generates(g, SymbolIndex::VariableIndex(a as usize), w));
}

/// A production `a -> b c` makes `(p, a, r)` derive where `(p, b, q)` and `(q, c, r)` do.
pub proof fn lemma_triple_pair(
    g: Seq<Seq<Seq<SymbolIndex>>>,
    dfa: DFA,
    a: int,
    j: int,
    b: usize,
    c: usize,
    p: usize,
    q: usize,
    r: usize,
)
    requires
        0 <= a < g.len(),
        0 <= j < g[a].len(),
        a <= usize::MAX,
        g[a][j] == seq![SymbolIndex::VariableIndex(b), SymbolIndex::VariableIndex(c)],
        triple_gen(g, dfa, p, b, q),
        triple_gen(g, dfa, q, c, r),
    ensures
        triple_gen(g, dfa, p, a as usize, r),
{
    let w1 = choose|w: Seq<usize>| #[trigger] generates(g, SymbolIndex::VariableIndex(b), w) && dfa.run(p, w) == Some(q);
    let w2 = choose|w: Seq<usize>| #[trigger] generates(g, SymbolIndex::VariableIndex(c), w) && dfa.run(q, w) == Some(r);
    let ws = seq![w1, w2];
    assert(generates(g, g[a][j][0], ws[0]));
    assert(generates(g, g[a][j][1], ws[1]));
    lemma_head_from_words(g, a, j, ws);
    assert(ws.drop_first() =~= seq![w2]);
    lemma_flatten_one(seq![w2]);
    assert(ws.flatten() =~= w1 + w2);
    dfa.lemma_run_concat(p, w1, w2);
    assert(generates(g, SymbolIndex::VariableIndex(a as usize), w1 + w2));
}

} // verus!

verus! {

/// Whether every marked intersection variable derives a word along the automaton.
pub open spec fn marked_ok(gs: Seq<bool>, g: Seq<Seq<Seq<SymbolIndex>>>, dfa: DFA, n: nat, nv: nat) -> bool {
    forall|p: usize, v: usize, q: usize|
        p < n && q < n && v < nv && #[trigger] gs[tri(n, p as int, v as int, q as int)] ==> triple_gen(g, dfa, p, v, q)
}

/// Whether every entry `(p, v, q, x)` still to be processed names a marked
/// intersection variable `(p, v, q)` of number `x`.
pub open spec fn queue_ok(tp: Seq<(usize, usize, usize, usize)>, gs: Seq<bool>, n: nat, nv: nat) -> bool {
    forall|k: int| 0 <= k < tp.len() ==> {
        let e = #[trigger] tp[k];
        &&& e.0 < n
        &&& e.2 < n
        &&& e.1 < nv
        &&& e.3 == tri(n, e.0 as int, e.1 as int, e.2 as int)
        &&& gs[e.3 as int]
    }
}

/// The number of unmarked entries.
pub open spec fn unmarked(gs: Seq<bool>) -> nat
    decreases gs.len(),
{
    if gs.len() == 0 {
        0
    } else {
        unmarked(gs.drop_last()) + if gs.last() { 0nat } else { 1nat }
    }
}

/// The flags of a complete search: the intersection variable numbered `i`
/// (below `n * n * nv`) is flagged where its variable derives a word leading
/// the automaton from its first state to its last.
pub open spec fn gen_flags(g: Seq<Seq<Seq<SymbolIndex>>>, dfa: DFA, n: nat, nv: nat) -> Seq<bool> {
    let nn = (n * n) as int;
    let ni = n as int;
    Seq::new(n * n * nv + 1, |i: int| i < n * n * nv && triple_gen(g, dfa, ((i % nn) / ni) as usize, (i / nn) as usize, ((i % nn) % ni) as usize))
}

/// The number of intersection variables that derive a word: the number of
/// steps that a search run to its end takes.
pub open spec fn generating_triples(g: Seq<Seq<Seq<SymbolIndex>>>, dfa: DFA, n: nat, nv: nat) -> int {
    (n * n * nv + 1) - unmarked(gen_flags(g, dfa, n, nv))
}

/// An entry marked in `a` is marked in `b`: `b` has no more unmarked entries.
pub proof fn lemma_unmarked_mono(a: Seq<bool>, b: Seq<bool>)
    requires
        a.len() == b.len(),
        forall|i: int| 0 <= i < a.len() && #[trigger] a[i] ==> b[i],
    ensures
        unmarked(b) <= unmarked(a),
    decreases a.len(),
{
    if a.len() > 0 {
        let a2 = a.drop_last();
        let b2 = b.drop_last();
        assert forall|i: int| 0 <= i < a2.len() && #[trigger] a2[i] implies b2[i] by {
            assert(a[i] == a2[i]);
        }
        lemma_unmarked_mono(a2, b2);
        assert(a.last() == a[a.len() - 1]);
    }
}

/// The number below `n * n * nv` of an intersection variable, read back.
pub proof fn lemma_tri_decode(n: nat, nv: nat, i: int)
    requires
        0 <= i < n * n * nv,
    ensures
        n > 0,
        ({
            let nn = (n * n) as int;
            let ni = n as int;
            let r = i % nn;
            &&& 0 <= r / ni < n
            &&& 0 <= r % ni < n
            &&& 0 <= i / nn < nv
            &&& tri(n, r / ni, i / nn, r % ni) == i
        }),
{
    if n == 0 {
        assert(n * n * nv == 0);
    }
    let nn = (n * n) as int;
    let ni = n as int;
    assert(nn > 0) by (nonlinear_arith)
        requires
            ni > 0,
            nn == ni * ni,
    ;
    let r = i % nn;
    let v = i / nn;
    vstd::arithmetic::div_mod::lemma_fundamental_div_mod(i, nn);
    vstd::arithmetic::div_mod::lemma_mod_pos_bound(i, nn);
    vstd::arithmetic::div_mod::lemma_fundamental_div_mod(r, ni);
    vstd::arithmetic::div_mod::lemma_mod_pos_bound(r, ni);
    assert(0 <= v) by (nonlinear_arith)
        requires
            i >= 0,
            nn > 0,
            i == nn * v + r,
            0 <= r < nn,
    ;
    assert(n * n * nv == nn * nv);
    assert(v < nv) by (nonlinear_arith)
        requires
            i < nn * nv,
            i == nn * v + r,
            0 <= r,
            nn > 0,
    ;
    assert(0 <= r / ni < ni) by (nonlinear_arith)
        requires
            0 <= r < ni * ni,
            ni > 0,
            r == ni * (r / ni) + r % ni,
            0 <= r % ni < ni,
    ;
    assert(v * (ni * ni) + (r / ni) * ni + r % ni == i) by (nonlinear_arith)
        requires
            i == nn * v + r,
            r == ni * (r / ni) + r % ni,
            nn == ni * ni,
    ;
    assert(tri(n, r / ni, v, r % ni) == v * (ni * ni) + (r / ni) * ni + r % ni);
}

/// At most every intersection variable derives a word.
pub proof fn lemma_generating_triples_bound(g: Seq<Seq<Seq<SymbolIndex>>>, dfa: DFA, n: nat, nv: nat)
    ensures
        generating_triples(g, dfa, n, nv) <= n * n * nv,
{
    let hs = gen_flags(g, dfa, n, nv);
    lemma_unmarked_pos(hs, (n * n * nv) as int);
}

/// A search whose marks are all sound has marked at most as many variables
/// as derive a word.
pub proof fn lemma_marked_at_most_generating(gs: Seq<bool>, g: Seq<Seq<Seq<SymbolIndex>>>, dfa: DFA, n: nat, nv: nat)
    requires
        n <= usize::MAX,
        nv <= usize::MAX,
        gs.len() == n * n * nv + 1,
        marked_ok(gs, g, dfa, n, nv),
        !gs[(n * n * nv) as int],
    ensures
        gs.len() - unmarked(gs) <= generating_triples(g, dfa, n, nv),
{
    let hs = gen_flags(g, dfa, n, nv);
    assert forall|i: int| 0 <= i < gs.len() && #[trigger] gs[i] implies hs[i] by {
        if i < n * n * nv {
            lemma_tri_decode(n, nv, i);
            let nn = (n * n) as int;
            let ni = n as int;
            let r = i % nn;
            let p = (r / ni) as usize;
            let v = (i / nn) as usize;
            let q = (r % ni) as usize;
            assert(gs[tri(n, p as int, v as int, q as int)]);
        }
    }
    lemma_unmarked_mono(gs, hs);
}

/// With nothing marked, every entry is unmarked.
pub proof fn lemma_unmarked_none(gs: Seq<bool>)
    requires
        forall|k: int| 0 <= k < gs.len() ==> !(#[trigger] gs[k]),
    ensures
        unmarked(gs) == gs.len(),
    decreases gs.len(),
{
    if gs.len() > 0 {
        assert(!gs[gs.len() - 1]);
        lemma_unmarked_none(gs.drop_last());
    }
}

/// An unmarked entry makes the number of unmarked entries positive.
pub proof fn lemma_unmarked_pos(gs: Seq<bool>, x: int)
    requires
        0 <= x < gs.len(),
        !gs[x],
    ensures
        unmarked(gs) >= 1,
    decreases gs.len(),
{
    if x < gs.len() - 1 {
        lemma_unmarked_pos(gs.drop_last(), x);
    }
}

/// Marking an unmarked entry leaves one fewer unmarked.
pub proof fn lemma_unmarked_update(gs: Seq<bool>, x: int)
    requires
        0 <= x < gs.len(),
        !gs[x],
    ensures
        unmarked(gs.update(x, true)) + 1 == unmarked(gs),
    decreases gs.len(),
{
    if x < gs.len() - 1 {
        assert(gs.update(x, true).drop_last() =~= gs.drop_last().update(x, true));
        lemma_unmarked_update(gs.drop_last(), x);
    } else {
        assert(gs.update(x, true).drop_last() =~= gs.drop_last());
    }
}

/// The number of intersection variable `(p, v, r)`, `v * n * n + p * n + r`.
pub fn tri_index(n: usize, nv: usize, p: usize, v: usize, r: usize) -> (x: usize)
    requires
        p < n,
        r < n,
        v < nv,
        n * n * nv < usize::MAX,
    ensures
        x == tri(n as nat, p as int, v as int, r as int),
        x < n * n * nv,
{
    proof {
        lemma_tri_bound(n as nat, nv as nat, p as int, v as int, r as int);
        assert(n * n <= n * n * nv) by (nonlinear_arith)
            requires
                v < nv,
        ;
        assert(v * (n * n) <= n * n * nv) by (nonlinear_arith)
            requires
                v < nv,
        ;
        assert(p * n <= n * n) by (nonlinear_arith)
            requires
                p < n,
        ;
    }
    v * (n * n) + p * n + r
}

/// Marks the intersection variable `(p, a, r)` of number `x` and queues it.
fn mark_generating(
    gs: &mut Vec<bool>,
    to_process: &mut Vec<(usize, usize, usize, usize)>,
    p: usize,
    a: usize,
    r: usize,
    x: usize,
    Ghost(g): Ghost<Seq<Seq<Seq<SymbolIndex>>>>,
    Ghost(dfa): Ghost<DFA>,
    Ghost(n): Ghost<nat>,
    Ghost(nv): Ghost<nat>,
)
    requires
        old(gs)@.len() == n * n * nv + 1,
        p < n,
        r < n,
        a < nv,
        x == tri(n, p as int, a as int, r as int),
        !old(gs)@[x as int],
        triple_gen(g, dfa, p, a, r),
        marked_ok(old(gs)@, g, dfa, n, nv),
        queue_ok(old(to_process)@, old(gs)@, n, nv),
    ensures
        final(gs)@ == old(gs)@.update(x as int, true),
        final(to_process)@ == old(to_process)@.push((p, a, r, x)),
        marked_ok(final(gs)@, g, dfa, n, nv),
        queue_ok(final(to_process)@, final(gs)@, n, nv),
        unmarked(final(gs)@) + 1 == unmarked(old(gs)@),
{
    proof {
        lemma_tri_bound(n, nv, p as int, a as int, r as int);
    }
    let ghost gs0 = gs@;
    gs.set(x, true);
    to_process.push((p, a, r, x));
    proof {
        lemma_unmarked_update(gs0, x as int);
        assert forall|p2: usize, v2: usize, q2: usize|
            p2 < n && q2 < n && v2 < nv && #[trigger] gs@[tri(n, p2 as int, v2 as int, q2 as int)] implies triple_gen(g, dfa, p2, v2, q2) by {
            lemma_tri_bound(n, nv, p2 as int, v2 as int, q2 as int);
            if tri(n, p2 as int, v2 as int, q2 as int) == x {
                lemma_tri_injective(n, p2 as int, v2 as int, q2 as int, p as int, a as int, r as int);
            } else {
                assert(gs0[tri(n, p2 as int, v2 as int, q2 as int)]);
            }
        }
        assert forall|k: int| 0 <= k < to_process@.len() implies {
            let e = #[trigger] to_process@[k];
            &&& e.0 < n
            &&& e.2 < n
            &&& e.1 < nv
            &&& e.3 == tri(n, e.0 as int, e.1 as int, e.2 as int)
            &&& gs@[e.3 as int]
        } by {
            if k < to_process@.len() - 1 {
                let e = to_process@[k];
                assert(e == old(to_process)@[k]);
                lemma_tri_bound(n, nv, e.0 as int, e.1 as int, e.2 as int);
            }
        }
    }
}

} // verus!

verus! {

/// Whether the production `g[a][j]`, where it is `a -> b` or `a -> b c`, is
/// listed under `b` (and, for `a -> b c`, also under `c`).
pub open spec fn listed_at(
    g: Seq<Seq<Seq<SymbolIndex>>>,
    single: Seq<Vec<usize>>,
    two_r: Seq<Vec<(usize, usize)>>,
    two_l: Seq<Vec<(usize, usize)>>,
    a: int,
    j: int,
) -> bool {
    let body = g[a][j];
    &&& (body.len() == 1 && body[0] is VariableIndex) ==> single[body[0]->VariableIndex_0 as int]@.contains(a as usize)
    &&& (body.len() == 2 && body[0] is VariableIndex && body[1] is VariableIndex) ==> {
        let b = body[0]->VariableIndex_0;
        let c = body[1]->VariableIndex_0;
        &&& two_r[b as int]@.contains((c, a as usize))
        &&& two_l[c as int]@.contains((b, a as usize))
    }
}

/// Whether every list of `l1` starts with the list of `l0` at the same place.
pub open spec fn lists_grow<T>(l0: Seq<Vec<T>>, l1: Seq<Vec<T>>) -> bool {
    &&& l1.len() == l0.len()
    &&& forall|b: int| 0 <= b < l0.len() ==> (#[trigger] l1[b])@.len() >= l0[b]@.len()
    &&& forall|b: int, k: int| 0 <= b < l0.len() && 0 <= k < l0[b]@.len() ==> #[trigger] l1[b]@[k] == l0[b]@[k]
}

/// Growing lists keep what they listed.
pub proof fn lemma_listed_grow(
    g: Seq<Seq<Seq<SymbolIndex>>>,
    s0: Seq<Vec<usize>>,
    r0: Seq<Vec<(usize, usize)>>,
    l0: Seq<Vec<(usize, usize)>>,
    s1: Seq<Vec<usize>>,
    r1: Seq<Vec<(usize, usize)>>,
    l1: Seq<Vec<(usize, usize)>>,
    a: int,
    j: int,
)
    requires
        0 <= a < g.len(),
        0 <= j < g[a].len(),
        forall|k: int| 0 <= k < g[a][j].len() ==> (#[trigger] g[a][j][k] matches SymbolIndex::VariableIndex(v) ==> v < g.len()),
        s0.len() == g.len(),
        r0.len() == g.len(),
        l0.len() == g.len(),
        lists_grow(s0, s1),
        lists_grow(r0, r1),
        lists_grow(l0, l1),
        listed_at(g, s0, r0, l0, a, j),
    ensures
        listed_at(g, s1, r1, l1, a, j),
{
    let body = g[a][j];
    if body.len() == 1 && body[0] is VariableIndex {
        let b = body[0]->VariableIndex_0 as int;
        assert(g[a][j][0] matches SymbolIndex::VariableIndex(v) ==> v < g.len());
        let k = choose|k: int| 0 <= k < s0[b]@.len() && s0[b]@[k] == a as usize;
        assert(s1[b]@[k] == s0[b]@[k]);
    }
    if body.len() == 2 && body[0] is VariableIndex && body[1] is VariableIndex {
        let b = body[0]->VariableIndex_0;
        let c = body[1]->VariableIndex_0;
        assert(g[a][j][0] matches SymbolIndex::VariableIndex(v) ==> v < g.len());
        assert(g[a][j][1] matches SymbolIndex::VariableIndex(v) ==> v < g.len());
        let k = choose|k: int| 0 <= k < r0[b as int]@.len() && r0[b as int]@[k] == (c, a as usize);
        assert(r1[b as int]@[k] == r0[b as int]@[k]);
        let k2 = choose|k2: int| 0 <= k2 < l0[c as int]@.len() && l0[c as int]@[k2] == (b, a as usize);
        assert(l1[c as int]@[k2] == l0[c as int]@[k2]);
    }
}

/// Whether the lists name, for every variable `b`, the variables `a` with a
/// production `a -> b` (`single`), the pairs `(c, a)` with a production
/// `a -> b c` (`two_r`), and, for every variable `c`, the pairs `(b, a)` with
/// a production `a -> b c` (`two_l`).
pub open spec fn production_maps_ok(
    g: Seq<Seq<Seq<SymbolIndex>>>,
    single: Seq<Vec<usize>>,
    two_r: Seq<Vec<(usize, usize)>>,
    two_l: Seq<Vec<(usize, usize)>>,
) -> bool {
    &&& single.len() == g.len()
    &&& two_r.len() == g.len()
    &&& two_l.len() == g.len()
    &&& forall|b: int, k: int| 0 <= b < g.len() && 0 <= k < single[b]@.len() ==> {
        let a = #[trigger] single[b]@[k];
        &&& a < g.len()
        &&& exists|j: int| 0 <= j < g[a as int].len() && #[trigger] g[a as int][j] == seq![SymbolIndex::VariableIndex(b as usize)]
    }
    &&& forall|b: int, k: int| 0 <= b < g.len() && 0 <= k < two_r[b]@.len() ==> {
        let (c, a) = #[trigger] two_r[b]@[k];
        &&& a < g.len()
        &&& c < g.len()
        &&& exists|j: int| 0 <= j < g[a as int].len() && #[trigger] g[a as int][j] == seq![SymbolIndex::VariableIndex(b as usize), SymbolIndex::VariableIndex(c)]
    }
    &&& forall|c: int, k: int| 0 <= c < g.len() && 0 <= k < two_l[c]@.len() ==> {
        let (b, a) = #[trigger] two_l[c]@[k];
        &&& a < g.len()
        &&& b < g.len()
        &&& exists|j: int| 0 <= j < g[a as int].len() && #[trigger] g[a as int][j] == seq![SymbolIndex::VariableIndex(b), SymbolIndex::VariableIndex(c as usize)]
    }
}

/// A derivation of `(start, start variable, q)` with `q` accepting is a word of the intersection.
pub proof fn lemma_final_triple(g: Seq<Seq<Seq<SymbolIndex>>>, start: usize, dfa: DFA, q: usize)
    requires
        triple_gen(g, dfa, dfa.start_state, start, q),
        dfa.accept_states@.contains(q),
    ensures
        intersection_nonempty(g, start, dfa),
{
    let w = choose|w: Seq<usize>| #[trigger] generates(g, SymbolIndex::VariableIndex(start), w) && dfa.run(dfa.start_state, w) == Some(q);
    assert(dfa.accepts_indices(w));
}

/// The state of the search: the marks, and the queue of marked variables
/// still to be processed.
pub open spec fn search_ok(
    gs: Seq<bool>,
    tp: Seq<(usize, usize, usize, usize)>,
    g: Seq<Seq<Seq<SymbolIndex>>>,
    dfa: DFA,
    n: nat,
    nv: nat,
) -> bool {
    &&& gs.len() == n * n * nv + 1
    &&& marked_ok(gs, g, dfa, n, nv)
    &&& queue_ok(tp, gs, n, nv)
}

/// Whether `finals` tells for every state whether it is accepting.
pub open spec fn finals_ok(finals: Seq<bool>, dfa: DFA) -> bool {
    &&& finals.len() == dfa.n()
    &&& forall|k: int| 0 <= k < dfa.n() ==> #[trigger] finals[k] == dfa.accept_states@.contains(k as usize)
}

/// For every state, whether it is accepting.
pub fn final_flags(dfa: &DFA) -> (r: Vec<bool>)
    ensures
        finals_ok(r@, *dfa),
{
    let mut r: Vec<bool> = Vec::new();
    let mut i: usize = 0;
    while i < dfa.states.len()
        invariant
            i <= dfa.n(),
            r@.len() == i,
            forall|k: int| 0 <= k < i ==> #[trigger] r@[k] == dfa.accept_states@.contains(k as usize),
        decreases dfa.n() - i,
    {
        r.push(dfa.accept_states.contains(i));
        i = i + 1;
    }
    r
}

/// `len` unmarked entries.
pub fn all_unmarked(len: usize) -> (r: Vec<bool>)
    ensures
        r@.len() == len,
        forall|k: int| 0 <= k < len ==> !(#[trigger] r@[k]),
{
    let mut r: Vec<bool> = Vec::new();
    let mut i: usize = 0;
    while i < len
        invariant
            i <= len,
            r@.len() == i,
            forall|k: int| 0 <= k < i ==> !(#[trigger] r@[k]),
        decreases len - i,
    {
        r.push(false);
        i = i + 1;
    }
    r
}

/// For every terminal below `nt`, the pairs of states `(p, q)` with a transition from `p` to `q` on it.
pub fn transitions_by_symbol(dfa: &DFA, nt: usize) -> (r: Vec<PairSet>)
    requires
        dfa.wf(),
        dfa.alphabet@.len() <= nt,
    ensures
        r@.len() == nt,
        forall|o: int, p: usize, q: usize| 0 <= o < nt && #[trigger] r@[o]@.contains((p, q)) ==> p < dfa.n() && dfa.step(p, o as usize) == Some(q),
        forall|o: usize, p: usize| p < dfa.n() && #[trigger] dfa.step(p, o) is Some ==> o < nt && r@[o as int]@.contains((p, dfa.step(p, o)->0)),
{
    let mut r: Vec<PairSet> = Vec::new();
    let mut i: usize = 0;
    while i < nt
        invariant
            i <= nt,
            r@.len() == i,
            forall|o: int, p: usize, q: usize| 0 <= o < i && #[trigger] r@[o]@.contains((p, q)) ==> p < dfa.n() && dfa.step(p, o as usize) == Some(q),
        decreases nt - i,
    {
        r.push(PairSet::new());
        i = i + 1;
    }
    let mut p: usize = 0;
    while p < dfa.states.len()
        invariant
            dfa.wf(),
            dfa.alphabet@.len() <= nt,
            p <= dfa.n(),
            r@.len() == nt,
            forall|o: int, p2: usize, q: usize| 0 <= o < nt && #[trigger] r@[o]@.contains((p2, q)) ==> p2 < dfa.n() && dfa.step(p2, o as usize) == Some(q),
            forall|o: usize, p2: usize| p2 < p && #[trigger] dfa.step(p2, o) is Some ==> o < nt && r@[o as int]@.contains((p2, dfa.step(p2, o)->0)),
        decreases dfa.n() - p,
    {
        let row = dfa.transitions[p].to_vec();
        let mut k: usize = 0;
        while k < row.len()
            invariant
                dfa.wf(),
                dfa.alphabet@.len() <= nt,
                p < dfa.n(),
                k <= row@.len(),
                forall|t: int| 0 <= t < row@.len() ==> dfa.row(p as int).contains_key(#[trigger] row@[t].0) && dfa.row(p as int)[row@[t].0] == row@[t].1,
                r@.len() == nt,
                forall|o: int, p2: usize, q: usize| 0 <= o < nt && #[trigger] r@[o]@.contains((p2, q)) ==> p2 < dfa.n() && dfa.step(p2, o as usize) == Some(q),
                forall|o: usize, p2: usize| p2 < p && #[trigger] dfa.step(p2, o) is Some ==> o < nt && r@[o as int]@.contains((p2, dfa.step(p2, o)->0)),
                forall|t: int| 0 <= t < k ==> (#[trigger] row@[t]).0 < nt && r@[row@[t].0 as int]@.contains((p, row@[t].1)),
                forall|o: usize| dfa.row(p as int).contains_key(o) ==> exists|i: int| 0 <= i < row@.len() && #[trigger] row@[i].0 == o,
            decreases row@.len() - k,
        {
            let (o, q) = row[k];
            assert(dfa.transitions@[p as int]@.contains_key(o));
            let ghost r0 = r@;
            r[o].insert((p, q));
            proof {
                assert forall|o2: int, p2: usize, q2: usize| 0 <= o2 < nt && #[trigger] r@[o2]@.contains((p2, q2)) implies p2 < dfa.n() && dfa.step(p2, o2 as usize) == Some(q2) by {
                    if o2 != o {
                        assert(r0[o2] == r@[o2]);
                    }
                }
                assert forall|o2: usize, p2: usize| p2 < p && #[trigger] dfa.step(p2, o2) is Some implies o2 < nt && r@[o2 as int]@.contains((p2, dfa.step(p2, o2)->0)) by {
                    assert(r0[o2 as int]@.contains((p2, dfa.step(p2, o2)->0)));
                    if o2 != o {
                        assert(r0[o2 as int] == r@[o2 as int]);
                    }
                }
                assert forall|t: int| 0 <= t < k + 1 implies (#[trigger] row@[t]).0 < nt && r@[row@[t].0 as int]@.contains((p, row@[t].1)) by {
                    if t < k {
                        assert(r0[row@[t].0 as int]@.contains((p, row@[t].1)));
                        if row@[t].0 != o {
                            assert(r0[row@[t].0 as int] == r@[row@[t].0 as int]);
                        }
                    }
                }
            }
            k = k + 1;
        }
        proof {
            assert forall|o2: usize, p2: usize| p2 < p + 1 && #[trigger] dfa.step(p2, o2) is Some implies o2 < nt && r@[o2 as int]@.contains((p2, dfa.step(p2, o2)->0)) by {
                if p2 == p {
                    assert(dfa.row(p as int).contains_key(o2));
                    let i = choose|i: int| 0 <= i < row@.len() && #[trigger] row@[i].0 == o2;
                    assert(row@[i].0 < nt && r@[row@[i].0 as int]@.contains((p, row@[i].1)));
                }
            }
        }
        p = p + 1;
    }
    r
}

/// Visits the intersection variable `(p, a, r)`, known to derive: unless it
/// is marked already, tells whether it is the start variable between the
/// start state and an accepting state, and otherwise marks and queues it.
fn visit(
    gs: &mut Vec<bool>,
    tp: &mut Vec<(usize, usize, usize, usize)>,
    finals: &Vec<bool>,
    p: usize,
    a: usize,
    r: usize,
    n: usize,
    nv: usize,
    start_state: usize,
    start_symbol: usize,
    Ghost(g): Ghost<Seq<Seq<Seq<SymbolIndex>>>>,
    Ghost(dfa): Ghost<DFA>,
) -> (found: bool)
    requires
        search_ok(old(gs)@, old(tp)@, g, dfa, n as nat, nv as nat),
        finals_ok(finals@, dfa),
        dfa.wf(),
        n == dfa.n(),
        start_state == dfa.start_state,
        start_symbol < nv,
        n * n * nv < usize::MAX,
        p < n,
        r < n,
        a < nv,
        triple_gen(g, dfa, p, a, r),
    ensures
        search_ok(final(gs)@, final(tp)@, g, dfa, n as nat, nv as nat),
        found ==> intersection_nonempty(g, start_symbol, dfa),
        unmarked(final(gs)@) + final(tp)@.len() == unmarked(old(gs)@) + old(tp)@.len(),
        final(tp)@.len() >= old(tp)@.len(),
        ({
            let x = tri(n as nat, p as int, a as int, r as int);
            let is_final = p == start_state && a == start_symbol && finals@[r as int];
            &&& found <==> !old(gs)@[x] && is_final
            &&& (old(gs)@[x] || is_final) ==> final(gs)@ == old(gs)@ && final(tp)@ == old(tp)@
            &&& (!old(gs)@[x] && !is_final) ==> final(gs)@ == old(gs)@.update(x, true)
                && final(tp)@ == old(tp)@.push((p, a, r, x as usize))
        }),
        visit_step(old(gs)@, old(tp)@, final(gs)@, final(tp)@, n as nat, p, a, r),
        !found ==> final(gs)@[tri(n as nat, p as int, a as int, r as int)],
        no_final_marked(old(gs)@, dfa, n as nat, start_symbol) ==> no_final_marked(final(gs)@, dfa, n as nat, start_symbol),
{
    let x = tri_index(n, nv, p, a, r);
    if !gs[x] {
        if p == start_state && a == start_symbol && finals[r] {
            proof {
                lemma_final_triple(g, start_symbol, dfa, r);
            }
            return true;
        }
        let ghost gs0 = gs@;
        mark_generating(gs, tp, p, a, r, x, Ghost(g), Ghost(dfa), Ghost(n as nat), Ghost(nv as nat));
        proof {
            if no_final_marked(gs0, dfa, n as nat, start_symbol) {
                assert forall|f: usize| f < n && #[trigger] dfa.accept_states@.contains(f)
                    implies !gs@[tri(n as nat, dfa.start_state as int, start_symbol as int, f as int)] by {
                    lemma_tri_bound(n as nat, nv as nat, p as int, a as int, r as int);
                    lemma_tri_bound(n as nat, nv as nat, dfa.start_state as int, start_symbol as int, f as int);
                    if tri(n as nat, dfa.start_state as int, start_symbol as int, f as int) == x {
                        lemma_tri_injective(n as nat, dfa.start_state as int, start_symbol as int, f as int, p as int, a as int, r as int);
                        assert(finals@[r as int]);
                    }
                }
            }
        }
    }
    false
}

impl CFG {
    /// The lists, for every variable `b`, of the variables `a` with a
    /// production `a -> b`, of the pairs `(c, a)` with a production `a -> b c`,
    /// and, for every variable `c`, of the pairs `(b, a)` with a production `a -> b c`.
    pub fn production_maps(&self) -> (r: (Vec<Vec<usize>>, Vec<Vec<(usize, usize)>>, Vec<Vec<(usize, usize)>>))
        requires
            self.wf(),
        ensures
            production_maps_ok(self.g(), r.0@, r.1@, r.2@),
            forall|a: int, j: int| 0 <= a < self.g().len() && 0 <= j < self.g()[a].len() ==> #[trigger] listed_at(self.g(), r.0@, r.1@, r.2@, a, j),
    {
        let ghost g = self.g();
        let nonterminals_len = self.productions.len();
        let mut single: Vec<Vec<usize>> = Vec::new();
        let mut two_r: Vec<Vec<(usize, usize)>> = Vec::new();
        let mut two_l: Vec<Vec<(usize, usize)>> = Vec::new();
        let mut i: usize = 0;
        while i < nonterminals_len
            invariant
                i <= nonterminals_len,
                single@.len() == i,
                two_r@.len() == i,
                two_l@.len() == i,
                forall|k: int| 0 <= k < i ==> (#[trigger] single@[k])@.len() == 0,
                forall|k: int| 0 <= k < i ==> (#[trigger] two_r@[k])@.len() == 0,
                forall|k: int| 0 <= k < i ==> (#[trigger] two_l@[k])@.len() == 0,
            decreases nonterminals_len - i,
        {
            single.push(Vec::new());
            two_r.push(Vec::new());
            two_l.push(Vec::new());
            i = i + 1;
        }
        let mut a: usize = 0;
        while a < nonterminals_len
            invariant
                self.wf(),
                g == self.g(),
                nonterminals_len == g.len(),
                a <= nonterminals_len,
                production_maps_ok(g, single@, two_r@, two_l@),
                forall|a2: int, j2: int| 0 <= a2 < a && 0 <= j2 < g[a2].len() ==> #[trigger] listed_at(g, single@, two_r@, two_l@, a2, j2),
            decreases nonterminals_len - a,
        {
            let rules = &self.productions[a];
            let mut j: usize = 0;
            while j < rules.len()
                invariant
                    self.wf(),
                    g == self.g(),
                    nonterminals_len == g.len(),
                    a < nonterminals_len,
                    rules@ == self.productions@[a as int]@,
                    j <= rules@.len(),
                    production_maps_ok(g, single@, two_r@, two_l@),
                    forall|a2: int, j2: int| 0 <= a2 < a && 0 <= j2 < g[a2].len() ==> #[trigger] listed_at(g, single@, two_r@, two_l@, a2, j2),
                    forall|j2: int| 0 <= j2 < j ==> #[trigger] listed_at(g, single@, two_r@, two_l@, a as int, j2),
                decreases rules@.len() - j,
            {
                let production = &rules[j];
                let ghost s0 = single@;
                let ghost r0 = two_r@;
                let ghost l0 = two_l@;
                assert(production@ == g[a as int][j as int]);
                if production.len() == 2 {
                    assert(symbol_in(g, self.nt(), g[a as int][j as int][0]));
                    assert(symbol_in(g, self.nt(), g[a as int][j as int][1]));
                    match (production[0], production[1]) {
                        (SymbolIndex::VariableIndex(b), SymbolIndex::VariableIndex(c)) => {
                            proof {
                                assert(production@ =~= seq![SymbolIndex::VariableIndex(b), SymbolIndex::VariableIndex(c)]);
                            }
                            let ghost r0 = two_r@;
                            two_r[b].push((c, a));
                            proof {
                                lemma_push_right(g, r0, two_r@, b as int, c, a, j as int);
                            }
                            let ghost l0 = two_l@;
                            two_l[c].push((b, a));
                            proof {
                                lemma_push_left(g, l0, two_l@, c as int, b, a, j as int);
                            }
                        },
                        _ => {},
                    }
                } else if production.len() == 1 {
                    assert(symbol_in(g, self.nt(), g[a as int][j as int][0]));
                    match production[0] {
                        SymbolIndex::VariableIndex(b) => {
                            proof {
                                assert(production@ =~= seq![SymbolIndex::VariableIndex(b)]);
                            }
                            let ghost s0 = single@;
                            single[b].push(a);
                            proof {
                                lemma_push_single(g, s0, single@, b as int, a, j as int);
                            }
                        },
                        _ => {},
                    }
                }
                proof {
                    assert(lists_grow(s0, single@));
                    assert(lists_grow(r0, two_r@));
                    assert(lists_grow(l0, two_l@));
                    assert forall|a2: int, j2: int| 0 <= a2 < a && 0 <= j2 < g[a2].len() implies #[trigger] listed_at(g, single@, two_r@, two_l@, a2, j2) by {
                        assert forall|k: int| 0 <= k < g[a2][j2].len() implies (#[trigger] g[a2][j2][k] matches SymbolIndex::VariableIndex(v) ==> v < g.len()) by {
                            assert(symbol_in(g, self.nt(), g[a2][j2][k]));
                        }
                        lemma_listed_grow(g, s0, r0, l0, single@, two_r@, two_l@, a2, j2);
                    }
                    assert forall|j2: int| 0 <= j2 < j + 1 implies #[trigger] listed_at(g, single@, two_r@, two_l@, a as int, j2) by {
                        if j2 < j {
                            assert forall|k: int| 0 <= k < g[a as int][j2].len() implies (#[trigger] g[a as int][j2][k] matches SymbolIndex::VariableIndex(v) ==> v < g.len()) by {
                                assert(symbol_in(g, self.nt(), g[a as int][j2][k]));
                            }
                            lemma_listed_grow(g, s0, r0, l0, single@, two_r@, two_l@, a as int, j2);
                        } else {
                            let body = g[a as int][j as int];
                            if body.len() == 1 && body[0] is VariableIndex {
                                let b = body[0]->VariableIndex_0 as int;
                                assert(single@[b]@.last() == a);
                            }
                            if body.len() == 2 && body[0] is VariableIndex && body[1] is VariableIndex {
                                let b = body[0]->VariableIndex_0 as int;
                                let c = body[1]->VariableIndex_0 as int;
                                assert(two_r@[b]@.last() == (c as usize, a));
                                assert(two_l@[c]@.last() == (b as usize, a));
                            }
                        }
                    }
                }
                j = j + 1;
            }
            a = a + 1;
        }
        (single, two_r, two_l)
    }

    /// Searches the variables `(p, v, q)` of the intersection with `dfa` that
    /// derive a word, from the terminal and empty productions upwards, and
    /// stops as soon as `(start state, start variable, accepting state)` is
    /// found. Returns whether it found none (also after `timeout`, or once the
    /// search has grown past its bounds) and the marks of the variables found.
    pub fn _is_intersection_empty(&self, dfa: &DFA, timeout: Option<core::time::Duration>) -> (r: (bool, Vec<bool>))
        requires
            self.wf(),
            binary_form(self.g()),
            dfa.wf(),
            dfa.alphabet@.len() <= self.nt(),
            dfa.n() * dfa.n() * self.productions@.len() < usize::MAX,
        ensures
            r.1@.len() == dfa.n() * dfa.n() * self.productions@.len() + 1,
            marked_ok(r.1@, self.g(), *dfa, dfa.n(), self.productions@.len() as nat),
            !r.0 ==> intersection_nonempty(self.g(), self.start_symbol, *dfa),
            r.0 && timeout is None && generating_triples(self.g(), *dfa, dfa.n(), self.productions@.len() as nat) <= 64_000_000
                ==> !intersection_nonempty(self.g(), self.start_symbol, *dfa),
            r.0 && timeout is None && generating_triples(self.g(), *dfa, dfa.n(), self.productions@.len() as nat) <= 64_000_000
                ==> forall|p: usize, v: usize, q: usize|
                p < dfa.n() && v < self.productions@.len() && q < dfa.n() && #[trigger] triple_gen(self.g(), *dfa, p, v, q)
                    ==> r.1@[tri(dfa.n(), p as int, v as int, q as int)],
    {
        let ghost g = self.g();
        let states_len = dfa.states.len();
        let nonterminals_len = self.productions.len();
        let ghost n = states_len as nat;
        let ghost nv = nonterminals_len as nat;
        let dfa_start_state = dfa.start_state;
        let cfg_start_symbol = self.start_symbol;
        let dfa_final_states = final_flags(dfa);
        proof {
            assert(n * n <= n * n * nv) by (nonlinear_arith)
                requires
                    nv >= 1,
            ;
        }
        let new_non_terminals = states_len * states_len * nonterminals_len + 1;
        let mut generating_symbols = all_unmarked(new_non_terminals);
        let mut to_process: Vec<(usize, usize, usize, usize)> = Vec::new();
        proof {
            assert forall|p: usize, v: usize, q: usize|
                p < n && q < n && v < nv && #[trigger] generating_symbols@[tri(n, p as int, v as int, q as int)] implies triple_gen(g, *dfa, p, v, q) by {
                lemma_tri_bound(n, nv, p as int, v as int, q as int);
            }
            assert forall|a: int, j: int, k: int| 0 <= a < g.len() && 0 <= j < g[a].len() && 0 <= k < g[a][j].len()
                implies (#[trigger] g[a][j][k] matches SymbolIndex::VariableIndex(v) ==> v < g.len()) by {
                assert(symbol_in(g, self.nt(), g[a][j][k]));
            }
            lemma_unmarked_none(generating_symbols@);
        }
        let trans_exists = transitions_by_symbol(dfa, self.terminals.len());
        let (single_production_map, two_production_map_r, two_production_map_l) = self.production_maps();
        proof {
            assert forall|a: int, j: int, p: usize, q: usize| 0 <= a < g.len() && 0 <= j < g[a].len() && p < n && q < n
                implies #[trigger] unit_at(generating_symbols@, to_process@, None, g, n, a, j, p, q) by {
                let body = g[a][j];
                if body.len() == 1 && body[0] is VariableIndex {
                    assert(symbol_in(g, self.nt(), g[a][j][0]));
                    lemma_tri_bound(n, nv, p as int, body[0]->VariableIndex_0 as int, q as int);
                }
            }
            assert forall|a: int, j: int, p: usize, q: usize, r: usize| 0 <= a < g.len() && 0 <= j < g[a].len() && p < n && q < n && r < n
                implies #[trigger] pair_at(generating_symbols@, to_process@, None, g, n, a, j, p, q, r) by {
                let body = g[a][j];
                if body.len() == 2 && body[0] is VariableIndex && body[1] is VariableIndex {
                    assert(symbol_in(g, self.nt(), g[a][j][0]));
                    lemma_tri_bound(n, nv, p as int, body[0]->VariableIndex_0 as int, q as int);
                }
            }
            assert forall|f: usize| f < n && #[trigger] dfa.accept_states@.contains(f)
                implies !generating_symbols@[tri(n, dfa.start_state as int, cfg_start_symbol as int, f as int)] by {
                lemma_tri_bound(n, nv, dfa.start_state as int, cfg_start_symbol as int, f as int);
            }
        }
        let mut a_symbol: usize = 0;
        while a_symbol < nonterminals_len
            invariant
                self.wf(),
                g == self.g(),
                binary_form(g),
                dfa.wf(),
                n == dfa.n(),
                states_len == n,
                nv == g.len(),
                nonterminals_len == nv,
                dfa_start_state == dfa.start_state,
                cfg_start_symbol == self.start_symbol,
                cfg_start_symbol < nv,
                n * n * nv < usize::MAX,
                a_symbol <= nonterminals_len,
                finals_ok(dfa_final_states@, *dfa),
                search_ok(generating_symbols@, to_process@, g, *dfa, n, nv),
                variables_in(g),
                closed(generating_symbols@, to_process@, None, g, n),
                no_final_marked(generating_symbols@, *dfa, n, cfg_start_symbol),
                !generating_symbols@[(n * n * nv) as int],
                unmarked(generating_symbols@) + to_process@.len() == generating_symbols@.len(),
                forall|o: usize, p2: usize| p2 < n && #[trigger] dfa.step(p2, o) is Some ==> o < self.nt() && trans_exists@[o as int]@.contains((p2, dfa.step(p2, o)->0)),
                forall|a2: int, j2: int, p2: usize| 0 <= a2 < a_symbol && 0 <= j2 < g[a2].len() && p2 < n ==> #[trigger] init_at(generating_symbols@, g, *dfa, n, a2, j2, p2),
                trans_exists@.len() == self.nt(),
                forall|o: int, p2: usize, q: usize| 0 <= o < self.nt() && #[trigger] trans_exists@[o]@.contains((p2, q)) ==> p2 < n && dfa.step(p2, o as usize) == Some(q),
            decreases nonterminals_len - a_symbol,
        {
            let rules = &self.productions[a_symbol];
            let mut j: usize = 0;
            while j < rules.len()
                invariant
                    self.wf(),
                    g == self.g(),
                    binary_form(g),
                    dfa.wf(),
                    n == dfa.n(),
                    states_len == n,
                    nv == g.len(),
                    nonterminals_len == nv,
                    dfa_start_state == dfa.start_state,
                    cfg_start_symbol == self.start_symbol,
                    cfg_start_symbol < nv,
                    n * n * nv < usize::MAX,
                    a_symbol < nonterminals_len,
                    rules@ == self.productions@[a_symbol as int]@,
                    j <= rules@.len(),
                    finals_ok(dfa_final_states@, *dfa),
                    search_ok(generating_symbols@, to_process@, g, *dfa, n, nv),
                    variables_in(g),
                    closed(generating_symbols@, to_process@, None, g, n),
                    no_final_marked(generating_symbols@, *dfa, n, cfg_start_symbol),
                    !generating_symbols@[(n * n * nv) as int],
                    unmarked(generating_symbols@) + to_process@.len() == generating_symbols@.len(),
                    forall|o: usize, p2: usize| p2 < n && #[trigger] dfa.step(p2, o) is Some ==> o < self.nt() && trans_exists@[o as int]@.contains((p2, dfa.step(p2, o)->0)),
                    forall|a2: int, j2: int, p2: usize| 0 <= a2 < a_symbol && 0 <= j2 < g[a2].len() && p2 < n ==> #[trigger] init_at(generating_symbols@, g, *dfa, n, a2, j2, p2),
                    forall|j2: int, p2: usize| 0 <= j2 < j && p2 < n ==> #[trigger] init_at(generating_symbols@, g, *dfa, n, a_symbol as int, j2, p2),
                    trans_exists@.len() == self.nt(),
                    forall|o: int, p2: usize, q: usize| 0 <= o < self.nt() && #[trigger] trans_exists@[o]@.contains((p2, q)) ==> p2 < n && dfa.step(p2, o as usize) == Some(q),
                decreases rules@.len() - j,
            {
                let production = &rules[j];
                assert(production@ == g[a_symbol as int][j as int]);
                if production.len() == 1 {
                    assert(symbol_in(g, self.nt(), g[a_symbol as int][j as int][0]));
                    match production[0] {
                        SymbolIndex::TerminalIndex(terminal_index) => {
                            proof {
                                assert(production@ =~= seq![SymbolIndex::TerminalIndex(terminal_index)]);
                            }
                            let pairs = trans_exists[terminal_index].to_vec();
                            let mut k: usize = 0;
                            while k < pairs.len()
                                invariant
                                    g == self.g(),
                                    dfa.wf(),
                                    n == dfa.n(),
                                    states_len == n,
                                    nv == g.len(),
                                    nonterminals_len == nv,
                                    dfa_start_state == dfa.start_state,
                                    cfg_start_symbol == self.start_symbol,
                                    cfg_start_symbol < nv,
                                    n * n * nv < usize::MAX,
                                    a_symbol < nv,
                                    j < g[a_symbol as int].len(),
                                    g[a_symbol as int][j as int] == seq![SymbolIndex::TerminalIndex(terminal_index)],
                                    terminal_index < self.nt(),
                                    trans_exists@.len() == self.nt(),
                                    forall|o: int, p2: usize, q: usize| 0 <= o < self.nt() && #[trigger] trans_exists@[o]@.contains((p2, q)) ==> p2 < n && dfa.step(p2, o as usize) == Some(q),
                                    pairs@.to_set() == trans_exists@[terminal_index as int]@,
                                    k <= pairs@.len(),
                                    finals_ok(dfa_final_states@, *dfa),
                                    search_ok(generating_symbols@, to_process@, g, *dfa, n, nv),
                                    variables_in(g),
                                    closed(generating_symbols@, to_process@, None, g, n),
                                    no_final_marked(generating_symbols@, *dfa, n, cfg_start_symbol),
                                    !generating_symbols@[(n * n * nv) as int],
                                    unmarked(generating_symbols@) + to_process@.len() == generating_symbols@.len(),
                                    forall|o: usize, p2: usize| p2 < n && #[trigger] dfa.step(p2, o) is Some ==> o < self.nt() && trans_exists@[o as int]@.contains((p2, dfa.step(p2, o)->0)),
                                    forall|a2: int, j2: int, p2: usize| 0 <= a2 < a_symbol && 0 <= j2 < g[a2].len() && p2 < n ==> #[trigger] init_at(generating_symbols@, g, *dfa, n, a2, j2, p2),
                                    forall|j2: int, p2: usize| 0 <= j2 < j && p2 < n ==> #[trigger] init_at(generating_symbols@, g, *dfa, n, a_symbol as int, j2, p2),
                                    forall|k2: int| 0 <= k2 < k ==> #[trigger] generating_symbols@[tri(n, pairs@[k2].0 as int, a_symbol as int, pairs@[k2].1 as int)],
                                decreases pairs@.len() - k,
                            {
                                let (pp, qq) = pairs[k];
                                proof {
                                    assert(pairs@.to_set().contains(pairs@[k as int]));
                                    assert(trans_exists@[terminal_index as int]@.contains((pp, qq)));
                                    dfa.lemma_run_in_range(pp, seq![terminal_index]);
                                    assert(seq![terminal_index].drop_last() =~= Seq::<usize>::empty());
                                    assert(dfa.run(pp, Seq::<usize>::empty()) == Some(pp));
                                    lemma_triple_terminal(g, *dfa, a_symbol as int, j as int, terminal_index, pp, qq);
                                }
                                let ghost gs0 = generating_symbols@;
                                let ghost tp0 = to_process@;
                                let found = visit(&mut generating_symbols, &mut to_process, &dfa_final_states, pp, a_symbol, qq, states_len, nonterminals_len, dfa_start_state, cfg_start_symbol, Ghost(g), Ghost(*dfa));
                                proof {
                                    lemma_visit_step(gs0, tp0, generating_symbols@, to_process@, None, g, *dfa, n, pp, a_symbol, qq);
                                }
                                if found {
                                    return (false, generating_symbols);
                                }
                                proof {
                                    assert forall|k2: int| 0 <= k2 < k + 1 implies #[trigger] generating_symbols@[tri(n, pairs@[k2].0 as int, a_symbol as int, pairs@[k2].1 as int)] by {
                                        if k2 < k {
                                            assert(pairs@.to_set().contains(pairs@[k2]));
                                            assert(trans_exists@[terminal_index as int]@.contains(pairs@[k2]));
                                            lemma_tri_bound(n, nv, pairs@[k2].0 as int, a_symbol as int, pairs@[k2].1 as int);
                                            assert(gs0[tri(n, pairs@[k2].0 as int, a_symbol as int, pairs@[k2].1 as int)]);
                                        }
                                    }
                                }
                                k = k + 1;
                            }
                            proof {
                                assert forall|p2: usize| p2 < n implies #[trigger] init_at(generating_symbols@, g, *dfa, n, a_symbol as int, j as int, p2) by {
                                    if dfa.step(p2, terminal_index) is Some {
                                        let q2 = dfa.step(p2, terminal_index)->0;
                                        assert(trans_exists@[terminal_index as int]@.contains((p2, q2)));
                                        assert(pairs@.to_set().contains((p2, q2)));
                                        assert(pairs@.contains((p2, q2)));
                                        let k2 = choose|k2: int| 0 <= k2 < pairs@.len() && pairs@[k2] == (p2, q2);
                                        assert(generating_symbols@[tri(n, pairs@[k2].0 as int, a_symbol as int, pairs@[k2].1 as int)]);
                                    }
                                }
                            }
                        },
                        _ => {},
                    }
                } else if production.len() == 0 {
                    let mut pp: usize = 0;
                    while pp < states_len
                        invariant
                            g == self.g(),
                            dfa.wf(),
                            n == dfa.n(),
                            states_len == n,
                            nv == g.len(),
                            nonterminals_len == nv,
                            dfa_start_state == dfa.start_state,
                            cfg_start_symbol == self.start_symbol,
                            cfg_start_symbol < nv,
                            n * n * nv < usize::MAX,
                            a_symbol < nv,
                            j < g[a_symbol as int].len(),
                            g[a_symbol as int][j as int].len() == 0,
                            pp <= states_len,
                            finals_ok(dfa_final_states@, *dfa),
                            search_ok(generating_symbols@, to_process@, g, *dfa, n, nv),
                            variables_in(g),
                            closed(generating_symbols@, to_process@, None, g, n),
                            no_final_marked(generating_symbols@, *dfa, n, cfg_start_symbol),
                            !generating_symbols@[(n * n * nv) as int],
                            unmarked(generating_symbols@) + to_process@.len() == generating_symbols@.len(),
                            forall|o: usize, p2: usize| p2 < n && #[trigger] dfa.step(p2, o) is Some ==> o < self.nt() && trans_exists@[o as int]@.contains((p2, dfa.step(p2, o)->0)),
                            forall|a2: int, j2: int, p2: usize| 0 <= a2 < a_symbol && 0 <= j2 < g[a2].len() && p2 < n ==> #[trigger] init_at(generating_symbols@, g, *dfa, n, a2, j2, p2),
                            forall|j2: int, p2: usize| 0 <= j2 < j && p2 < n ==> #[trigger] init_at(generating_symbols@, g, *dfa, n, a_symbol as int, j2, p2),
                            forall|p2: usize| p2 < pp ==> #[trigger] generating_symbols@[tri(n, p2 as int, a_symbol as int, p2 as int)],
                        decreases states_len - pp,
                    {
                        proof {
                            lemma_triple_empty(g, *dfa, a_symbol as int, j as int, pp);
                        }
                        let ghost gs0 = generating_symbols@;
                        let ghost tp0 = to_process@;
                        let found = visit(&mut generating_symbols, &mut to_process, &dfa_final_states, pp, a_symbol, pp, states_len, nonterminals_len, dfa_start_state, cfg_start_symbol, Ghost(g), Ghost(*dfa));
                        proof {
                            lemma_visit_step(gs0, tp0, generating_symbols@, to_process@, None, g, *dfa, n, pp, a_symbol, pp);
                        }
                        if found {
                            return (false, generating_symbols);
                        }
                        proof {
                            assert forall|p2: usize| p2 < pp + 1 implies #[trigger] generating_symbols@[tri(n, p2 as int, a_symbol as int, p2 as int)] by {
                                if p2 < pp {
                                    lemma_tri_bound(n, nv, p2 as int, a_symbol as int, p2 as int);
                                    assert(gs0[tri(n, p2 as int, a_symbol as int, p2 as int)]);
                                }
                            }
                        }
                        pp = pp + 1;
                    }
                    proof {
                        assert forall|p2: usize| p2 < n implies #[trigger] init_at(generating_symbols@, g, *dfa, n, a_symbol as int, j as int, p2) by {
                            assert(generating_symbols@[tri(n, p2 as int, a_symbol as int, p2 as int)]);
                        }
                    }
                }
                proof {
                    assert forall|j2: int, p2: usize| 0 <= j2 < j + 1 && p2 < n implies #[trigger] init_at(generating_symbols@, g, *dfa, n, a_symbol as int, j2, p2) by {
                        if j2 == j {
                            let body = g[a_symbol as int][j as int];
                            assert(body.len() <= 2);
                            if body.len() == 0 || (body.len() == 1 && body[0] is TerminalIndex) {
                                assert(init_at(generating_symbols@, g, *dfa, n, a_symbol as int, j as int, p2));
                            }
                        }
                    }
                }
                j = j + 1;
            }
            a_symbol = a_symbol + 1;
        }
        proof {
            assert(to_process@.len() + unmarked(generating_symbols@) == generating_symbols@.len());
        }
        let start_time = now();
        let mut count: usize = 0;
        while to_process.len() > 0
            invariant
                g == self.g(),
                dfa.wf(),
                n == dfa.n(),
                states_len == n,
                nv == g.len(),
                nonterminals_len == nv,
                dfa_start_state == dfa.start_state,
                cfg_start_symbol == self.start_symbol,
                cfg_start_symbol < nv,
                n * n * nv < usize::MAX,
                count <= 64_000_000,
                finals_ok(dfa_final_states@, *dfa),
                search_ok(generating_symbols@, to_process@, g, *dfa, n, nv),
                variables_in(g),
                closed(generating_symbols@, to_process@, None, g, n),
                init_closed(generating_symbols@, g, *dfa, n),
                no_final_marked(generating_symbols@, *dfa, n, cfg_start_symbol),
                !generating_symbols@[(n * n * nv) as int],
                count + to_process@.len() + unmarked(generating_symbols@) == generating_symbols@.len(),
                binary_form(g),
                forall|a2: int, j2: int| 0 <= a2 < g.len() && 0 <= j2 < g[a2].len() ==> #[trigger] listed_at(g, single_production_map@, two_production_map_r@, two_production_map_l@, a2, j2),
                production_maps_ok(g, single_production_map@, two_production_map_r@, two_production_map_l@),
            decreases 2 * unmarked(generating_symbols@) + to_process@.len(),
        {
            let ghost tp0 = to_process@;
            let (p_old, b_old, q_old, _new_symbol) = to_process.pop().unwrap();
            let ghost t = (p_old, b_old, q_old);
            proof {
                assert(tp0 == to_process@.push((p_old, b_old, q_old, _new_symbol)));
                lemma_hold(generating_symbols@, to_process@, (p_old, b_old, q_old, _new_symbol), g, n);
                assert(tp0 == to_process@.push((p_old, b_old, q_old, _new_symbol)));
                let e = tp0[tp0.len() - 1];
                assert(e == (p_old, b_old, q_old, _new_symbol));
                assert(queue_ok(tp0, generating_symbols@, n, nv));
                assert(generating_symbols@[e.3 as int]);
                assert(triple_gen(g, *dfa, p_old, b_old, q_old));
                assert forall|k: int| 0 <= k < to_process@.len() implies #[trigger] to_process@[k] == tp0[k] by {}
            }
            count = count + 1;
            match timeout {
                Some(limit) => {
                    if elapsed_beyond(&start_time, limit) {
                        return (true, generating_symbols);
                    }
                },
                None => {},
            }
            if to_process.len() > 64_000_000 || count > 64_000_000 {
                proof {
                    lemma_unmarked_pos(generating_symbols@, (n * n * nv) as int);
                    lemma_marked_at_most_generating(generating_symbols@, g, *dfa, n, nv);
                }
                return (true, generating_symbols);
            }
            let ghost unmarked0 = unmarked(generating_symbols@);
            let ghost len0 = to_process@.len();
            let singles = &single_production_map[b_old];
            let mut k: usize = 0;
            while k < singles.len()
                invariant
                    g == self.g(),
                    dfa.wf(),
                    n == dfa.n(),
                    states_len == n,
                    nv == g.len(),
                    nonterminals_len == nv,
                    dfa_start_state == dfa.start_state,
                    cfg_start_symbol == self.start_symbol,
                    cfg_start_symbol < nv,
                    n * n * nv < usize::MAX,
                    p_old < n,
                    q_old < n,
                    b_old < nv,
                    triple_gen(g, *dfa, p_old, b_old, q_old),
                    singles@ == single_production_map@[b_old as int]@,
                    k <= singles@.len(),
                    finals_ok(dfa_final_states@, *dfa),
                    search_ok(generating_symbols@, to_process@, g, *dfa, n, nv),
                    variables_in(g),
                    closed(generating_symbols@, to_process@, Some(t), g, n),
                    init_closed(generating_symbols@, g, *dfa, n),
                    no_final_marked(generating_symbols@, *dfa, n, cfg_start_symbol),
                    !generating_symbols@[(n * n * nv) as int],
                    count + len0 + unmarked0 == generating_symbols@.len(),
                    t == (p_old, b_old, q_old),
                    forall|a2: int, j2: int| 0 <= a2 < g.len() && 0 <= j2 < g[a2].len() ==> #[trigger] listed_at(g, single_production_map@, two_production_map_r@, two_production_map_l@, a2, j2),
                    forall|k2: int| 0 <= k2 < k ==> #[trigger] single_fact(generating_symbols@, n, t, single_production_map@[b_old as int]@[k2]),
                    production_maps_ok(g, single_production_map@, two_production_map_r@, two_production_map_l@),
                    unmarked(generating_symbols@) + to_process@.len() == unmarked0 + len0,
                    to_process@.len() >= len0,
                decreases singles@.len() - k,
            {
                let a_symbol = singles[k];
                proof {
                    let jj = choose|jj: int| 0 <= jj < g[a_symbol as int].len() && #[trigger] g[a_symbol as int][jj] == seq![SymbolIndex::VariableIndex(b_old)];
                    lemma_triple_unit(g, *dfa, a_symbol as int, jj, b_old, p_old, q_old);
                }
                let ghost gs0 = generating_symbols@;
                let ghost tp0 = to_process@;
                let found = visit(&mut generating_symbols, &mut to_process, &dfa_final_states, p_old, a_symbol, q_old, states_len, nonterminals_len, dfa_start_state, cfg_start_symbol, Ghost(g), Ghost(*dfa));
                proof {
                    lemma_visit_step(gs0, tp0, generating_symbols@, to_process@, Some(t), g, *dfa, n, p_old, a_symbol, q_old);
                    lemma_facts_transfer(gs0, tp0, generating_symbols@, to_process@, g, n, t, single_production_map@, two_production_map_r@, two_production_map_l@);
                }
                if found {
                    return (false, generating_symbols);
                }
                proof {
                    assert forall|k2: int| 0 <= k2 < k + 1 implies #[trigger] single_fact(generating_symbols@, n, t, single_production_map@[b_old as int]@[k2]) by {
                        if k2 < k {
                            assert(single_fact(gs0, n, t, single_production_map@[b_old as int]@[k2]));
                        }
                    }
                }
                k = k + 1;
            }
            let rights = &two_production_map_r[b_old];
            k = 0;
            while k < rights.len()
                invariant
                    g == self.g(),
                    dfa.wf(),
                    n == dfa.n(),
                    states_len == n,
                    nv == g.len(),
                    nonterminals_len == nv,
                    dfa_start_state == dfa.start_state,
                    cfg_start_symbol == self.start_symbol,
                    cfg_start_symbol < nv,
                    n * n * nv < usize::MAX,
                    p_old < n,
                    q_old < n,
                    b_old < nv,
                    triple_gen(g, *dfa, p_old, b_old, q_old),
                    rights@ == two_production_map_r@[b_old as int]@,
                    k <= rights@.len(),
                    finals_ok(dfa_final_states@, *dfa),
                    search_ok(generating_symbols@, to_process@, g, *dfa, n, nv),
                    variables_in(g),
                    closed(generating_symbols@, to_process@, Some(t), g, n),
                    init_closed(generating_symbols@, g, *dfa, n),
                    no_final_marked(generating_symbols@, *dfa, n, cfg_start_symbol),
                    !generating_symbols@[(n * n * nv) as int],
                    count + len0 + unmarked0 == generating_symbols@.len(),
                    t == (p_old, b_old, q_old),
                    forall|a2: int, j2: int| 0 <= a2 < g.len() && 0 <= j2 < g[a2].len() ==> #[trigger] listed_at(g, single_production_map@, two_production_map_r@, two_production_map_l@, a2, j2),
                    forall|k2: int| 0 <= k2 < single_production_map@[b_old as int]@.len() ==> #[trigger] single_fact(generating_symbols@, n, t, single_production_map@[b_old as int]@[k2]),
                    forall|k2: int, r2: usize| 0 <= k2 < k && r2 < n ==> #[trigger] right_fact(generating_symbols@, to_process@, n, t, two_production_map_r@[b_old as int]@[k2].0, two_production_map_r@[b_old as int]@[k2].1, r2),
                    production_maps_ok(g, single_production_map@, two_production_map_r@, two_production_map_l@),
                    unmarked(generating_symbols@) + to_process@.len() == unmarked0 + len0,
                    to_process@.len() >= len0,
                decreases rights@.len() - k,
            {
                let (c_symbol, a_symbol) = rights[k];
                let mut r_old: usize = 0;
                while r_old < states_len
                    invariant
                        g == self.g(),
                        dfa.wf(),
                        n == dfa.n(),
                        states_len == n,
                        nv == g.len(),
                        nonterminals_len == nv,
                        dfa_start_state == dfa.start_state,
                        cfg_start_symbol == self.start_symbol,
                        cfg_start_symbol < nv,
                        n * n * nv < usize::MAX,
                        p_old < n,
                        q_old < n,
                        b_old < nv,
                        c_symbol < nv,
                        a_symbol < nv,
                        exists|jj: int| 0 <= jj < g[a_symbol as int].len() && #[trigger] g[a_symbol as int][jj] == seq![SymbolIndex::VariableIndex(b_old), SymbolIndex::VariableIndex(c_symbol)],
                        triple_gen(g, *dfa, p_old, b_old, q_old),
                        r_old <= states_len,
                        finals_ok(dfa_final_states@, *dfa),
                        search_ok(generating_symbols@, to_process@, g, *dfa, n, nv),
                        variables_in(g),
                        closed(generating_symbols@, to_process@, Some(t), g, n),
                        init_closed(generating_symbols@, g, *dfa, n),
                        no_final_marked(generating_symbols@, *dfa, n, cfg_start_symbol),
                        !generating_symbols@[(n * n * nv) as int],
                        count + len0 + unmarked0 == generating_symbols@.len(),
                        t == (p_old, b_old, q_old),
                        forall|a2: int, j2: int| 0 <= a2 < g.len() && 0 <= j2 < g[a2].len() ==> #[trigger] listed_at(g, single_production_map@, two_production_map_r@, two_production_map_l@, a2, j2),
                        forall|k2: int| 0 <= k2 < single_production_map@[b_old as int]@.len() ==> #[trigger] single_fact(generating_symbols@, n, t, single_production_map@[b_old as int]@[k2]),
                        forall|k2: int, r2: usize| 0 <= k2 < k && r2 < n ==> #[trigger] right_fact(generating_symbols@, to_process@, n, t, two_production_map_r@[b_old as int]@[k2].0, two_production_map_r@[b_old as int]@[k2].1, r2),
                        rights@ == two_production_map_r@[b_old as int]@,
                        k < rights@.len(),
                        rights@[k as int] == (c_symbol, a_symbol),
                        production_maps_ok(g, single_production_map@, two_production_map_r@, two_production_map_l@),
                        forall|r2: usize| r2 < r_old ==> #[trigger] right_fact(generating_symbols@, to_process@, n, t, c_symbol, a_symbol, r2),
                        unmarked(generating_symbols@) + to_process@.len() == unmarked0 + len0,
                        to_process@.len() >= len0,
                    decreases states_len - r_old,
                {
                    let ghost gsb = generating_symbols@;
                    let ghost tpb = to_process@;
                    let c_symbol_index = tri_index(states_len, nonterminals_len, q_old, c_symbol, r_old);
                    if generating_symbols[c_symbol_index] {
                        proof {
                            assert(triple_gen(g, *dfa, q_old, c_symbol, r_old));
                            let jj = choose|jj: int| 0 <= jj < g[a_symbol as int].len() && #[trigger] g[a_symbol as int][jj] == seq![SymbolIndex::VariableIndex(b_old), SymbolIndex::VariableIndex(c_symbol)];
                            lemma_triple_pair(g, *dfa, a_symbol as int, jj, b_old, c_symbol, p_old, q_old, r_old);
                        }
                        let ghost gs0 = generating_symbols@;
                        let ghost tp0 = to_process@;
                        let found = visit(&mut generating_symbols, &mut to_process, &dfa_final_states, p_old, a_symbol, r_old, states_len, nonterminals_len, dfa_start_state, cfg_start_symbol, Ghost(g), Ghost(*dfa));
                        proof {
                            lemma_visit_step(gs0, tp0, generating_symbols@, to_process@, Some(t), g, *dfa, n, p_old, a_symbol, r_old);
                            lemma_facts_transfer(gs0, tp0, generating_symbols@, to_process@, g, n, t, single_production_map@, two_production_map_r@, two_production_map_l@);
                            assert forall|r2: usize| r2 < r_old implies #[trigger] right_fact(generating_symbols@, to_process@, n, t, c_symbol, a_symbol, r2) by {
                                assert(right_fact(gs0, tp0, n, t, c_symbol, a_symbol, r2));
                            }
                        }
                        if found {
                            return (false, generating_symbols);
                        }
                    }
                    proof {
                        assert forall|r2: usize| r2 < r_old + 1 implies #[trigger] right_fact(generating_symbols@, to_process@, n, t, c_symbol, a_symbol, r2) by {
                            if r2 == r_old {
                                lemma_tri_bound(n, nv, p_old as int, a_symbol as int, r_old as int);
                            }
                        }
                    }
                    r_old = r_old + 1;
                }
                proof {
                    assert forall|k2: int, r2: usize| 0 <= k2 < k + 1 && r2 < n implies #[trigger] right_fact(generating_symbols@, to_process@, n, t, two_production_map_r@[b_old as int]@[k2].0, two_production_map_r@[b_old as int]@[k2].1, r2) by {
                        if k2 == k {
                            assert(right_fact(generating_symbols@, to_process@, n, t, c_symbol, a_symbol, r2));
                        }
                    }
                }
                k = k + 1;
            }
            let lefts = &two_production_map_l[b_old];
            k = 0;
            while k < lefts.len()
                invariant
                    g == self.g(),
                    dfa.wf(),
                    n == dfa.n(),
                    states_len == n,
                    nv == g.len(),
                    nonterminals_len == nv,
                    dfa_start_state == dfa.start_state,
                    cfg_start_symbol == self.start_symbol,
                    cfg_start_symbol < nv,
                    n * n * nv < usize::MAX,
                    p_old < n,
                    q_old < n,
                    b_old < nv,
                    triple_gen(g, *dfa, p_old, b_old, q_old),
                    lefts@ == two_production_map_l@[b_old as int]@,
                    k <= lefts@.len(),
                    finals_ok(dfa_final_states@, *dfa),
                    search_ok(generating_symbols@, to_process@, g, *dfa, n, nv),
                    variables_in(g),
                    closed(generating_symbols@, to_process@, Some(t), g, n),
                    init_closed(generating_symbols@, g, *dfa, n),
                    no_final_marked(generating_symbols@, *dfa, n, cfg_start_symbol),
                    !generating_symbols@[(n * n * nv) as int],
                    count + len0 + unmarked0 == generating_symbols@.len(),
                    t == (p_old, b_old, q_old),
                    forall|a2: int, j2: int| 0 <= a2 < g.len() && 0 <= j2 < g[a2].len() ==> #[trigger] listed_at(g, single_production_map@, two_production_map_r@, two_production_map_l@, a2, j2),
                    forall|k2: int| 0 <= k2 < single_production_map@[b_old as int]@.len() ==> #[trigger] single_fact(generating_symbols@, n, t, single_production_map@[b_old as int]@[k2]),
                    forall|k2: int, r2: usize| 0 <= k2 < two_production_map_r@[b_old as int]@.len() && r2 < n ==> #[trigger] right_fact(generating_symbols@, to_process@, n, t, two_production_map_r@[b_old as int]@[k2].0, two_production_map_r@[b_old as int]@[k2].1, r2),
                    forall|k2: int, r2: usize| 0 <= k2 < k && r2 < n ==> #[trigger] left_fact(generating_symbols@, to_process@, n, t, two_production_map_l@[b_old as int]@[k2].0, two_production_map_l@[b_old as int]@[k2].1, r2),
                    production_maps_ok(g, single_production_map@, two_production_map_r@, two_production_map_l@),
                    unmarked(generating_symbols@) + to_process@.len() == unmarked0 + len0,
                    to_process@.len() >= len0,
                decreases lefts@.len() - k,
            {
                let (b_symbol, a_symbol) = lefts[k];
                let mut r_old: usize = 0;
                while r_old < states_len
                    invariant
                        g == self.g(),
                        dfa.wf(),
                        n == dfa.n(),
                        states_len == n,
                        nv == g.len(),
                        nonterminals_len == nv,
                        dfa_start_state == dfa.start_state,
                        cfg_start_symbol == self.start_symbol,
                        cfg_start_symbol < nv,
                        n * n * nv < usize::MAX,
                        p_old < n,
                        q_old < n,
                        b_old < nv,
                        b_symbol < nv,
                        a_symbol < nv,
                        exists|jj: int| 0 <= jj < g[a_symbol as int].len() && #[trigger] g[a_symbol as int][jj] == seq![SymbolIndex::VariableIndex(b_symbol), SymbolIndex::VariableIndex(b_old)],
                        triple_gen(g, *dfa, p_old, b_old, q_old),
                        r_old <= states_len,
                        finals_ok(dfa_final_states@, *dfa),
                        search_ok(generating_symbols@, to_process@, g, *dfa, n, nv),
                        variables_in(g),
                        closed(generating_symbols@, to_process@, Some(t), g, n),
                        init_closed(generating_symbols@, g, *dfa, n),
                        no_final_marked(generating_symbols@, *dfa, n, cfg_start_symbol),
                        !generating_symbols@[(n * n * nv) as int],
                        count + len0 + unmarked0 == generating_symbols@.len(),
                        t == (p_old, b_old, q_old),
                        forall|a2: int, j2: int| 0 <= a2 < g.len() && 0 <= j2 < g[a2].len() ==> #[trigger] listed_at(g, single_production_map@, two_production_map_r@, two_production_map_l@, a2, j2),
                        forall|k2: int| 0 <= k2 < single_production_map@[b_old as int]@.len() ==> #[trigger] single_fact(generating_symbols@, n, t, single_production_map@[b_old as int]@[k2]),
                        forall|k2: int, r2: usize| 0 <= k2 < two_production_map_r@[b_old as int]@.len() && r2 < n ==> #[trigger] right_fact(generating_symbols@, to_process@, n, t, two_production_map_r@[b_old as int]@[k2].0, two_production_map_r@[b_old as int]@[k2].1, r2),
                        forall|k2: int, r2: usize| 0 <= k2 < k && r2 < n ==> #[trigger] left_fact(generating_symbols@, to_process@, n, t, two_production_map_l@[b_old as int]@[k2].0, two_production_map_l@[b_old as int]@[k2].1, r2),
                        lefts@ == two_production_map_l@[b_old as int]@,
                        k < lefts@.len(),
                        lefts@[k as int] == (b_symbol, a_symbol),
                        production_maps_ok(g, single_production_map@, two_production_map_r@, two_production_map_l@),
                        forall|r2: usize| r2 < r_old ==> #[trigger] left_fact(generating_symbols@, to_process@, n, t, b_symbol, a_symbol, r2),
                        unmarked(generating_symbols@) + to_process@.len() == unmarked0 + len0,
                        to_process@.len() >= len0,
                    decreases states_len - r_old,
                {
                    let ghost gsb = generating_symbols@;
                    let ghost tpb = to_process@;
                    let b_symbol_index = tri_index(states_len, nonterminals_len, r_old, b_symbol, p_old);
                    if generating_symbols[b_symbol_index] {
                        proof {
                            assert(triple_gen(g, *dfa, r_old, b_symbol, p_old));
                            let jj = choose|jj: int| 0 <= jj < g[a_symbol as int].len() && #[trigger] g[a_symbol as int][jj] == seq![SymbolIndex::VariableIndex(b_symbol), SymbolIndex::VariableIndex(b_old)];
                            lemma_triple_pair(g, *dfa, a_symbol as int, jj, b_symbol, b_old, r_old, p_old, q_old);
                        }
                        let ghost gs0 = generating_symbols@;
                        let ghost tp0 = to_process@;
                        let found = visit(&mut generating_symbols, &mut to_process, &dfa_final_states, r_old, a_symbol, q_old, states_len, nonterminals_len, dfa_start_state, cfg_start_symbol, Ghost(g), Ghost(*dfa));
                        proof {
                            lemma_visit_step(gs0, tp0, generating_symbols@, to_process@, Some(t), g, *dfa, n, r_old, a_symbol, q_old);
                            lemma_facts_transfer(gs0, tp0, generating_symbols@, to_process@, g, n, t, single_production_map@, two_production_map_r@, two_production_map_l@);
                            assert forall|r2: usize| r2 < r_old implies #[trigger] left_fact(generating_symbols@, to_process@, n, t, b_symbol, a_symbol, r2) by {
                                assert(left_fact(gs0, tp0, n, t, b_symbol, a_symbol, r2));
                            }
                        }
                        if found {
                            return (false, generating_symbols);
                        }
                    }
                    proof {
                        assert forall|r2: usize| r2 < r_old + 1 implies #[trigger] left_fact(generating_symbols@, to_process@, n, t, b_symbol, a_symbol, r2) by {
                            if r2 == r_old {
                                lemma_tri_bound(n, nv, r_old as int, a_symbol as int, q_old as int);
                            }
                        }
                    }
                    r_old = r_old + 1;
                }
                proof {
                    assert forall|k2: int, r2: usize| 0 <= k2 < k + 1 && r2 < n implies #[trigger] left_fact(generating_symbols@, to_process@, n, t, two_production_map_l@[b_old as int]@[k2].0, two_production_map_l@[b_old as int]@[k2].1, r2) by {
                        if k2 == k {
                            assert(left_fact(generating_symbols@, to_process@, n, t, b_symbol, a_symbol, r2));
                        }
                    }
                }
                k = k + 1;
            }
            proof {
                lemma_release(generating_symbols@, to_process@, t, g, n, single_production_map@, two_production_map_r@, two_production_map_l@);
            }
        }
        proof {
            assert(to_process@ =~= Seq::<(usize, usize, usize, usize)>::empty());
            lemma_closed_empty(generating_symbols@, g, *dfa, n, cfg_start_symbol);
            assert forall|p: usize, v: usize, q: usize|
                p < n && v < nv && q < n && #[trigger] triple_gen(g, *dfa, p, v, q) implies generating_symbols@[tri(n, p as int, v as int, q as int)] by {
                let w = choose|w: Seq<usize>| #[trigger] generates(g, SymbolIndex::VariableIndex(v), w) && dfa.run(p, w) == Some(q);
                let h = choose|h: nat| #[trigger] derives(g, h, SymbolIndex::VariableIndex(v), w);
                lemma_closed_complete(generating_symbols@, g, *dfa, n, h, v, w, p);
            }
        }
        (true, generating_symbols)
    }
}

/// Appending `a` to the list of `b` keeps the list of right partners correct.
proof fn lemma_push_right(g: Seq<Seq<Seq<SymbolIndex>>>, r0: Seq<Vec<(usize, usize)>>, r1: Seq<Vec<(usize, usize)>>, b: int, c: usize, a: usize, j: int)
    requires
        0 <= b < g.len(),
        a < g.len(),
        c < g.len(),
        0 <= j < g[a as int].len(),
        g[a as int][j] == seq![SymbolIndex::VariableIndex(b as usize), SymbolIndex::VariableIndex(c)],
        r0.len() == g.len(),
        r1 == r0.update(b, r1[b]),
        r1[b]@ == r0[b]@.push((c, a)),
        forall|b2: int, k: int| 0 <= b2 < g.len() && 0 <= k < r0[b2]@.len() ==> {
            let (c2, a2) = #[trigger] r0[b2]@[k];
            &&& a2 < g.len()
            &&& c2 < g.len()
            &&& exists|j2: int| 0 <= j2 < g[a2 as int].len() && #[trigger] g[a2 as int][j2] == seq![SymbolIndex::VariableIndex(b2 as usize), SymbolIndex::VariableIndex(c2)]
        },
    ensures
        forall|b2: int, k: int| 0 <= b2 < g.len() && 0 <= k < r1[b2]@.len() ==> {
            let (c2, a2) = #[trigger] r1[b2]@[k];
            &&& a2 < g.len()
            &&& c2 < g.len()
            &&& exists|j2: int| 0 <= j2 < g[a2 as int].len() && #[trigger] g[a2 as int][j2] == seq![SymbolIndex::VariableIndex(b2 as usize), SymbolIndex::VariableIndex(c2)]
        },
{
    assert forall|b2: int, k: int| 0 <= b2 < g.len() && 0 <= k < r1[b2]@.len() implies {
        let (c2, a2) = #[trigger] r1[b2]@[k];
        &&& a2 < g.len()
        &&& c2 < g.len()
        &&& exists|j2: int| 0 <= j2 < g[a2 as int].len() && #[trigger] g[a2 as int][j2] == seq![SymbolIndex::VariableIndex(b2 as usize), SymbolIndex::VariableIndex(c2)]
    } by {
        if b2 == b && k == r0[b]@.len() {
            assert(r1[b2]@[k] == (c, a));
            assert(g[a as int][j] == seq![SymbolIndex::VariableIndex(b2 as usize), SymbolIndex::VariableIndex(c)]);
        } else {
            assert(r1[b2]@[k] == r0[b2]@[k]);
        }
    }
}

/// Appending `a` to the list of `c` keeps the list of left partners correct.
proof fn lemma_push_left(g: Seq<Seq<Seq<SymbolIndex>>>, l0: Seq<Vec<(usize, usize)>>, l1: Seq<Vec<(usize, usize)>>, c: int, b: usize, a: usize, j: int)
    requires
        0 <= c < g.len(),
        a < g.len(),
        b < g.len(),
        0 <= j < g[a as int].len(),
        g[a as int][j] == seq![SymbolIndex::VariableIndex(b), SymbolIndex::VariableIndex(c as usize)],
        l0.len() == g.len(),
        l1 == l0.update(c, l1[c]),
        l1[c]@ == l0[c]@.push((b, a)),
        forall|c2: int, k: int| 0 <= c2 < g.len() && 0 <= k < l0[c2]@.len() ==> {
            let (b2, a2) = #[trigger] l0[c2]@[k];
            &&& a2 < g.len()
            &&& b2 < g.len()
            &&& exists|j2: int| 0 <= j2 < g[a2 as int].len() && #[trigger] g[a2 as int][j2] == seq![SymbolIndex::VariableIndex(b2), SymbolIndex::VariableIndex(c2 as usize)]
        },
    ensures
        forall|c2: int, k: int| 0 <= c2 < g.len() && 0 <= k < l1[c2]@.len() ==> {
            let (b2, a2) = #[trigger] l1[c2]@[k];
            &&& a2 < g.len()
            &&& b2 < g.len()
            &&& exists|j2: int| 0 <= j2 < g[a2 as int].len() && #[trigger] g[a2 as int][j2] == seq![SymbolIndex::VariableIndex(b2), SymbolIndex::VariableIndex(c2 as usize)]
        },
{
    assert forall|c2: int, k: int| 0 <= c2 < g.len() && 0 <= k < l1[c2]@.len() implies {
        let (b2, a2) = #[trigger] l1[c2]@[k];
        &&& a2 < g.len()
        &&& b2 < g.len()
        &&& exists|j2: int| 0 <= j2 < g[a2 as int].len() && #[trigger] g[a2 as int][j2] == seq![SymbolIndex::VariableIndex(b2), SymbolIndex::VariableIndex(c2 as usize)]
    } by {
        if c2 == c && k == l0[c]@.len() {
            assert(l1[c2]@[k] == (b, a));
            assert(g[a as int][j] == seq![SymbolIndex::VariableIndex(b), SymbolIndex::VariableIndex(c2 as usize)]);
        } else {
            assert(l1[c2]@[k] == l0[c2]@[k]);
        }
    }
}

/// Appending `a` to the list of `b` keeps the list of unit productions correct.
proof fn lemma_push_single(g: Seq<Seq<Seq<SymbolIndex>>>, s0: Seq<Vec<usize>>, s1: Seq<Vec<usize>>, b: int, a: usize, j: int)
    requires
        0 <= b < g.len(),
        a < g.len(),
        0 <= j < g[a as int].len(),
        g[a as int][j] == seq![SymbolIndex::VariableIndex(b as usize)],
        s0.len() == g.len(),
        s1 == s0.update(b, s1[b]),
        s1[b]@ == s0[b]@.push(a),
        forall|b2: int, k: int| 0 <= b2 < g.len() && 0 <= k < s0[b2]@.len() ==> {
            let a2 = #[trigger] s0[b2]@[k];
            &&& a2 < g.len()
            &&& exists|j2: int| 0 <= j2 < g[a2 as int].len() && #[trigger] g[a2 as int][j2] == seq![SymbolIndex::VariableIndex(b2 as usize)]
        },
    ensures
        forall|b2: int, k: int| 0 <= b2 < g.len() && 0 <= k < s1[b2]@.len() ==> {
            let a2 = #[trigger] s1[b2]@[k];
            &&& a2 < g.len()
            &&& exists|j2: int| 0 <= j2 < g[a2 as int].len() && #[trigger] g[a2 as int][j2] == seq![SymbolIndex::VariableIndex(b2 as usize)]
        },
{
    assert forall|b2: int, k: int| 0 <= b2 < g.len() && 0 <= k < s1[b2]@.len() implies {
        let a2 = #[trigger] s1[b2]@[k];
        &&& a2 < g.len()
        &&& exists|j2: int| 0 <= j2 < g[a2 as int].len() && #[trigger] g[a2 as int][j2] == seq![SymbolIndex::VariableIndex(b2 as usize)]
    } by {
        if b2 == b && k == s0[b]@.len() {
            assert(s1[b2]@[k] == a);
            assert(g[a as int][j] == seq![SymbolIndex::VariableIndex(b2 as usize)]);
        } else {
            assert(s1[b2]@[k] == s0[b2]@[k]);
        }
    }
}

} // verus!

verus! {

/// The bodies that one production body `rule` of a variable gives to the
/// intersection variable made of that variable between states `p` and `r`.
pub open spec fn inter_rule_bodies(dfa: DFA, n: nat, rule: Seq<SymbolIndex>, p: int, r: int) -> Seq<Seq<SymbolIndex>> {
    if rule.len() == 2 {
        match (rule[0], rule[1]) {
            (SymbolIndex::VariableIndex(b), SymbolIndex::VariableIndex(c)) => Seq::new(
                n,
                |q: int|
                    seq![
                        SymbolIndex::VariableIndex(tri(n, p, b as int, q) as usize),
                        SymbolIndex::VariableIndex(tri(n, q, c as int, r) as usize),
                    ],
            ),
            _ => Seq::empty(),
        }
    } else if rule.len() == 1 {
        match rule[0] {
            SymbolIndex::VariableIndex(b) => seq![seq![SymbolIndex::VariableIndex(tri(n, p, b as int, r) as usize)]],
            SymbolIndex::TerminalIndex(o) => if dfa.step(p as usize, o) == Some(r as usize) {
                seq![seq![SymbolIndex::TerminalIndex(o)]]
            } else {
                Seq::empty()
            },
        }
    } else if rule.len() == 0 {
        if p == r {
            seq![Seq::<SymbolIndex>::empty()]
        } else {
            Seq::empty()
        }
    } else {
        Seq::empty()
    }
}

/// The bodies of the intersection variable `(p, a, r)`: those of the
/// productions of `a`, in order.
pub open spec fn inter_head_bodies(g: Seq<Seq<Seq<SymbolIndex>>>, dfa: DFA, n: nat, a: int, p: int, r: int) -> Seq<Seq<SymbolIndex>> {
    g[a].map_values(|rule: Seq<SymbolIndex>| inter_rule_bodies(dfa, n, rule, p, r)).flatten()
}

/// The bodies of a list of bodies, as a mathematical value.
pub open spec fn bodies_of(v: Vec<Vec<SymbolIndex>>) -> Seq<Seq<SymbolIndex>> {
    v@.map_values(|b: Vec<SymbolIndex>| b@)
}

/// The body of one symbol.
pub fn body_of_one(s: SymbolIndex) -> (b: Vec<SymbolIndex>)
    ensures
        b@ == seq![s],
{
    let mut b: Vec<SymbolIndex> = Vec::new();
    b.push(s);
    assert(b@ =~= seq![s]);
    b
}

/// The body of two symbols.
pub fn body_of_two(s: SymbolIndex, t: SymbolIndex) -> (b: Vec<SymbolIndex>)
    ensures
        b@ == seq![s, t],
{
    let mut b: Vec<SymbolIndex> = Vec::new();
    b.push(s);
    b.push(t);
    assert(b@ =~= seq![s, t]);
    b
}

/// Whether every symbol of every body in `bs` is a terminal below `nt` or a variable below `nv`.
pub open spec fn bodies_in(bs: Seq<Seq<SymbolIndex>>, nt: nat, nv: nat) -> bool {
    forall|j: int, k: int| 0 <= j < bs.len() && 0 <= k < bs[j].len() ==> match #[trigger] bs[j][k] {
        SymbolIndex::TerminalIndex(t) => t < nt,
        SymbolIndex::VariableIndex(v) => v < nv,
    }
}

impl CFG {
    /// The bodies that one production body gives to the intersection variable `(p, a, r)`.
    fn intersection_rule_bodies(&self, other: &DFA, rule: &Vec<SymbolIndex>, p: usize, a: usize, r: usize) -> (bodies: Vec<Vec<SymbolIndex>>)
        requires
            self.wf(),
            other.wf(),
            p < other.n(),
            r < other.n(),
            a < self.productions@.len(),
            other.n() * other.n() * self.productions@.len() < usize::MAX,
            forall|k: int| 0 <= k < rule@.len() ==> symbol_in(self.g(), self.nt(), #[trigger] rule@[k]),
        ensures
            bodies@.map_values(|b: Vec<SymbolIndex>| b@) == inter_rule_bodies(*other, other.n(), rule@, p as int, r as int),
            bodies_in(bodies@.map_values(|b: Vec<SymbolIndex>| b@), self.nt(), other.n() * other.n() * self.productions@.len() + 1),
    {
        let states_len = other.states.len();
        let nv = self.productions.len();
        let ghost n = other.n();
        let ghost target = inter_rule_bodies(*other, n, rule@, p as int, r as int);
        let mut bodies: Vec<Vec<SymbolIndex>> = Vec::new();
        if rule.len() == 2 {
            match (rule[0], rule[1]) {
                (SymbolIndex::VariableIndex(b), SymbolIndex::VariableIndex(c)) => {
                    let mut q: usize = 0;
                    while q < states_len
                        invariant
                            states_len == n,
                            q <= n,
                            p < n,
                            r < n,
                            b < nv,
                            c < nv,
                            nv == self.productions@.len(),
                            n * n * nv < usize::MAX,
                            rule@.len() == 2,
                            rule@[0] == SymbolIndex::VariableIndex(b),
                            rule@[1] == SymbolIndex::VariableIndex(c),
                            target == inter_rule_bodies(*other, n, rule@, p as int, r as int),
                            bodies@.map_values(|x: Vec<SymbolIndex>| x@) == target.take(q as int),
                            bodies_in(bodies@.map_values(|x: Vec<SymbolIndex>| x@), self.nt(), (n * n * nv + 1) as nat),
                        decreases n - q,
                    {
                        let x = tri_index(states_len, nv, p, b, q);
                        let y = tri_index(states_len, nv, q, c, r);
                        let ghost before = bodies@.map_values(|z: Vec<SymbolIndex>| z@);
                        bodies.push(body_of_two(SymbolIndex::VariableIndex(x), SymbolIndex::VariableIndex(y)));
                        proof {
                            assert(bodies@.map_values(|z: Vec<SymbolIndex>| z@) =~= before.push(seq![SymbolIndex::VariableIndex(x), SymbolIndex::VariableIndex(y)]));
                            assert(target.take(q + 1) =~= target.take(q as int).push(target[q as int]));
                        }
                        q = q + 1;
                    }
                    proof {
                        assert(target.take(n as int) =~= target);
                    }
                },
                _ => {
                    proof {
                        assert(bodies@.map_values(|x: Vec<SymbolIndex>| x@) =~= target);
                    }
                },
            }
        } else if rule.len() == 1 {
            match rule[0] {
                SymbolIndex::VariableIndex(b) => {
                    let x = tri_index(states_len, nv, p, b, r);
                    bodies.push(body_of_one(SymbolIndex::VariableIndex(x)));
                    proof {
                        assert(bodies@.map_values(|z: Vec<SymbolIndex>| z@) =~= target);
                    }
                },
                SymbolIndex::TerminalIndex(o) => {
                    match other.next_state(p, o) {
                        Some(q) => {
                            if q == r {
                                bodies.push(body_of_one(SymbolIndex::TerminalIndex(o)));
                            }
                        },
                        None => {},
                    }
                    proof {
                        assert(bodies@.map_values(|z: Vec<SymbolIndex>| z@) =~= target);
                    }
                },
            }
        } else if rule.len() == 0 {
            if p == r {
                bodies.push(Vec::new());
            }
            proof {
                assert(bodies@.map_values(|z: Vec<SymbolIndex>| z@) =~= target);
            }
        } else {
            proof {
                assert(bodies@.map_values(|z: Vec<SymbolIndex>| z@) =~= target);
            }
        }
        bodies
    }

    /// The bodies of the intersection variable `(p, a, r)`.
    fn intersection_head_bodies(&self, other: &DFA, p: usize, a: usize, r: usize) -> (bodies: Vec<Vec<SymbolIndex>>)
        requires
            self.wf(),
            other.wf(),
            p < other.n(),
            r < other.n(),
            a < self.productions@.len(),
            other.n() * other.n() * self.productions@.len() < usize::MAX,
        ensures
            bodies@.map_values(|b: Vec<SymbolIndex>| b@) == inter_head_bodies(self.g(), *other, other.n(), a as int, p as int, r as int),
            bodies_in(bodies@.map_values(|b: Vec<SymbolIndex>| b@), self.nt(), other.n() * other.n() * self.productions@.len() + 1),
    {
        let ghost g = self.g();
        let ghost n = other.n();
        let ghost nn: nat = n * n * self.productions@.len() + 1;
        let ghost parts = g[a as int].map_values(|rule: Seq<SymbolIndex>| inter_rule_bodies(*other, n, rule, p as int, r as int));
        let rules = &self.productions[a];
        let mut bodies: Vec<Vec<SymbolIndex>> = Vec::new();
        let mut j: usize = 0;
        while j < rules.len()
            invariant
                self.wf(),
                other.wf(),
                g == self.g(),
                n == other.n(),
                nn == n * n * self.productions@.len() + 1,
                p < n,
                r < n,
                a < self.productions@.len(),
                n * n * self.productions@.len() < usize::MAX,
                rules@ == self.productions@[a as int]@,
                parts == g[a as int].map_values(|rule: Seq<SymbolIndex>| inter_rule_bodies(*other, n, rule, p as int, r as int)),
                j <= rules@.len(),
                bodies@.map_values(|b: Vec<SymbolIndex>| b@) == parts.take(j as int).flatten(),
                bodies_in(bodies@.map_values(|b: Vec<SymbolIndex>| b@), self.nt(), nn),
            decreases rules@.len() - j,
        {
            assert(rules@[j as int]@ == g[a as int][j as int]);
            assert forall|k: int| 0 <= k < rules@[j as int]@.len() implies symbol_in(self.g(), self.nt(), #[trigger] rules@[j as int]@[k]) by {
                assert(symbol_in(g, self.nt(), g[a as int][j as int][k]));
            }
            let more = self.intersection_rule_bodies(other, &rules[j], p, a, r);
            let ghost b0 = bodies@.map_values(|b: Vec<SymbolIndex>| b@);
            let ghost m0 = more@.map_values(|b: Vec<SymbolIndex>| b@);
            let mut t: usize = 0;
            while t < more.len()
                invariant
                    t <= more@.len(),
                    m0 == more@.map_values(|b: Vec<SymbolIndex>| b@),
                    bodies@.map_values(|b: Vec<SymbolIndex>| b@) == b0 + m0.take(t as int),
                    bodies_in(b0, self.nt(), nn),
                    bodies_in(m0, self.nt(), nn),
                decreases more@.len() - t,
            {
                let ghost before = bodies@.map_values(|b: Vec<SymbolIndex>| b@);
                bodies.push(clone_body(&more[t]));
                proof {
                    assert(bodies@.map_values(|b: Vec<SymbolIndex>| b@) =~= before.push(m0[t as int]));
                    assert(m0.take(t + 1) =~= m0.take(t as int).push(m0[t as int]));
                }
                t = t + 1;
            }
            proof {
                assert(m0.take(t as int) =~= m0);
                assert(parts.take(j + 1) =~= parts.take(j as int).push(parts[j as int]));
                parts.take(j as int).lemma_flatten_push(parts[j as int]);
                let cur = bodies@.map_values(|b: Vec<SymbolIndex>| b@);
                assert forall|x: int, k: int| 0 <= x < cur.len() && 0 <= k < cur[x].len() implies match #[trigger] cur[x][k] {
                    SymbolIndex::TerminalIndex(tt) => tt < self.nt(),
                    SymbolIndex::VariableIndex(v) => v < nn,
                } by {
                    if x < b0.len() {
                        assert(cur[x] == b0[x]);
                    } else {
                        assert(cur[x] == m0[x - b0.len()]);
                    }
                }
            }
            j = j + 1;
        }
        proof {
            assert(parts.take(j as int) =~= parts);
        }
        bodies
    }
}

} // verus!

verus! {

/// The bodies of the start variable of the intersection: one variable
/// `(start state, start variable, f)` for every accepting state `f`, in the
/// order `acc`, and the empty body where both languages hold the empty word.
pub open spec fn inter_start_bodies(n: nat, nv: nat, dfa: DFA, start: usize, acc: Seq<usize>, eps: bool) -> Seq<Seq<SymbolIndex>> {
    acc.map_values(|f: usize| seq![SymbolIndex::VariableIndex(tri(n, dfa.start_state as int, start as int, f as int) as usize)])
        + if eps {
        seq![Seq::<SymbolIndex>::empty()]
    } else {
        Seq::<Seq<SymbolIndex>>::empty()
    }
}

impl CFG {
    /// The grammar of the intersection of this grammar with `other`: a
    /// variable `(p, a, r)`, numbered `a * n * n + p * n + r`, for every
    /// variable `a` and states `p` and `r`, with the bodies that the
    /// productions of `a` give it, and a new start variable, the last one.
    pub fn _compute_intersection(&self, other: &DFA) -> (r: CFG)
        requires
            self.wf(),
            other.wf(),
            other.n() * other.n() * self.productions@.len() < usize::MAX,
        ensures
            r.wf(),
            r.productions@.len() == other.n() * other.n() * self.productions@.len() + 1,
            r.start_symbol == other.n() * other.n() * self.productions@.len(),
            r.terminals@ == self.terminals@,
            forall|a: usize, p: usize, q: usize|
                a < self.productions@.len() && p < other.n() && q < other.n() ==> #[trigger] r.g()[tri(other.n(), p as int, a as int, q as int)]
                    == inter_head_bodies(self.g(), *other, other.n(), a as int, p as int, q as int),
            exists|acc: Seq<usize>|
                acc.no_duplicates() && acc.to_set() == other.accept_states@ && #[trigger] r.g()[(other.n() * other.n() * self.productions@.len()) as int]
                    == inter_start_bodies(
                    other.n(),
                    self.productions@.len() as nat,
                    *other,
                    self.start_symbol,
                    acc,
                    is_nullable(self.g(), SymbolIndex::VariableIndex(self.start_symbol)) && other.accept_states@.contains(other.start_state),
                ),
    {
        let ghost g = self.g();
        let ghost n = other.n();
        let ghost nv = self.productions@.len() as nat;
        let empty_input: Vec<InputSymbol> = Vec::new();
        let generates_epsilon = self.generates_epsilon() && other.accepts(&empty_input);
        proof {
            assert(word_of(empty_input@) =~= Seq::<Seq<char>>::empty());
            assert(other.symbol_indices(Seq::<Seq<char>>::empty()) =~= Seq::<usize>::empty());
            assert(other.run(other.start_state, Seq::<usize>::empty()) == Some(other.start_state));
        }
        let states_len = other.states.len();
        let nonterminals_len = self.productions.len();
        let mut new_productions: Vec<Vec<Vec<SymbolIndex>>> = Vec::new();
        let mut a: usize = 0;
        while a < nonterminals_len
            invariant
                self.wf(),
                other.wf(),
                g == self.g(),
                n == other.n(),
                states_len == n,
                nv == nonterminals_len,
                nonterminals_len == self.productions@.len(),
                n * n * nv < usize::MAX,
                a <= nv,
                new_productions@.len() == a * (n * n),
                forall|a2: usize, p2: usize, q2: usize|
                    a2 < nv && p2 < n && q2 < n && tri(n, p2 as int, a2 as int, q2 as int) < new_productions@.len() ==> #[trigger] bodies_of(new_productions@[tri(n, p2 as int, a2 as int, q2 as int)])
                        == inter_head_bodies(g, *other, n, a2 as int, p2 as int, q2 as int),
                forall|x: int| 0 <= x < new_productions@.len() ==> bodies_in(#[trigger] bodies_of(new_productions@[x]), self.nt(), n * n * nv + 1),
            decreases nv - a,
        {
            let mut p: usize = 0;
            while p < states_len
                invariant
                    self.wf(),
                    other.wf(),
                    g == self.g(),
                    n == other.n(),
                    states_len == n,
                    nv == nonterminals_len,
                    nonterminals_len == self.productions@.len(),
                    n * n * nv < usize::MAX,
                    a < nv,
                    p <= n,
                    new_productions@.len() == a * (n * n) + p * n,
                    forall|a2: usize, p2: usize, q2: usize|
                        a2 < nv && p2 < n && q2 < n && tri(n, p2 as int, a2 as int, q2 as int) < new_productions@.len() ==> #[trigger] bodies_of(new_productions@[tri(n, p2 as int, a2 as int, q2 as int)])
                            == inter_head_bodies(g, *other, n, a2 as int, p2 as int, q2 as int),
                    forall|x: int| 0 <= x < new_productions@.len() ==> bodies_in(#[trigger] bodies_of(new_productions@[x]), self.nt(), n * n * nv + 1),
                decreases n - p,
            {
                let mut r: usize = 0;
                while r < states_len
                    invariant
                        self.wf(),
                        other.wf(),
                        g == self.g(),
                        n == other.n(),
                        states_len == n,
                        nv == nonterminals_len,
                        nonterminals_len == self.productions@.len(),
                        n * n * nv < usize::MAX,
                        a < nv,
                        p < n,
                        r <= n,
                        new_productions@.len() == a * (n * n) + p * n + r,
                        forall|a2: usize, p2: usize, q2: usize|
                            a2 < nv && p2 < n && q2 < n && tri(n, p2 as int, a2 as int, q2 as int) < new_productions@.len() ==> #[trigger] bodies_of(new_productions@[tri(n, p2 as int, a2 as int, q2 as int)])
                                == inter_head_bodies(g, *other, n, a2 as int, p2 as int, q2 as int),
                        forall|x: int| 0 <= x < new_productions@.len() ==> bodies_in(#[trigger] bodies_of(new_productions@[x]), self.nt(), n * n * nv + 1),
                    decreases n - r,
                {
                    let bodies = self.intersection_head_bodies(other, p, a, r);
                    let ghost np0 = new_productions@;
                    new_productions.push(bodies);
                    proof {
                        let cur = tri(n, p as int, a as int, r as int);
                        assert(cur == np0.len());
                        assert forall|a2: usize, p2: usize, q2: usize|
                            a2 < nv && p2 < n && q2 < n && tri(n, p2 as int, a2 as int, q2 as int) < new_productions@.len() implies #[trigger] bodies_of(new_productions@[tri(n, p2 as int, a2 as int, q2 as int)])
                                == inter_head_bodies(g, *other, n, a2 as int, p2 as int, q2 as int) by {
                            if tri(n, p2 as int, a2 as int, q2 as int) == cur {
                                lemma_tri_injective(n, p2 as int, a2 as int, q2 as int, p as int, a as int, r as int);
                            } else {
                                assert(new_productions@[tri(n, p2 as int, a2 as int, q2 as int)] == np0[tri(n, p2 as int, a2 as int, q2 as int)]);
                            }
                        }
                        assert forall|x: int| 0 <= x < new_productions@.len() implies bodies_in(#[trigger] bodies_of(new_productions@[x]), self.nt(), n * n * nv + 1) by {
                            if x < np0.len() {
                                assert(new_productions@[x] == np0[x]);
                            }
                        }
                    }
                    r = r + 1;
                }
                proof {
                    assert(a * (n * n) + p * n + n == a * (n * n) + (p + 1) * n) by (nonlinear_arith);
                }
                p = p + 1;
            }
            proof {
                assert(a * (n * n) + n * n == (a + 1) * (n * n)) by (nonlinear_arith);
                assert(n * n == n * n) by (nonlinear_arith);
            }
            a = a + 1;
        }
        proof {
            assert(nv * (n * n) == n * n * nv) by (nonlinear_arith);
            assert(n * n <= n * n * nv) by (nonlinear_arith)
                requires
                    nv >= 1,
            ;
        }
        let start_symbol_index = states_len * states_len * nonterminals_len;
        let accept = other.accept_states.to_vec();
        let mut start_productions: Vec<Vec<SymbolIndex>> = Vec::new();
        let mut k: usize = 0;
        while k < accept.len()
            invariant
                other.wf(),
                n == other.n(),
                states_len == n,
                nv == nonterminals_len,
                nonterminals_len == self.productions@.len(),
                self.start_symbol < nv,
                n * n * nv < usize::MAX,
                accept@.to_set() == other.accept_states@,
                k <= accept@.len(),
                start_productions@.map_values(|b: Vec<SymbolIndex>| b@) == inter_start_bodies(n, nv, *other, self.start_symbol, accept@.take(k as int), false),
                bodies_in(start_productions@.map_values(|b: Vec<SymbolIndex>| b@), self.nt(), n * n * nv + 1),
            decreases accept@.len() - k,
        {
            assert(accept@.to_set().contains(accept@[k as int]));
            let x = tri_index(states_len, nonterminals_len, other.start_state, self.start_symbol, accept[k]);
            let ghost sp0 = start_productions@.map_values(|b: Vec<SymbolIndex>| b@);
            start_productions.push(body_of_one(SymbolIndex::VariableIndex(x)));
            proof {
                assert(start_productions@.map_values(|b: Vec<SymbolIndex>| b@) =~= sp0.push(seq![SymbolIndex::VariableIndex(x)]));
                assert(accept@.take(k + 1) =~= accept@.take(k as int).push(accept@[k as int]));
                assert(inter_start_bodies(n, nv, *other, self.start_symbol, accept@.take(k + 1), false) =~= inter_start_bodies(n, nv, *other, self.start_symbol, accept@.take(k as int), false).push(seq![SymbolIndex::VariableIndex(x)]));
            }
            k = k + 1;
        }
        if generates_epsilon {
            start_productions.push(Vec::new());
        }
        proof {
            assert(accept@.take(k as int) =~= accept@);
            let eps = is_nullable(g, SymbolIndex::VariableIndex(self.start_symbol)) && other.accept_states@.contains(other.start_state);
            assert(generates_epsilon == eps);
            assert(start_productions@.map_values(|b: Vec<SymbolIndex>| b@) =~= inter_start_bodies(n, nv, *other, self.start_symbol, accept@, eps));
        }
        let ghost np1 = new_productions@;
        new_productions.push(start_productions);
        let r = CFG::new(None, clone_terminals(&self.terminals), start_symbol_index, new_productions);
        proof {
            let rg = r.g();
            assert(rg.len() == n * n * nv + 1);
            assert forall|a2: usize, p2: usize, q2: usize|
                a2 < nv && p2 < n && q2 < n implies #[trigger] rg[tri(n, p2 as int, a2 as int, q2 as int)]
                    == inter_head_bodies(g, *other, n, a2 as int, p2 as int, q2 as int) by {
                lemma_tri_bound(n, nv, p2 as int, a2 as int, q2 as int);
                let x = tri(n, p2 as int, a2 as int, q2 as int);
                assert(new_productions@[x] == np1[x]);
                assert(rg[x] == bodies_of(new_productions@[x]));
                assert(bodies_of(np1[x]) == inter_head_bodies(g, *other, n, a2 as int, p2 as int, q2 as int));
            }
            assert(rg[(n * n * nv) as int] == inter_start_bodies(n, nv, *other, self.start_symbol, accept@, is_nullable(g, SymbolIndex::VariableIndex(self.start_symbol)) && other.accept_states@.contains(other.start_state)));
            assert forall|v: int, j: int, kk: int| 0 <= v < rg.len() && 0 <= j < rg[v].len() && 0 <= kk < rg[v][j].len() implies symbol_in(rg, r.nt(), #[trigger] rg[v][j][kk]) by {
                if v < np1.len() {
                    assert(new_productions@[v] == np1[v]);
                    assert(bodies_in(bodies_of(np1[v]), self.nt(), n * n * nv + 1));
                    assert(rg[v] == bodies_of(np1[v]));
                    assert(rg[v][j] == bodies_of(np1[v])[j]);
                } else {
                    assert(rg[v] == start_productions@.map_values(|b: Vec<SymbolIndex>| b@));
                }
            }
        }
        r
    }
}

} // verus!

verus! {

/// Whether the intersection variable `(p, v, q)` is still to be processed:
/// it is `held` (taken from the queue and being processed) or in the queue.
pub open spec fn waiting(tp: Seq<(usize, usize, usize, usize)>, held: Option<(usize, usize, usize)>, p: usize, v: usize, q: usize) -> bool {
    ||| held == Some((p, v, q))
    ||| exists|k: int| 0 <= k < tp.len() && (#[trigger] tp[k]).0 == p && tp[k].1 == v && tp[k].2 == q
}

/// The marks that the terminal and empty production `g[a][j]` asks for at state `p`.
pub open spec fn init_at(gs: Seq<bool>, g: Seq<Seq<Seq<SymbolIndex>>>, dfa: DFA, n: nat, a: int, j: int, p: usize) -> bool {
    let body = g[a][j];
    &&& body.len() == 0 ==> gs[tri(n, p as int, a, p as int)]
    &&& (body.len() == 1 && body[0] is TerminalIndex && dfa.step(p, body[0]->TerminalIndex_0) is Some)
        ==> gs[tri(n, p as int, a, dfa.step(p, body[0]->TerminalIndex_0)->0 as int)]
}

/// The mark that a unit production `g[a][j]`, `a -> b`, asks for between `p`
/// and `q`, unless `(p, b, q)` is still to be processed.
pub open spec fn unit_at(
    gs: Seq<bool>,
    tp: Seq<(usize, usize, usize, usize)>,
    held: Option<(usize, usize, usize)>,
    g: Seq<Seq<Seq<SymbolIndex>>>,
    n: nat,
    a: int,
    j: int,
    p: usize,
    q: usize,
) -> bool {
    let body = g[a][j];
    (body.len() == 1 && body[0] is VariableIndex && gs[tri(n, p as int, body[0]->VariableIndex_0 as int, q as int)]) ==> {
        ||| gs[tri(n, p as int, a, q as int)]
        ||| waiting(tp, held, p, body[0]->VariableIndex_0, q)
    }
}

/// The mark that a production `g[a][j]`, `a -> b c`, asks for between `p`
/// and `r` through `q`, unless `(p, b, q)` or `(q, c, r)` is still to be processed.
pub open spec fn pair_at(
    gs: Seq<bool>,
    tp: Seq<(usize, usize, usize, usize)>,
    held: Option<(usize, usize, usize)>,
    g: Seq<Seq<Seq<SymbolIndex>>>,
    n: nat,
    a: int,
    j: int,
    p: usize,
    q: usize,
    r: usize,
) -> bool {
    let body = g[a][j];
    (body.len() == 2 && body[0] is VariableIndex && body[1] is VariableIndex
        && gs[tri(n, p as int, body[0]->VariableIndex_0 as int, q as int)]
        && gs[tri(n, q as int, body[1]->VariableIndex_0 as int, r as int)]) ==> {
        ||| gs[tri(n, p as int, a, r as int)]
        ||| waiting(tp, held, p, body[0]->VariableIndex_0, q)
        ||| waiting(tp, held, q, body[1]->VariableIndex_0, r)
    }
}

/// Whether the terminal and empty productions have all been marked.
pub open spec fn init_closed(gs: Seq<bool>, g: Seq<Seq<Seq<SymbolIndex>>>, dfa: DFA, n: nat) -> bool {
    forall|a: int, j: int, p: usize| 0 <= a < g.len() && 0 <= j < g[a].len() && p < n ==> #[trigger] init_at(gs, g, dfa, n, a, j, p)
}

/// Whether every mark that a unit or pair production asks for is made,
/// unless one of what asks for it is still to be processed.
pub open spec fn closed(
    gs: Seq<bool>,
    tp: Seq<(usize, usize, usize, usize)>,
    held: Option<(usize, usize, usize)>,
    g: Seq<Seq<Seq<SymbolIndex>>>,
    n: nat,
) -> bool {
    &&& forall|a: int, j: int, p: usize, q: usize| 0 <= a < g.len() && 0 <= j < g[a].len() && p < n && q < n
        ==> #[trigger] unit_at(gs, tp, held, g, n, a, j, p, q)
    &&& forall|a: int, j: int, p: usize, q: usize, r: usize| 0 <= a < g.len() && 0 <= j < g[a].len() && p < n && q < n && r < n
        ==> #[trigger] pair_at(gs, tp, held, g, n, a, j, p, q, r)
}

/// Whether no intersection variable `(start state, start, accepting state)` is marked.
pub open spec fn no_final_marked(gs: Seq<bool>, dfa: DFA, n: nat, start: usize) -> bool {
    forall|f: usize| f < n && #[trigger] dfa.accept_states@.contains(f) ==> !gs[tri(n, dfa.start_state as int, start as int, f as int)]
}

/// Whether every variable of every body is one of the `g.len()` variables.
pub open spec fn variables_in(g: Seq<Seq<Seq<SymbolIndex>>>) -> bool {
    forall|a: int, j: int, k: int| 0 <= a < g.len() && 0 <= j < g[a].len() && 0 <= k < g[a][j].len()
        ==> (#[trigger] g[a][j][k] matches SymbolIndex::VariableIndex(v) ==> v < g.len())
}


/// What one visit does to the marks and the queue: nothing, or it marks
/// the intersection variable `(p, a, r)` and queues it.
pub open spec fn visit_step(
    gs0: Seq<bool>,
    tp0: Seq<(usize, usize, usize, usize)>,
    gs1: Seq<bool>,
    tp1: Seq<(usize, usize, usize, usize)>,
    n: nat,
    p: usize,
    a: usize,
    r: usize,
) -> bool {
    let x = tri(n, p as int, a as int, r as int);
    ||| gs1 == gs0 && tp1 == tp0
    ||| !gs0[x] && gs1 == gs0.update(x, true) && tp1 == tp0.push((p, a, r, x as usize))
}

/// A visit keeps the marks, keeps what waits, and queues what it marks; it
/// keeps the marks closed and the terminal and empty productions marked.
pub proof fn lemma_visit_step(
    gs0: Seq<bool>,
    tp0: Seq<(usize, usize, usize, usize)>,
    gs1: Seq<bool>,
    tp1: Seq<(usize, usize, usize, usize)>,
    held: Option<(usize, usize, usize)>,
    g: Seq<Seq<Seq<SymbolIndex>>>,
    dfa: DFA,
    n: nat,
    p: usize,
    a: usize,
    r: usize,
)
    requires
        gs0.len() == n * n * g.len() + 1,
        p < n,
        r < n,
        a < g.len(),
        dfa.wf(),
        n == dfa.n(),
        variables_in(g),
        visit_step(gs0, tp0, gs1, tp1, n, p, a, r),
        closed(gs0, tp0, held, g, n),
    ensures
        gs1.len() == gs0.len(),
        forall|i: int| 0 <= i < gs0.len() && #[trigger] gs0[i] ==> gs1[i],
        forall|p2: usize, v2: usize, q2: usize, h: Option<(usize, usize, usize)>|
            #[trigger] waiting(tp0, h, p2, v2, q2) ==> waiting(tp1, h, p2, v2, q2),
        forall|p2: usize, v2: usize, q2: usize|
            p2 < n && q2 < n && v2 < g.len() && #[trigger] gs1[tri(n, p2 as int, v2 as int, q2 as int)] && !gs0[tri(n, p2 as int, v2 as int, q2 as int)]
                ==> p2 == p && v2 == a && q2 == r && waiting(tp1, None, p2, v2, q2),
        closed(gs1, tp1, held, g, n),
        !gs0[(n * n * g.len()) as int] ==> !gs1[(n * n * g.len()) as int],
        forall|a2: int, j: int, p2: usize| 0 <= a2 < g.len() && 0 <= j < g[a2].len() && p2 < n && init_at(gs0, g, dfa, n, a2, j, p2)
            ==> #[trigger] init_at(gs1, g, dfa, n, a2, j, p2),
        forall|t: (usize, usize, usize), a2: usize| t.0 < n && t.2 < n && a2 < g.len() && single_fact(gs0, n, t, a2)
            ==> #[trigger] single_fact(gs1, n, t, a2),
        forall|t: (usize, usize, usize), c: usize, a2: usize, r2: usize| t.0 < n && t.2 < n && c < g.len() && a2 < g.len() && r2 < n
            && right_fact(gs0, tp0, n, t, c, a2, r2) ==> #[trigger] right_fact(gs1, tp1, n, t, c, a2, r2),
        forall|t: (usize, usize, usize), x2: usize, a2: usize, r2: usize| t.0 < n && t.2 < n && x2 < g.len() && a2 < g.len() && r2 < n
            && left_fact(gs0, tp0, n, t, x2, a2, r2) ==> #[trigger] left_fact(gs1, tp1, n, t, x2, a2, r2),
{
    let x = tri(n, p as int, a as int, r as int);
    lemma_tri_bound(n, g.len(), p as int, a as int, r as int);
    if gs1 == gs0 && tp1 == tp0 {
        return;
    }
    assert forall|p2: usize, v2: usize, q2: usize, h: Option<(usize, usize, usize)>|
        #[trigger] waiting(tp0, h, p2, v2, q2) implies waiting(tp1, h, p2, v2, q2) by {
        if h != Some((p2, v2, q2)) {
            let k = choose|k: int| 0 <= k < tp0.len() && (#[trigger] tp0[k]).0 == p2 && tp0[k].1 == v2 && tp0[k].2 == q2;
            assert(tp1[k] == tp0[k]);
        }
    }
    assert forall|p2: usize, v2: usize, q2: usize|
        p2 < n && q2 < n && v2 < g.len() && #[trigger] gs1[tri(n, p2 as int, v2 as int, q2 as int)] && !gs0[tri(n, p2 as int, v2 as int, q2 as int)]
            implies p2 == p && v2 == a && q2 == r && waiting(tp1, None, p2, v2, q2) by {
        lemma_tri_bound(n, g.len(), p2 as int, v2 as int, q2 as int);
        assert(tri(n, p2 as int, v2 as int, q2 as int) == x);
        lemma_tri_injective(n, p2 as int, v2 as int, q2 as int, p as int, a as int, r as int);
        assert(tp1[tp0.len() as int] == (p, a, r, x as usize));
    }
    assert forall|a2: int, j: int, p2: usize, q2: usize| 0 <= a2 < g.len() && 0 <= j < g[a2].len() && p2 < n && q2 < n
        implies #[trigger] unit_at(gs1, tp1, held, g, n, a2, j, p2, q2) by {
        let body = g[a2][j];
        assert(unit_at(gs0, tp0, held, g, n, a2, j, p2, q2));
        if body.len() == 1 && body[0] is VariableIndex {
            let b = body[0]->VariableIndex_0;
            assert(g[a2][j][0] matches SymbolIndex::VariableIndex(v) ==> v < g.len());
            lemma_tri_bound(n, g.len(), p2 as int, b as int, q2 as int);
            lemma_tri_bound(n, g.len(), p2 as int, a2, q2 as int);
            if gs1[tri(n, p2 as int, b as int, q2 as int)] && !gs0[tri(n, p2 as int, b as int, q2 as int)] {
                lemma_tri_injective(n, p2 as int, b as int, q2 as int, p as int, a as int, r as int);
                assert(tp1[tp0.len() as int] == (p, a, r, x as usize));
                assert(waiting(tp1, held, p2, b, q2));
            } else if gs0[tri(n, p2 as int, b as int, q2 as int)] {
                assert(waiting(tp0, held, p2, b, q2) ==> waiting(tp1, held, p2, b, q2));
            }
        }
    }
    assert forall|a2: int, j: int, p2: usize, q2: usize, r2: usize| 0 <= a2 < g.len() && 0 <= j < g[a2].len() && p2 < n && q2 < n && r2 < n
        implies #[trigger] pair_at(gs1, tp1, held, g, n, a2, j, p2, q2, r2) by {
        let body = g[a2][j];
        assert(pair_at(gs0, tp0, held, g, n, a2, j, p2, q2, r2));
        if body.len() == 2 && body[0] is VariableIndex && body[1] is VariableIndex {
            let b = body[0]->VariableIndex_0;
            let c = body[1]->VariableIndex_0;
            assert(g[a2][j][0] matches SymbolIndex::VariableIndex(v) ==> v < g.len());
            assert(g[a2][j][1] matches SymbolIndex::VariableIndex(v) ==> v < g.len());
            lemma_tri_bound(n, g.len(), p2 as int, b as int, q2 as int);
            lemma_tri_bound(n, g.len(), q2 as int, c as int, r2 as int);
            lemma_tri_bound(n, g.len(), p2 as int, a2, r2 as int);
            assert(tp1[tp0.len() as int] == (p, a, r, x as usize));
            if gs1[tri(n, p2 as int, b as int, q2 as int)] && !gs0[tri(n, p2 as int, b as int, q2 as int)] {
                lemma_tri_injective(n, p2 as int, b as int, q2 as int, p as int, a as int, r as int);
                assert(waiting(tp1, held, p2, b, q2));
            } else if gs1[tri(n, q2 as int, c as int, r2 as int)] && !gs0[tri(n, q2 as int, c as int, r2 as int)] {
                lemma_tri_injective(n, q2 as int, c as int, r2 as int, p as int, a as int, r as int);
                assert(waiting(tp1, held, q2, c, r2));
            } else if gs0[tri(n, p2 as int, b as int, q2 as int)] && gs0[tri(n, q2 as int, c as int, r2 as int)] {
                assert(waiting(tp0, held, p2, b, q2) ==> waiting(tp1, held, p2, b, q2));
                assert(waiting(tp0, held, q2, c, r2) ==> waiting(tp1, held, q2, c, r2));
            }
        }
    }
    assert forall|t: (usize, usize, usize), a2: usize| t.0 < n && t.2 < n && a2 < g.len() && single_fact(gs0, n, t, a2)
        implies #[trigger] single_fact(gs1, n, t, a2) by {
        lemma_tri_bound(n, g.len(), t.0 as int, a2 as int, t.2 as int);
    }
    assert forall|t: (usize, usize, usize), c: usize, a2: usize, r2: usize| t.0 < n && t.2 < n && c < g.len() && a2 < g.len() && r2 < n
        && right_fact(gs0, tp0, n, t, c, a2, r2) implies #[trigger] right_fact(gs1, tp1, n, t, c, a2, r2) by {
        lemma_tri_bound(n, g.len(), t.2 as int, c as int, r2 as int);
        lemma_tri_bound(n, g.len(), t.0 as int, a2 as int, r2 as int);
        if gs1[tri(n, t.2 as int, c as int, r2 as int)] && !gs0[tri(n, t.2 as int, c as int, r2 as int)] {
            assert(waiting(tp1, None, t.2, c, r2));
        } else if gs0[tri(n, t.2 as int, c as int, r2 as int)] {
            assert(waiting(tp0, None, t.2, c, r2) ==> waiting(tp1, None, t.2, c, r2));
        }
    }
    assert forall|t: (usize, usize, usize), x2: usize, a2: usize, r2: usize| t.0 < n && t.2 < n && x2 < g.len() && a2 < g.len() && r2 < n
        && left_fact(gs0, tp0, n, t, x2, a2, r2) implies #[trigger] left_fact(gs1, tp1, n, t, x2, a2, r2) by {
        lemma_tri_bound(n, g.len(), r2 as int, x2 as int, t.0 as int);
        lemma_tri_bound(n, g.len(), r2 as int, a2 as int, t.2 as int);
        if gs1[tri(n, r2 as int, x2 as int, t.0 as int)] && !gs0[tri(n, r2 as int, x2 as int, t.0 as int)] {
            assert(waiting(tp1, None, r2, x2, t.0));
        } else if gs0[tri(n, r2 as int, x2 as int, t.0 as int)] {
            assert(waiting(tp0, None, r2, x2, t.0) ==> waiting(tp1, None, r2, x2, t.0));
        }
    }
    assert forall|a2: int, j: int, p2: usize| 0 <= a2 < g.len() && 0 <= j < g[a2].len() && p2 < n && init_at(gs0, g, dfa, n, a2, j, p2)
        implies #[trigger] init_at(gs1, g, dfa, n, a2, j, p2) by {
        lemma_tri_bound(n, g.len(), p2 as int, a2, p2 as int);
        let body = g[a2][j];
        if body.len() == 1 && body[0] is TerminalIndex && dfa.step(p2, body[0]->TerminalIndex_0) is Some {
            let q2 = dfa.step(p2, body[0]->TerminalIndex_0)->0;
            assert(q2 < n);
            lemma_tri_bound(n, g.len(), p2 as int, a2, q2 as int);
        }
    }
}

/// Taking the entry `e` off the end of the queue holds it.
pub proof fn lemma_hold(gs: Seq<bool>, tp: Seq<(usize, usize, usize, usize)>, e: (usize, usize, usize, usize), g: Seq<Seq<Seq<SymbolIndex>>>, n: nat)
    requires
        closed(gs, tp.push(e), None, g, n),
    ensures
        closed(gs, tp, Some((e.0, e.1, e.2)), g, n),
        forall|p2: usize, v2: usize, q2: usize| #[trigger] waiting(tp.push(e), None, p2, v2, q2) ==> waiting(tp, Some((e.0, e.1, e.2)), p2, v2, q2),
{
    assert forall|p2: usize, v2: usize, q2: usize| #[trigger] waiting(tp.push(e), None, p2, v2, q2) implies waiting(tp, Some((e.0, e.1, e.2)), p2, v2, q2) by {
        let k = choose|k: int| 0 <= k < tp.push(e).len() && (#[trigger] tp.push(e)[k]).0 == p2 && tp.push(e)[k].1 == v2 && tp.push(e)[k].2 == q2;
        if k < tp.len() {
            assert(tp[k] == tp.push(e)[k]);
        }
    }
    assert forall|a2: int, j: int, p2: usize, q2: usize| 0 <= a2 < g.len() && 0 <= j < g[a2].len() && p2 < n && q2 < n
        implies #[trigger] unit_at(gs, tp, Some((e.0, e.1, e.2)), g, n, a2, j, p2, q2) by {
        assert(unit_at(gs, tp.push(e), None, g, n, a2, j, p2, q2));
    }
    assert forall|a2: int, j: int, p2: usize, q2: usize, r2: usize| 0 <= a2 < g.len() && 0 <= j < g[a2].len() && p2 < n && q2 < n && r2 < n
        implies #[trigger] pair_at(gs, tp, Some((e.0, e.1, e.2)), g, n, a2, j, p2, q2, r2) by {
        assert(pair_at(gs, tp.push(e), None, g, n, a2, j, p2, q2, r2));
    }
}


/// After processing `t = (p, b, q)` by a unit production `a -> b`: `(p, a, q)` is marked.
pub open spec fn single_fact(gs: Seq<bool>, n: nat, t: (usize, usize, usize), a: usize) -> bool {
    gs[tri(n, t.0 as int, a as int, t.2 as int)]
}

/// After processing `t = (p, b, q)` by a production `a -> b c` towards `r`:
/// where `(q, c, r)` is marked, `(p, a, r)` is marked or `(q, c, r)` waits.
pub open spec fn right_fact(gs: Seq<bool>, tp: Seq<(usize, usize, usize, usize)>, n: nat, t: (usize, usize, usize), c: usize, a: usize, r: usize) -> bool {
    gs[tri(n, t.2 as int, c as int, r as int)] ==> gs[tri(n, t.0 as int, a as int, r as int)] || waiting(tp, None, t.2, c, r)
}

/// After processing `t = (p, c, q)` by a production `a -> x c` from `r`:
/// where `(r, x, p)` is marked, `(r, a, q)` is marked or `(r, x, p)` waits.
pub open spec fn left_fact(gs: Seq<bool>, tp: Seq<(usize, usize, usize, usize)>, n: nat, t: (usize, usize, usize), x: usize, a: usize, r: usize) -> bool {
    gs[tri(n, r as int, x as int, t.0 as int)] ==> gs[tri(n, r as int, a as int, t.2 as int)] || waiting(tp, None, r, x, t.0)
}

/// Once `t` is processed by every production that names it, the marks are
/// closed without holding it.
pub proof fn lemma_release(
    gs: Seq<bool>,
    tp: Seq<(usize, usize, usize, usize)>,
    t: (usize, usize, usize),
    g: Seq<Seq<Seq<SymbolIndex>>>,
    n: nat,
    single: Seq<Vec<usize>>,
    two_r: Seq<Vec<(usize, usize)>>,
    two_l: Seq<Vec<(usize, usize)>>,
)
    requires
        t.1 < g.len(),
        g.len() <= usize::MAX,
        variables_in(g),
        closed(gs, tp, Some(t), g, n),
        forall|a: int, j: int| 0 <= a < g.len() && 0 <= j < g[a].len() ==> #[trigger] listed_at(g, single, two_r, two_l, a, j),
        forall|k: int| 0 <= k < single[t.1 as int]@.len() ==> #[trigger] single_fact(gs, n, t, single[t.1 as int]@[k]),
        forall|k: int, r: usize| 0 <= k < two_r[t.1 as int]@.len() && r < n
            ==> #[trigger] right_fact(gs, tp, n, t, two_r[t.1 as int]@[k].0, two_r[t.1 as int]@[k].1, r),
        forall|k: int, r: usize| 0 <= k < two_l[t.1 as int]@.len() && r < n
            ==> #[trigger] left_fact(gs, tp, n, t, two_l[t.1 as int]@[k].0, two_l[t.1 as int]@[k].1, r),
    ensures
        closed(gs, tp, None, g, n),
{
    assert forall|a2: int, j: int, p2: usize, q2: usize| 0 <= a2 < g.len() && 0 <= j < g[a2].len() && p2 < n && q2 < n
        implies #[trigger] unit_at(gs, tp, None, g, n, a2, j, p2, q2) by {
        assert(unit_at(gs, tp, Some(t), g, n, a2, j, p2, q2));
        let body = g[a2][j];
        if body.len() == 1 && body[0] is VariableIndex && gs[tri(n, p2 as int, body[0]->VariableIndex_0 as int, q2 as int)] {
            let b = body[0]->VariableIndex_0;
            if t == (p2, b, q2) && !gs[tri(n, p2 as int, a2, q2 as int)] {
                assert(listed_at(g, single, two_r, two_l, a2, j));
                let k = choose|k: int| 0 <= k < single[b as int]@.len() && single[b as int]@[k] == a2 as usize;
                assert(single_fact(gs, n, t, single[t.1 as int]@[k]));
            }
        }
    }
    assert forall|a2: int, j: int, p2: usize, q2: usize, r2: usize| 0 <= a2 < g.len() && 0 <= j < g[a2].len() && p2 < n && q2 < n && r2 < n
        implies #[trigger] pair_at(gs, tp, None, g, n, a2, j, p2, q2, r2) by {
        assert(pair_at(gs, tp, Some(t), g, n, a2, j, p2, q2, r2));
        let body = g[a2][j];
        if body.len() == 2 && body[0] is VariableIndex && body[1] is VariableIndex
            && gs[tri(n, p2 as int, body[0]->VariableIndex_0 as int, q2 as int)]
            && gs[tri(n, q2 as int, body[1]->VariableIndex_0 as int, r2 as int)]
            && !gs[tri(n, p2 as int, a2, r2 as int)] {
            let b = body[0]->VariableIndex_0;
            let c = body[1]->VariableIndex_0;
            assert(listed_at(g, single, two_r, two_l, a2, j));
            if waiting(tp, None, p2, b, q2) || waiting(tp, None, q2, c, r2) {
            } else if t == (p2, b, q2) {
                let k = choose|k: int| 0 <= k < two_r[b as int]@.len() && two_r[b as int]@[k] == (c, a2 as usize);
                assert(right_fact(gs, tp, n, t, two_r[t.1 as int]@[k].0, two_r[t.1 as int]@[k].1, r2));
            } else {
                assert(t == (q2, c, r2));
                let k = choose|k: int| 0 <= k < two_l[c as int]@.len() && two_l[c as int]@[k] == (b, a2 as usize);
                assert(left_fact(gs, tp, n, t, two_l[t.1 as int]@[k].0, two_l[t.1 as int]@[k].1, p2));
            }
        }
    }
}


/// The facts of the processing of `t` survive a visit.
pub proof fn lemma_facts_transfer(
    gs0: Seq<bool>,
    tp0: Seq<(usize, usize, usize, usize)>,
    gs1: Seq<bool>,
    tp1: Seq<(usize, usize, usize, usize)>,
    g: Seq<Seq<Seq<SymbolIndex>>>,
    n: nat,
    t: (usize, usize, usize),
    single: Seq<Vec<usize>>,
    two_r: Seq<Vec<(usize, usize)>>,
    two_l: Seq<Vec<(usize, usize)>>,
)
    requires
        t.0 < n,
        t.2 < n,
        t.1 < g.len(),
        production_maps_ok(g, single, two_r, two_l),
        forall|t2: (usize, usize, usize), a2: usize| t2.0 < n && t2.2 < n && a2 < g.len() && single_fact(gs0, n, t2, a2)
            ==> #[trigger] single_fact(gs1, n, t2, a2),
        forall|t2: (usize, usize, usize), c: usize, a2: usize, r2: usize| t2.0 < n && t2.2 < n && c < g.len() && a2 < g.len() && r2 < n
            && right_fact(gs0, tp0, n, t2, c, a2, r2) ==> #[trigger] right_fact(gs1, tp1, n, t2, c, a2, r2),
        forall|t2: (usize, usize, usize), x2: usize, a2: usize, r2: usize| t2.0 < n && t2.2 < n && x2 < g.len() && a2 < g.len() && r2 < n
            && left_fact(gs0, tp0, n, t2, x2, a2, r2) ==> #[trigger] left_fact(gs1, tp1, n, t2, x2, a2, r2),
    ensures
        forall|k2: int| 0 <= k2 < single[t.1 as int]@.len() && single_fact(gs0, n, t, single[t.1 as int]@[k2])
            ==> #[trigger] single_fact(gs1, n, t, single[t.1 as int]@[k2]),
        forall|k2: int, r2: usize| 0 <= k2 < two_r[t.1 as int]@.len() && r2 < n
            && right_fact(gs0, tp0, n, t, two_r[t.1 as int]@[k2].0, two_r[t.1 as int]@[k2].1, r2)
            ==> #[trigger] right_fact(gs1, tp1, n, t, two_r[t.1 as int]@[k2].0, two_r[t.1 as int]@[k2].1, r2),
        forall|k2: int, r2: usize| 0 <= k2 < two_l[t.1 as int]@.len() && r2 < n
            && left_fact(gs0, tp0, n, t, two_l[t.1 as int]@[k2].0, two_l[t.1 as int]@[k2].1, r2)
            ==> #[trigger] left_fact(gs1, tp1, n, t, two_l[t.1 as int]@[k2].0, two_l[t.1 as int]@[k2].1, r2),
{
    let b = t.1 as int;
    assert forall|k2: int| 0 <= k2 < single[b]@.len() && single_fact(gs0, n, t, single[b]@[k2])
        implies #[trigger] single_fact(gs1, n, t, single[b]@[k2]) by {
        let a2 = single[b]@[k2];
        assert(a2 < g.len());
    }
    assert forall|k2: int, r2: usize| 0 <= k2 < two_r[b]@.len() && r2 < n
        && right_fact(gs0, tp0, n, t, two_r[b]@[k2].0, two_r[b]@[k2].1, r2)
        implies #[trigger] right_fact(gs1, tp1, n, t, two_r[b]@[k2].0, two_r[b]@[k2].1, r2) by {
        let e = two_r[b]@[k2];
        assert(e.0 < g.len() && e.1 < g.len());
    }
    assert forall|k2: int, r2: usize| 0 <= k2 < two_l[b]@.len() && r2 < n
        && left_fact(gs0, tp0, n, t, two_l[b]@[k2].0, two_l[b]@[k2].1, r2)
        implies #[trigger] left_fact(gs1, tp1, n, t, two_l[b]@[k2].0, two_l[b]@[k2].1, r2) by {
        let e = two_l[b]@[k2];
        assert(e.0 < g.len() && e.1 < g.len());
    }
}


/// An automaton that reaches no accept state from its start state accepts
/// no word of the grammar.
pub proof fn lemma_no_accept_empty(g: Seq<Seq<Seq<SymbolIndex>>>, start: usize, dfa: DFA)
    requires
        !dfa.leads_to_accept(dfa.start_state),
    ensures
        !intersection_nonempty(g, start, dfa),
{
    if intersection_nonempty(g, start, dfa) {
        let w = choose|w: Seq<usize>| #[trigger] generates(g, SymbolIndex::VariableIndex(start), w) && dfa.accepts_indices(w);
        assert(dfa.run(dfa.start_state, w) matches Some(f) && dfa.accept_states@.contains(f));
    }
}

/// Marks closed under every production hold every intersection variable
/// that derives a word along the automaton.
#[verifier::rlimit(40)]
pub proof fn lemma_closed_complete(
    gs: Seq<bool>,
    g: Seq<Seq<Seq<SymbolIndex>>>,
    dfa: DFA,
    n: nat,
    h: nat,
    v: usize,
    w: Seq<usize>,
    p: usize,
)
    requires
        dfa.wf(),
        n == dfa.n(),
        binary_form(g),
        variables_in(g),
        init_closed(gs, g, dfa, n),
        closed(gs, Seq::empty(), None, g, n),
        p < n,
        v < g.len(),
        derives(g, h, SymbolIndex::VariableIndex(v), w),
        dfa.run(p, w) is Some,
    ensures
        gs[tri(n, p as int, v as int, dfa.run(p, w)->0 as int)],
    decreases h,
{
    let q = dfa.run(p, w)->0;
    dfa.lemma_run_in_range(p, w);
    assert(h > 0);
    let prev = derivable(g, (h - 1) as nat);
    crate::cfg::generating::lemma_derivable_unfold(g, (h - 1) as nat);
    assert(derive_step(g, prev)(SymbolIndex::VariableIndex(v), w));
    let j = choose|j: int| 0 <= j < g[v as int].len() && #[trigger] crate::cfg::cfg::body_derives(prev, g[v as int][j], w);
    let body = g[v as int][j];
    let cuts = choose|cuts: Seq<int>| #[trigger] crate::cfg::cfg::split_ok(prev, body, w, cuts);
    assert(body.len() <= 2);
    if body.len() == 0 {
        assert(w.len() == 0);
        assert(init_at(gs, g, dfa, n, v as int, j, p));
        assert(q == p);
        assert(gs[tri(n, p as int, v as int, q as int)]);
    } else if body.len() == 1 {
        assert(prev(body[0], w.subrange(cuts[0], cuts[1])));
        assert(w.subrange(cuts[0], cuts[1]) =~= w);
        match body[0] {
            SymbolIndex::TerminalIndex(o) => {
                assert(h - 1 > 0);
                crate::cfg::generating::lemma_derivable_unfold(g, (h - 2) as nat);
                assert(w == seq![o]);
                assert(w.drop_last() =~= Seq::<usize>::empty());
                assert(dfa.run(p, w.drop_last()) == Some(p));
                assert(w.last() == o);
                assert(dfa.step(p, o) == Some(q));
                assert(init_at(gs, g, dfa, n, v as int, j, p));
                assert(gs[tri(n, p as int, v as int, q as int)]);
            },
            SymbolIndex::VariableIndex(b) => {
                assert(g[v as int][j][0] matches SymbolIndex::VariableIndex(x) ==> x < g.len());
                assert(derives(g, (h - 1) as nat, SymbolIndex::VariableIndex(b), w));
                lemma_closed_complete(gs, g, dfa, n, (h - 1) as nat, b, w, p);
                assert(unit_at(gs, Seq::empty(), None, g, n, v as int, j, p, q));
                assert(!waiting(Seq::empty(), None, p, b, q));
                assert(gs[tri(n, p as int, v as int, q as int)]);
            },
        }
    } else {
        let b = body[0]->VariableIndex_0;
        let c = body[1]->VariableIndex_0;
        assert(g[v as int][j][0] matches SymbolIndex::VariableIndex(x) ==> x < g.len());
        assert(g[v as int][j][1] matches SymbolIndex::VariableIndex(x) ==> x < g.len());
        assert(cuts[0] <= cuts[1] && cuts[1] <= cuts[2]);
        let w1 = w.subrange(cuts[0], cuts[1]);
        let w2 = w.subrange(cuts[1], cuts[2]);
        assert(prev(body[0], w1));
        assert(prev(body[1], w2));
        assert(w =~= w1 + w2);
        dfa.lemma_run_concat(p, w1, w2);
        let q1 = dfa.run(p, w1)->0;
        dfa.lemma_run_in_range(p, w1);
        assert(derives(g, (h - 1) as nat, SymbolIndex::VariableIndex(b), w1));
        assert(derives(g, (h - 1) as nat, SymbolIndex::VariableIndex(c), w2));
        lemma_closed_complete(gs, g, dfa, n, (h - 1) as nat, b, w1, p);
        lemma_closed_complete(gs, g, dfa, n, (h - 1) as nat, c, w2, q1);
        assert(pair_at(gs, Seq::empty(), None, g, n, v as int, j, p, q1, q));
        assert(!waiting(Seq::empty(), None, p, b, q1));
        assert(!waiting(Seq::empty(), None, q1, c, q));
        assert(gs[tri(n, p as int, v as int, q as int)]);
    }
}

/// Marks closed under every production, with no final intersection variable
/// marked, show that no word of the grammar is accepted by the automaton.
pub proof fn lemma_closed_empty(gs: Seq<bool>, g: Seq<Seq<Seq<SymbolIndex>>>, dfa: DFA, n: nat, start: usize)
    requires
        dfa.wf(),
        n == dfa.n(),
        binary_form(g),
        variables_in(g),
        start < g.len(),
        init_closed(gs, g, dfa, n),
        closed(gs, Seq::empty(), None, g, n),
        no_final_marked(gs, dfa, n, start),
    ensures
        !intersection_nonempty(g, start, dfa),
{
    if intersection_nonempty(g, start, dfa) {
        let w = choose|w: Seq<usize>| #[trigger] generates(g, SymbolIndex::VariableIndex(start), w) && dfa.accepts_indices(w);
        let h = choose|h: nat| #[trigger] derives(g, h, SymbolIndex::VariableIndex(start), w);
        let f = dfa.run(dfa.start_state, w)->0;
        lemma_closed_complete(gs, g, dfa, n, h, start, w, dfa.start_state);
        dfa.lemma_run_in_range(dfa.start_state, w);
        assert(dfa.accept_states@.contains(f));
    }
}

} // verus!
