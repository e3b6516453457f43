//! The words of the intersection grammar: the variable `(p, a, q)` derives
//! exactly the words that `a` derives and that lead the automaton from `p`
//! to `q`, and the new start variable exactly the words of the grammar that
//! the automaton accepts.
use crate::cfg::cfg::{binary_form, body_derives, derivable, derive_step, derives, generates, grammar_ok, split_ok, symbol_in, SymbolIndex};
use crate::cfg::cfg::terminal_names;
use crate::cfg::generating::{is_nullable, lemma_cuts_bounded, lemma_derivable_unfold, lemma_terminal_generating};
use crate::cfg::queries::same_names;
use crate::input_symbol::InputSymbol;
use crate::cfg::intersection::{inter_head_bodies, inter_rule_bodies, inter_start_bodies, lemma_flatten_one, lemma_head_from_words, lemma_tri_bound, tri};
use crate::fa::dfa::DFA;
use vstd::prelude::*;

verus! {

/// Every element of a flattened sequence is an element of one of its parts.
pub proof fn lemma_flatten_origin<A>(ss: Seq<Seq<A>>, k: int)
    requires
        0 <= k < ss.flatten().len(),
    ensures
        exists|j: int, i: int| 0 <= j < ss.len() && 0 <= i < ss[j].len() && #[trigger] ss[j][i] == ss.flatten()[k],
    decreases ss.len(),
{
    if ss.len() == 0 {
        assert(ss.flatten() =~= Seq::<A>::empty());
    } else {
        let f = ss.first();
        let rest = ss.drop_first();
        assert(ss.flatten() == f + rest.flatten());
        if k < f.len() {
            assert(ss[0][k] == ss.flatten()[k]);
        } else {
            lemma_flatten_origin(rest, k - f.len());
            let (j, i) = choose|j: int, i: int| 0 <= j < rest.len() && 0 <= i < rest[j].len() && #[trigger] rest[j][i] == rest.flatten()[k - f.len()];
            assert(ss[j + 1][i] == ss.flatten()[k]);
        }
    }
}

/// Every element of a part of a sequence is an element of its flattening.
pub proof fn lemma_flatten_member<A>(ss: Seq<Seq<A>>, j: int, i: int)
    requires
        0 <= j < ss.len(),
        0 <= i < ss[j].len(),
    ensures
        exists|k: int| 0 <= k < ss.flatten().len() && #[trigger] ss.flatten()[k] == ss[j][i],
    decreases ss.len(),
{
    let f = ss.first();
    let rest = ss.drop_first();
    assert(ss.flatten() == f + rest.flatten());
    if j == 0 {
        assert(ss.flatten()[i] == ss[j][i]);
    } else {
        assert(rest[j - 1] == ss[j]);
        lemma_flatten_member(rest, j - 1, i);
        let k = choose|k: int| 0 <= k < rest.flatten().len() && #[trigger] rest.flatten()[k] == rest[j - 1][i];
        assert(ss.flatten()[k + f.len()] == ss[j][i]);
    }
}

/// Flattening two words gives their concatenation.
pub proof fn lemma_flatten_two(w1: Seq<usize>, w2: Seq<usize>)
    ensures
        seq![w1, w2].flatten() == w1 + w2,
{
    let ws = seq![w1, w2];
    assert(ws.drop_first() =~= seq![w2]);
    lemma_flatten_one(seq![w2]);
    assert(ws.flatten() == w1 + seq![w2].flatten());
}

/// A variable with a body whose symbols derive the parts of `w` between
/// the cut points, by trees of height at most `m`, derives `w` by a tree of
/// height at most `m + 1`.
pub proof fn lemma_step_from_split(g: Seq<Seq<Seq<SymbolIndex>>>, m: nat, a: usize, j: int, w: Seq<usize>, cuts: Seq<int>)
    requires
        a < g.len(),
        0 <= j < g[a as int].len(),
        split_ok(derivable(g, m), g[a as int][j], w, cuts),
    ensures
        derives(g, m + 1, SymbolIndex::VariableIndex(a), w),
{
    lemma_derivable_unfold(g, m);
    assert(body_derives(derivable(g, m), g[a as int][j], w));
    assert(derive_step(g, derivable(g, m))(SymbolIndex::VariableIndex(a), w));
}

/// Whether the rows of `rg` for the variables `(p, a, q)` are those that the
/// productions of `g` give them over the states of `dfa`.
pub open spec fn intersection_rows(rg: Seq<Seq<Seq<SymbolIndex>>>, g: Seq<Seq<Seq<SymbolIndex>>>, dfa: DFA) -> bool {
    &&& rg.len() == dfa.n() * dfa.n() * g.len() + 1
    &&& forall|a: usize, p: usize, q: usize|
        a < g.len() && p < dfa.n() && q < dfa.n() ==> #[trigger] rg[tri(dfa.n(), p as int, a as int, q as int)]
            == inter_head_bodies(g, dfa, dfa.n(), a as int, p as int, q as int)
}

/// What the variable `(p, a, q)` of the intersection derives, `a` derives by
/// a tree of the same height, and it leads the automaton from `p` to `q`.
#[verifier::rlimit(60)]
#[verifier::spinoff_prover]
pub proof fn lemma_intersection_sound(
    rg: Seq<Seq<Seq<SymbolIndex>>>,
    g: Seq<Seq<Seq<SymbolIndex>>>,
    dfa: DFA,
    nt: nat,
    h: nat,
    p: usize,
    a: usize,
    q: usize,
    w: Seq<usize>,
)
    requires
        dfa.wf(),
        grammar_ok(g, nt),
        intersection_rows(rg, g, dfa),
        dfa.n() * dfa.n() * g.len() < usize::MAX,
        a < g.len(),
        p < dfa.n(),
        q < dfa.n(),
        derives(rg, h, SymbolIndex::VariableIndex(tri(dfa.n(), p as int, a as int, q as int) as usize), w),
    ensures
        derives(g, h, SymbolIndex::VariableIndex(a), w),
        dfa.run(p, w) == Some(q),
    decreases h,
{
    let n = dfa.n();
    let x = tri(n, p as int, a as int, q as int);
    lemma_tri_bound(n, g.len(), p as int, a as int, q as int);
    assert(x as usize as int == x);
    assert(h > 0);
    let m = (h - 1) as nat;
    lemma_derivable_unfold(rg, m);
    lemma_derivable_unfold(g, m);
    let prev = derivable(rg, m);
    let prev_g = derivable(g, m);
    assert(derive_step(rg, prev)(SymbolIndex::VariableIndex(x as usize), w));
    let j = choose|j: int| 0 <= j < rg[x].len() && #[trigger] body_derives(prev, rg[x][j], w);
    let ss = g[a as int].map_values(|rule: Seq<SymbolIndex>| inter_rule_bodies(dfa, n, rule, p as int, q as int));
    assert(rg[x] == ss.flatten());
    assert(0 <= j < ss.flatten().len());
    lemma_flatten_origin(ss, j);
    let (jj, i) = choose|jj: int, i: int| 0 <= jj < ss.len() && 0 <= i < ss[jj].len() && #[trigger] ss[jj][i] == ss.flatten()[j];
    let rule = g[a as int][jj];
    let body = rg[x][j];
    assert(ss[jj] == inter_rule_bodies(dfa, n, rule, p as int, q as int));
    let cuts = choose|cuts: Seq<int>| #[trigger] split_ok(prev, body, w, cuts);
    if rule.len() == 2 {
        let b = rule[0]->VariableIndex_0;
        let c = rule[1]->VariableIndex_0;
        assert(rule[0] is VariableIndex && rule[1] is VariableIndex);
        assert(symbol_in(g, nt, g[a as int][jj][0]));
        assert(symbol_in(g, nt, g[a as int][jj][1]));
        assert(rule[0] == SymbolIndex::VariableIndex(b) && rule[1] == SymbolIndex::VariableIndex(c));
        assert(ss[jj].len() == n);
        assert(0 <= i < n);
        assert(n <= n * n * g.len()) by (nonlinear_arith)
            requires
                n >= 1,
                g.len() >= 1,
        ;
        let mid = i as usize;
        assert(mid as int == i);
        assert(body == seq![
            SymbolIndex::VariableIndex(tri(n, p as int, b as int, i) as usize),
            SymbolIndex::VariableIndex(tri(n, i, c as int, q as int) as usize),
        ]);
        let w1 = w.subrange(cuts[0], cuts[1]);
        let w2 = w.subrange(cuts[1], cuts[2]);
        assert(prev(body[0], w1));
        assert(prev(body[1], w2));
        lemma_intersection_sound(rg, g, dfa, nt, m, p, b, mid, w1);
        lemma_intersection_sound(rg, g, dfa, nt, m, mid, c, q, w2);
        assert(w =~= w1 + w2);
        dfa.lemma_run_concat(p, w1, w2);
        assert(split_ok(prev_g, rule, w, cuts));
        assert(dfa.run(p, w) == Some(q));
    } else if rule.len() == 1 {
        match rule[0] {
            SymbolIndex::VariableIndex(b) => {
                assert(symbol_in(g, nt, g[a as int][jj][0]));
                assert(body == seq![SymbolIndex::VariableIndex(tri(n, p as int, b as int, q as int) as usize)]);
                assert(w.subrange(cuts[0], cuts[1]) =~= w);
                assert(prev(body[0], w));
                lemma_intersection_sound(rg, g, dfa, nt, m, p, b, q, w);
                assert(split_ok(prev_g, rule, w, cuts));
            },
            SymbolIndex::TerminalIndex(o) => {
                assert(dfa.step(p, o) == Some(q));
                assert(body == seq![SymbolIndex::TerminalIndex(o)]);
                assert(w.subrange(cuts[0], cuts[1]) =~= w);
                assert(prev(body[0], w));
                assert(m > 0);
                lemma_derivable_unfold(rg, (m - 1) as nat);
                lemma_derivable_unfold(g, (m - 1) as nat);
                assert(w == seq![o]);
                assert(prev_g(rule[0], w));
                assert(split_ok(prev_g, rule, w, cuts));
                assert(w.drop_last() =~= Seq::<usize>::empty());
                assert(w.last() == o);
                assert(dfa.run(p, Seq::<usize>::empty()) == Some(p));
                assert(dfa.run(p, w) == Some(q));
            },
        }
    } else if rule.len() == 0 {
        assert(p == q);
        assert(body == Seq::<SymbolIndex>::empty());
        assert(w.len() == 0);
        assert(split_ok(prev_g, rule, w, cuts));
    } else {
        assert(ss[jj] =~= Seq::<Seq<SymbolIndex>>::empty());
    }
    lemma_step_from_split(g, m, a, jj, w, cuts);
}

/// What variable `a` derives and leads the automaton from `p` to a state
/// `q`, the variable `(p, a, q)` of the intersection derives.
#[verifier::rlimit(60)]
#[verifier::spinoff_prover]
pub proof fn lemma_intersection_complete(
    rg: Seq<Seq<Seq<SymbolIndex>>>,
    g: Seq<Seq<Seq<SymbolIndex>>>,
    dfa: DFA,
    nt: nat,
    h: nat,
    p: usize,
    a: usize,
    w: Seq<usize>,
)
    requires
        dfa.wf(),
        grammar_ok(g, nt),
        binary_form(g),
        intersection_rows(rg, g, dfa),
        dfa.n() * dfa.n() * g.len() < usize::MAX,
        a < g.len(),
        p < dfa.n(),
        derives(g, h, SymbolIndex::VariableIndex(a), w),
        dfa.run(p, w) is Some,
    ensures
        generates(rg, SymbolIndex::VariableIndex(tri(dfa.n(), p as int, a as int, dfa.run(p, w)->0 as int) as usize), w),
    decreases h,
{
    let n = dfa.n();
    let q = dfa.run(p, w)->0;
    dfa.lemma_run_in_range(p, w);
    let x = tri(n, p as int, a as int, q as int);
    lemma_tri_bound(n, g.len(), p as int, a as int, q as int);
    assert(x as usize as int == x);
    assert(n <= n * n * g.len()) by (nonlinear_arith)
        requires
            n >= 1,
            g.len() >= 1,
    ;
    assert(h > 0);
    let m = (h - 1) as nat;
    lemma_derivable_unfold(g, m);
    let prev_g = derivable(g, m);
    assert(derive_step(g, prev_g)(SymbolIndex::VariableIndex(a), w));
    let j = choose|j: int| 0 <= j < g[a as int].len() && #[trigger] body_derives(prev_g, g[a as int][j], w);
    let rule = g[a as int][j];
    let cuts = choose|cuts: Seq<int>| #[trigger] split_ok(prev_g, rule, w, cuts);
    let ss = g[a as int].map_values(|r: Seq<SymbolIndex>| inter_rule_bodies(dfa, n, r, p as int, q as int));
    assert(rg[x] == ss.flatten());
    assert(ss[j] == inter_rule_bodies(dfa, n, rule, p as int, q as int));
    assert(rule.len() <= 2);
    if rule.len() == 2 {
        let b = rule[0]->VariableIndex_0;
        let c = rule[1]->VariableIndex_0;
        assert(rule[0] == SymbolIndex::VariableIndex(b) && rule[1] == SymbolIndex::VariableIndex(c));
        assert(symbol_in(g, nt, g[a as int][j][0]));
        assert(symbol_in(g, nt, g[a as int][j][1]));
        let w1 = w.subrange(cuts[0], cuts[1]);
        let w2 = w.subrange(cuts[1], cuts[2]);
        assert(prev_g(rule[0], w1));
        assert(prev_g(rule[1], w2));
        assert(w =~= w1 + w2);
        dfa.lemma_run_concat(p, w1, w2);
        let mid = dfa.run(p, w1)->0;
        dfa.lemma_run_in_range(p, w1);
        lemma_intersection_complete(rg, g, dfa, nt, m, p, b, w1);
        lemma_intersection_complete(rg, g, dfa, nt, m, mid, c, w2);
        assert(ss[j][mid as int] == seq![
            SymbolIndex::VariableIndex(tri(n, p as int, b as int, mid as int) as usize),
            SymbolIndex::VariableIndex(tri(n, mid as int, c as int, q as int) as usize),
        ]);
        lemma_flatten_member(ss, j, mid as int);
        let k = choose|k: int| 0 <= k < ss.flatten().len() && #[trigger] ss.flatten()[k] == ss[j][mid as int];
        let ws = seq![w1, w2];
        assert(generates(rg, rg[x][k][0], ws[0]));
        assert(generates(rg, rg[x][k][1], ws[1]));
        lemma_head_from_words(rg, x, k, ws);
        lemma_flatten_two(w1, w2);
    } else if rule.len() == 1 {
        assert(w.subrange(cuts[0], cuts[1]) =~= w);
        assert(prev_g(rule[0], w));
        let ws = seq![w];
        lemma_flatten_one(ws);
        match rule[0] {
            SymbolIndex::VariableIndex(b) => {
                assert(symbol_in(g, nt, g[a as int][j][0]));
                lemma_intersection_complete(rg, g, dfa, nt, m, p, b, w);
                assert(ss[j][0] == seq![SymbolIndex::VariableIndex(tri(n, p as int, b as int, q as int) as usize)]);
                lemma_flatten_member(ss, j, 0);
                let k = choose|k: int| 0 <= k < ss.flatten().len() && #[trigger] ss.flatten()[k] == ss[j][0];
                assert(generates(rg, rg[x][k][0], ws[0]));
                lemma_head_from_words(rg, x, k, ws);
            },
            SymbolIndex::TerminalIndex(o) => {
                assert(m > 0);
                lemma_derivable_unfold(g, (m - 1) as nat);
                assert(w == seq![o]);
                assert(w.drop_last() =~= Seq::<usize>::empty());
                assert(w.last() == o);
                assert(dfa.run(p, Seq::<usize>::empty()) == Some(p));
                assert(dfa.step(p, o) == Some(q));
                assert(ss[j][0] == seq![SymbolIndex::TerminalIndex(o)]);
                lemma_flatten_member(ss, j, 0);
                let k = choose|k: int| 0 <= k < ss.flatten().len() && #[trigger] ss.flatten()[k] == ss[j][0];
                lemma_terminal_generating(rg, o);
                assert(generates(rg, rg[x][k][0], ws[0]));
                lemma_head_from_words(rg, x, k, ws);
            },
        }
    } else {
        assert(w.len() == 0);
        assert(w =~= Seq::<usize>::empty());
        assert(q == p);
        assert(ss[j][0] == Seq::<SymbolIndex>::empty());
        lemma_flatten_member(ss, j, 0);
        let k = choose|k: int| 0 <= k < ss.flatten().len() && #[trigger] ss.flatten()[k] == ss[j][0];
        let ws = Seq::<Seq<usize>>::empty();
        assert(ws.flatten() =~= Seq::<usize>::empty());
        lemma_head_from_words(rg, x, k, ws);
    }
}

/// The start variable of the intersection, numbered after the variables
/// `(p, a, q)`, derives exactly the words that the grammar derives from its
/// start variable and that the automaton accepts.
#[verifier::rlimit(40)]
pub proof fn lemma_intersection_words(
    rg: Seq<Seq<Seq<SymbolIndex>>>,
    g: Seq<Seq<Seq<SymbolIndex>>>,
    dfa: DFA,
    nt: nat,
    start: usize,
    acc: Seq<usize>,
    u: Seq<usize>,
)
    requires
        dfa.wf(),
        grammar_ok(g, nt),
        binary_form(g),
        intersection_rows(rg, g, dfa),
        dfa.n() * dfa.n() * g.len() < usize::MAX,
        start < g.len(),
        acc.to_set() == dfa.accept_states@,
        rg[(dfa.n() * dfa.n() * g.len()) as int] == inter_start_bodies(
            dfa.n(),
            g.len(),
            dfa,
            start,
            acc,
            is_nullable(g, SymbolIndex::VariableIndex(start)) && dfa.accept_states@.contains(dfa.start_state),
        ),
    ensures
        generates(rg, SymbolIndex::VariableIndex((dfa.n() * dfa.n() * g.len()) as usize), u)
            <==> generates(g, SymbolIndex::VariableIndex(start), u) && dfa.accepts_indices(u),
{
    let n = dfa.n();
    let big = (n * n * g.len()) as int;
    let s0 = dfa.start_state;
    let eps = is_nullable(g, SymbolIndex::VariableIndex(start)) && dfa.accept_states@.contains(s0);
    let row = rg[big];
    let top = acc.map_values(|f: usize| seq![SymbolIndex::VariableIndex(tri(n, s0 as int, start as int, f as int) as usize)]);
    assert(row == top + if eps { seq![Seq::<SymbolIndex>::empty()] } else { Seq::<Seq<SymbolIndex>>::empty() });
    if generates(rg, SymbolIndex::VariableIndex(big as usize), u) {
        let h = choose|h: nat| #[trigger] derives(rg, h, SymbolIndex::VariableIndex(big as usize), u);
        assert(h > 0);
        let m = (h - 1) as nat;
        lemma_derivable_unfold(rg, m);
        let prev = derivable(rg, m);
        assert(derive_step(rg, prev)(SymbolIndex::VariableIndex(big as usize), u));
        let j = choose|j: int| 0 <= j < rg[big].len() && #[trigger] body_derives(prev, rg[big][j], u);
        let body = rg[big][j];
        let cuts = choose|cuts: Seq<int>| #[trigger] split_ok(prev, body, u, cuts);
        if j < acc.len() {
            let f = acc[j];
            assert(acc.to_set().contains(f));
            assert(body == seq![SymbolIndex::VariableIndex(tri(n, s0 as int, start as int, f as int) as usize)]);
            assert(u.subrange(cuts[0], cuts[1]) =~= u);
            assert(prev(body[0], u));
            lemma_intersection_sound(rg, g, dfa, nt, m, s0, start, f, u);
            assert(generates(g, SymbolIndex::VariableIndex(start), u));
        } else {
            assert(eps);
            assert(body == Seq::<SymbolIndex>::empty());
            assert(u =~= Seq::<usize>::empty());
            assert(dfa.run(s0, u) == Some(s0));
        }
    }
    if generates(g, SymbolIndex::VariableIndex(start), u) && dfa.accepts_indices(u) {
        let h = choose|h: nat| #[trigger] derives(g, h, SymbolIndex::VariableIndex(start), u);
        let f = dfa.run(s0, u)->0;
        assert(acc.to_set().contains(f));
        let i = choose|i: int| 0 <= i < acc.len() && acc[i] == f;
        lemma_intersection_complete(rg, g, dfa, nt, h, s0, start, u);
        assert(row[i] == seq![SymbolIndex::VariableIndex(tri(n, s0 as int, start as int, f as int) as usize)]);
        let ws = seq![u];
        lemma_flatten_one(ws);
        assert(generates(rg, rg[big][i][0], ws[0]));
        lemma_head_from_words(rg, big, i, ws);
    }
}

/// The grammar with one variable and no body derives nothing.
pub proof fn lemma_empty_grammar_derives_nothing(h: nat, u: Seq<usize>)
    ensures
        !derives(seq![Seq::<Seq<SymbolIndex>>::empty()], h, SymbolIndex::VariableIndex(0), u),
{
    let g = seq![Seq::<Seq<SymbolIndex>>::empty()];
    if h > 0 {
        lemma_derivable_unfold(g, (h - 1) as nat);
        assert(g[0].len() == 0);
    }
}

/// Monotone cut points from 0 to `total` put every position below `total`
/// between two consecutive cut points.
pub proof fn lemma_cut_containing(cuts: Seq<int>, len: int, total: int, i: int) -> (k: int)
    requires
        len >= 0,
        cuts.len() == len + 1,
        cuts[0] == 0,
        cuts[len] == total,
        forall|x: int| 0 <= x < len ==> #[trigger] cuts[x] <= cuts[x + 1],
        0 <= i < total,
    ensures
        0 <= k < len,
        cuts[k] <= i < cuts[k + 1],
    decreases len,
{
    if len == 0 {
        assert(false);
        0
    } else if cuts[len - 1] <= i {
        len - 1
    } else {
        let c2 = cuts.take(len);
        assert forall|x: int| 0 <= x < len - 1 implies #[trigger] c2[x] <= c2[x + 1] by {
            assert(cuts[x] <= cuts[x + 1]);
        }
        lemma_cut_containing(c2, len - 1, cuts[len - 1], i)
    }
}

/// The words that a symbol in range derives are made of terminals in range.
pub proof fn lemma_derived_in_range(g: Seq<Seq<Seq<SymbolIndex>>>, nt: nat, h: nat, s: SymbolIndex, w: Seq<usize>)
    requires
        grammar_ok(g, nt),
        symbol_in(g, nt, s),
        derives(g, h, s, w),
    ensures
        forall|i: int| 0 <= i < w.len() ==> #[trigger] w[i] < nt,
    decreases h, 1int,
{
    if h > 0 {
        let m = (h - 1) as nat;
        lemma_derivable_unfold(g, m);
        let prev = derivable(g, m);
        match s {
            SymbolIndex::TerminalIndex(t) => {
                assert(w == seq![t]);
            },
            SymbolIndex::VariableIndex(v) => {
                let j = choose|j: int| 0 <= j < g[v as int].len() && #[trigger] body_derives(prev, g[v as int][j], w);
                let body = g[v as int][j];
                let cuts = choose|cuts: Seq<int>| #[trigger] split_ok(prev, body, w, cuts);
                assert forall|i: int| 0 <= i < w.len() implies #[trigger] w[i] < nt by {
                    lemma_position_in_range(g, nt, m, v, j, w, cuts, i);
                }
            },
        }
    } else {
        assert(!derives(g, h, s, w));
    }
}

/// A position of a word that a body derives lies in the part of one of its
/// symbols, and so holds a terminal in range.
proof fn lemma_position_in_range(g: Seq<Seq<Seq<SymbolIndex>>>, nt: nat, m: nat, v: usize, j: int, w: Seq<usize>, cuts: Seq<int>, i: int)
    requires
        grammar_ok(g, nt),
        v < g.len(),
        0 <= j < g[v as int].len(),
        split_ok(derivable(g, m), g[v as int][j], w, cuts),
        0 <= i < w.len(),
    ensures
        w[i] < nt,
    decreases m, 2int,
{
    let body = g[v as int][j];
    let prev = derivable(g, m);
    let k = lemma_cut_containing(cuts, body.len() as int, w.len() as int, i);
    lemma_cuts_bounded(cuts, body.len() as int, w.len() as int, k);
    lemma_cuts_bounded(cuts, body.len() as int, w.len() as int, k + 1);
    let part = w.subrange(cuts[k], cuts[k + 1]);
    assert(prev(body[k], part));
    assert(symbol_in(g, nt, g[v as int][j][k]));
    lemma_derived_in_range(g, nt, m, body[k], part);
    assert(part[i - cuts[k]] == w[i]);
}

/// Whether no two terminals have the same name.
pub open spec fn distinct_names(terminals: Seq<InputSymbol>) -> bool {
    forall|i: int, j: int| 0 <= i < terminals.len() && 0 <= j < terminals.len() && i != j ==> (#[trigger] terminals[i])@ != (#[trigger] terminals[j])@
}

/// A run that does not get stuck moves on each of its symbols by a transition.
pub proof fn lemma_run_uses(dfa: DFA, q: usize, u: Seq<usize>, i: int)
    requires
        dfa.run(q, u) is Some,
        0 <= i < u.len(),
    ensures
        exists|p: usize| p < dfa.transitions@.len() && #[trigger] dfa.transitions@[p as int]@.contains_key(u[i]),
{
    let pre = u.take(i + 1);
    if dfa.run(q, pre) is None {
        dfa.lemma_run_prefix_stuck(q, u, i + 1);
    }
    assert(pre.drop_last() =~= u.take(i));
    assert(pre.last() == u[i]);
    let p = dfa.run(q, u.take(i))->0;
    assert(dfa.step(p, u[i]) is Some);
    assert(dfa.transitions@[p as int]@.contains_key(u[i]));
}

/// Over an automaton whose alphabet has the names of the terminals in order,
/// with no name twice, and whose transitions use symbols that their names
/// map to, a word of terminals in range is accepted exactly where its word
/// of names is.
pub proof fn lemma_names_accepted(terminals: Seq<InputSymbol>, dfa: DFA, u: Seq<usize>)
    requires
        dfa.wf(),
        dfa.symbols_mapped(),
        same_names(dfa.alphabet@, terminals),
        distinct_names(terminals),
        forall|i: int| 0 <= i < u.len() ==> #[trigger] u[i] < terminals.len(),
    ensures
        dfa.accepts_indices(u) <==> dfa.accepts_word(terminal_names(terminals, u)),
{
    let w = terminal_names(terminals, u);
    if dfa.accepts_indices(u) {
        assert forall|i: int| 0 <= i < u.len() implies dfa.alphabet_index_map@.contains_key(#[trigger] w[i])
            && dfa.alphabet_index_map@[w[i]] == u[i] by {
            lemma_run_uses(dfa, dfa.start_state, u, i);
            let p = choose|p: usize| p < dfa.transitions@.len() && #[trigger] dfa.transitions@[p as int]@.contains_key(u[i]);
            assert(dfa.alphabet@[u[i] as int]@ == terminals[u[i] as int]@);
        }
        assert(dfa.symbol_indices(w) =~= u);
    }
    if dfa.accepts_word(w) {
        let v = dfa.symbol_indices(w);
        assert forall|i: int| 0 <= i < u.len() implies #[trigger] v[i] == u[i] by {
            assert(dfa.alphabet_index_map@.contains_key(w[i]));
            assert(dfa.alphabet@[u[i] as int]@ == terminals[u[i] as int]@);
            assert(dfa.alphabet@[v[i] as int]@ == w[i]);
        }
        assert(v =~= u);
    }
}

} // verus!
