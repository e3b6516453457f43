//! The words of a grammar restricted to a set of its symbols: where the set
//! holds the start variable and every symbol that derives a word and stands
//! in a body of a variable of the set, the language is kept.
use crate::cfg::cfg::{
    body_derives, derivable, derive_step, derives, generates, grammar_ok, split_ok, symbol_in, terminal_names, SymbolIndex, CFG,
};
use crate::cfg::cfg::is_generating;
use crate::cfg::generating::{lemma_cuts_bounded, lemma_derivable_unfold, lemma_terminal_generating};
use crate::cfg::intersection::lemma_head_from_words;
use crate::cfg::intersection_words::lemma_cut_containing;
use crate::cfg::terminal_words::{cut_words, lemma_split_words};
use crate::cfg::transform::{
    is_reduction, keeps_terminal, keeps_variable, kept_bodies, lemma_kept_body, lemma_rank_bounds, lemma_rank_preimage, rank, renumbered,
};
use crate::cfg::intersection_words::distinct_names;
use vstd::prelude::*;

verus! {

/// A word of terminal numbers renumbered after dropping the terminals outside `set`.
pub open spec fn renumbered_word(set: Set<SymbolIndex>, u: Seq<usize>) -> Seq<usize> {
    u.map_values(|t: usize| rank(keeps_terminal(set), t as int) as usize)
}

/// Whether every variable of the set derives, in `g`, only through bodies
/// whose symbols that derive a word the set holds.
pub open spec fn keeps_used(g: Seq<Seq<Seq<SymbolIndex>>>, set: Set<SymbolIndex>) -> bool {
    forall|v: int, j: int, k: int|
        0 <= v < g.len() && 0 <= j < g[v].len() && 0 <= k < g[v][j].len() && set.contains(SymbolIndex::VariableIndex(v as usize))
            && is_generating(g, g[v][j][k]) ==> set.contains(#[trigger] g[v][j][k])
}

/// A body whose symbols the set all holds is kept, renumbered.
pub proof fn lemma_body_kept(set: Set<SymbolIndex>, bs: Seq<Seq<SymbolIndex>>, j: int)
    requires
        0 <= j < bs.len(),
        forall|x: int| 0 <= x < bs[j].len() ==> set.contains(#[trigger] bs[j][x]),
    ensures
        exists|jj: int| 0 <= jj < kept_bodies(set, bs).len()
            && #[trigger] kept_bodies(set, bs)[jj] == bs[j].map_values(|s: SymbolIndex| renumbered(set, s)),
    decreases bs.len(),
{
    let rest = kept_bodies(set, bs.drop_last());
    if j < bs.len() - 1 {
        assert(bs.drop_last()[j] == bs[j]);
        lemma_body_kept(set, bs.drop_last(), j);
        let jj = choose|jj: int| 0 <= jj < rest.len() && #[trigger] rest[jj] == bs.drop_last()[j].map_values(|s: SymbolIndex| renumbered(set, s));
        assert(kept_bodies(set, bs)[jj] == rest[jj]);
    } else {
        assert(bs[j] == bs.last());
        assert(kept_bodies(set, bs)[rest.len() as int] == bs[j].map_values(|s: SymbolIndex| renumbered(set, s)));
    }
}

/// Renumbering the words of a list and putting them together is putting them
/// together and renumbering.
pub proof fn lemma_renumbered_flatten(set: Set<SymbolIndex>, ws: Seq<Seq<usize>>)
    ensures
        ws.map_values(|w: Seq<usize>| renumbered_word(set, w)).flatten() == renumbered_word(set, ws.flatten()),
    decreases ws.len(),
{
    let f = |w: Seq<usize>| renumbered_word(set, w);
    if ws.len() == 0 {
        assert(ws.map_values(f) =~= Seq::<Seq<usize>>::empty());
        assert(renumbered_word(set, ws.flatten()) =~= Seq::<usize>::empty());
    } else {
        lemma_renumbered_flatten(set, ws.drop_first());
        assert(ws.map_values(f).drop_first() =~= ws.drop_first().map_values(f));
        assert(ws.map_values(f).first() == renumbered_word(set, ws.first()));
        assert(ws.flatten() == ws.first() + ws.drop_first().flatten());
        assert(renumbered_word(set, ws.first() + ws.drop_first().flatten()) =~= renumbered_word(set, ws.first()) + renumbered_word(set, ws.drop_first().flatten()));
    }
}

/// Whether the set holds every terminal of the word.
pub open spec fn terminals_kept(set: Set<SymbolIndex>, u: Seq<usize>) -> bool {
    forall|i: int| 0 <= i < u.len() ==> set.contains(SymbolIndex::TerminalIndex(#[trigger] u[i]))
}

/// What a symbol of the set derives in `a`, its renumbered symbol derives in
/// the restricted grammar, renumbered; and its terminals are in the set.
#[verifier::rlimit(60)]
#[verifier::spinoff_prover]
pub proof fn lemma_reduce_back(a: CFG, set: Set<SymbolIndex>, b: CFG, h: nat, s: SymbolIndex, u: Seq<usize>)
    requires
        a.wf(),
        is_reduction(a, set, b),
        keeps_used(a.g(), set),
        set.contains(s),
        symbol_in(a.g(), a.nt(), s),
        derives(a.g(), h, s, u),
    ensures
        generates(b.g(), renumbered(set, s), renumbered_word(set, u)),
        terminals_kept(set, u),
    decreases h,
{
    let g = a.g();
    let m = (h - 1) as nat;
    lemma_derivable_unfold(g, m);
    let prev = derivable(g, m);
    match s {
        SymbolIndex::TerminalIndex(t) => {
            assert(u == seq![t]);
            assert(renumbered_word(set, u) =~= seq![rank(keeps_terminal(set), t as int) as usize]);
            lemma_terminal_generating(b.g(), rank(keeps_terminal(set), t as int) as usize);
        },
        SymbolIndex::VariableIndex(v) => {
            let j = choose|j: int| 0 <= j < g[v as int].len() && #[trigger] body_derives(prev, g[v as int][j], u);
            let bd = g[v as int][j];
            let cuts = choose|cuts: Seq<int>| #[trigger] split_ok(prev, bd, u, cuts);
            lemma_split_words(prev, bd, u, cuts);
            let ws = cut_words(u, cuts, bd.len());
            assert forall|k: int| 0 <= k < bd.len() implies set.contains(#[trigger] bd[k])
                && generates(b.g(), renumbered(set, bd[k]), renumbered_word(set, ws[k])) && terminals_kept(set, ws[k]) by {
                assert(symbol_in(g, a.nt(), g[v as int][j][k]));
                assert(prev(bd[k], ws[k]));
                assert(derives(g, m, bd[k], ws[k]));
                assert(generates(g, bd[k], ws[k]));
                assert(is_generating(g, g[v as int][j][k]));
                lemma_reduce_back(a, set, b, m, bd[k], ws[k]);
            }
            let kv = keeps_variable(set);
            assert(kv(v as int));
            assert(b.g()[rank(kv, v as int) as int] == kept_bodies(set, g[v as int]));
            lemma_body_kept(set, g[v as int], j);
            let jj = choose|jj: int| 0 <= jj < kept_bodies(set, g[v as int]).len()
                && #[trigger] kept_bodies(set, g[v as int])[jj] == g[v as int][j].map_values(|s2: SymbolIndex| renumbered(set, s2));
            let r = rank(kv, v as int);
            lemma_rank_bounds(kv, v as int, a.productions@.len() as int);
            lemma_rank_bounds(kv, v as int, v as int);
            let rws = ws.map_values(|w: Seq<usize>| renumbered_word(set, w));
            assert forall|k: int| 0 <= k < rws.len() implies generates(b.g(), #[trigger] b.g()[r as int][jj][k], rws[k]) by {
                assert(b.g()[r as int][jj][k] == renumbered(set, bd[k]));
            }
            lemma_head_from_words(b.g(), r as int, jj, rws);
            lemma_renumbered_flatten(set, ws);
            assert(renumbered(set, s) == SymbolIndex::VariableIndex(r as usize));
            assert forall|i: int| 0 <= i < u.len() implies set.contains(SymbolIndex::TerminalIndex(#[trigger] u[i])) by {
                let k = lemma_cut_containing(cuts, bd.len() as int, u.len() as int, i);
                lemma_cuts_bounded(cuts, bd.len() as int, u.len() as int, k);
                lemma_cuts_bounded(cuts, bd.len() as int, u.len() as int, k + 1);
                assert(set.contains(bd[k]));
                assert(terminals_kept(set, ws[k]));
                assert(ws[k][i - cuts[k]] == u[i]);
            }
        },
    }
}

/// Words whose terminals the set holds make up a word whose terminals it holds.
proof fn lemma_kept_flatten(set: Set<SymbolIndex>, us: Seq<Seq<usize>>)
    requires
        forall|k: int| 0 <= k < us.len() ==> #[trigger] terminals_kept(set, us[k]),
    ensures
        terminals_kept(set, us.flatten()),
    decreases us.len(),
{
    if us.len() > 0 {
        let rest = us.drop_first();
        assert forall|k: int| 0 <= k < rest.len() implies #[trigger] terminals_kept(set, rest[k]) by {
            assert(terminals_kept(set, us[k + 1]));
        }
        lemma_kept_flatten(set, rest);
        assert(us.flatten() == us.first() + rest.flatten());
        assert(terminals_kept(set, us[0]));
        assert forall|i: int| 0 <= i < us.flatten().len() implies set.contains(SymbolIndex::TerminalIndex(#[trigger] us.flatten()[i])) by {
            if i < us.first().len() {
                assert(us.flatten()[i] == us[0][i]);
            } else {
                assert(us.flatten()[i] == rest.flatten()[i - us.first().len()]);
            }
        }
    } else {
        assert(us.flatten() =~= Seq::<usize>::empty());
    }
}

/// Whether `u` is a word of `s` in `g` that the set keeps and that is `w`
/// once renumbered.
pub open spec fn word_back(g: Seq<Seq<Seq<SymbolIndex>>>, set: Set<SymbolIndex>, s: SymbolIndex, w: Seq<usize>, u: Seq<usize>) -> bool {
    generates(g, s, u) && renumbered_word(set, u) == w && terminals_kept(set, u)
}

/// What the renumbered symbol of a symbol of the set derives in the
/// restricted grammar is, renumbered, what the symbol derives in `a`.
#[verifier::rlimit(60)]
#[verifier::spinoff_prover]
pub proof fn lemma_reduce_forward(a: CFG, set: Set<SymbolIndex>, b: CFG, h: nat, s: SymbolIndex, w: Seq<usize>)
    requires
        a.wf(),
        is_reduction(a, set, b),
        set.contains(s),
        symbol_in(a.g(), a.nt(), s),
        derives(b.g(), h, renumbered(set, s), w),
    ensures
        exists|u: Seq<usize>| #[trigger] word_back(a.g(), set, s, w, u),
    decreases h,
{
    let g = a.g();
    let bg = b.g();
    let m = (h - 1) as nat;
    lemma_derivable_unfold(bg, m);
    let prev = derivable(bg, m);
    match s {
        SymbolIndex::TerminalIndex(t) => {
            lemma_rank_bounds(keeps_terminal(set), t as int, t as int);
            let rt = rank(keeps_terminal(set), t as int) as usize;
            assert(w == seq![rt]);
            let u = seq![t];
            assert(renumbered_word(set, u) =~= w);
            lemma_terminal_generating(g, t);
            assert(terminals_kept(set, u));
            assert(word_back(g, set, s, w, u));
        },
        SymbolIndex::VariableIndex(v) => {
            let kv = keeps_variable(set);
            assert(kv(v as int));
            let r = rank(kv, v as int);
            lemma_rank_bounds(kv, v as int, a.productions@.len() as int);
            lemma_rank_bounds(kv, v as int, v as int);
            assert(renumbered(set, s) == SymbolIndex::VariableIndex(r as usize));
            assert(bg[r as int] == kept_bodies(set, g[v as int]));
            assert(derive_step(bg, prev)(SymbolIndex::VariableIndex(r as usize), w));
            let j = choose|j: int| 0 <= j < bg[r as int].len() && #[trigger] body_derives(prev, bg[r as int][j], w);
            let c = bg[r as int][j];
            lemma_kept_body(set, g[v as int], j);
            let jj = choose|jj: int| 0 <= jj < g[v as int].len() && (forall|x: int| 0 <= x < g[v as int][jj].len() ==> set.contains(#[trigger] g[v as int][jj][x]))
                && kept_bodies(set, g[v as int])[j] == g[v as int][jj].map_values(|s2: SymbolIndex| renumbered(set, s2));
            let bd = g[v as int][jj];
            let cuts = choose|cuts: Seq<int>| #[trigger] split_ok(prev, c, w, cuts);
            lemma_split_words(prev, c, w, cuts);
            let ws = cut_words(w, cuts, c.len());
            assert forall|k: int| #![trigger ws[k]] 0 <= k < bd.len() implies exists|u: Seq<usize>| #[trigger] word_back(g, set, bd[k], ws[k], u) by {
                assert(set.contains(g[v as int][jj][k]));
                assert(symbol_in(g, a.nt(), g[v as int][jj][k]));
                assert(c[k] == renumbered(set, bd[k]));
                assert(prev(c[k], ws[k]));
                lemma_reduce_forward(a, set, b, m, bd[k], ws[k]);
            }
            let us = Seq::new(bd.len(), |k: int| choose|u: Seq<usize>| #[trigger] word_back(g, set, bd[k], ws[k], u));
            assert forall|k: int| 0 <= k < us.len() implies generates(g, #[trigger] g[v as int][jj][k], us[k]) && terminals_kept(set, us[k])
                && renumbered_word(set, us[k]) == ws[k] by {
                assert(0 <= k < bd.len());
                assert(ws[k] == cut_words(w, cuts, c.len())[k]);
                assert(exists|u: Seq<usize>| #[trigger] word_back(g, set, bd[k], ws[k], u));
                assert(word_back(g, set, bd[k], ws[k], us[k]));
            }
            lemma_head_from_words(g, v as int, jj, us);
            lemma_renumbered_flatten(set, us);
            assert(us.map_values(|x: Seq<usize>| renumbered_word(set, x)) =~= ws);
            assert forall|k: int| 0 <= k < us.len() implies #[trigger] terminals_kept(set, us[k]) by {
                assert(generates(g, g[v as int][jj][k], us[k]));
            }
            lemma_kept_flatten(set, us);
            assert(word_back(g, set, s, w, us.flatten()));
        },
    }
}

/// A restriction to a set that holds the start variable and every symbol
/// that derives a word in a body of a variable of the set keeps the language.
pub proof fn lemma_reduction_language(a: CFG, set: Set<SymbolIndex>, b: CFG)
    requires
        a.wf(),
        is_reduction(a, set, b),
        keeps_used(a.g(), set),
        set.contains(SymbolIndex::VariableIndex(a.start_symbol)),
    ensures
        forall|w: Seq<Seq<char>>| #[trigger] b.generates_word(w) == a.generates_word(w),
{
    let st = SymbolIndex::VariableIndex(a.start_symbol);
    let kv = keeps_variable(set);
    let kt = keeps_terminal(set);
    assert(symbol_in(a.g(), a.nt(), st));
    assert(renumbered(set, st) == SymbolIndex::VariableIndex(b.start_symbol));
    assert forall|u: Seq<usize>| terminals_kept(set, u) && (forall|i: int| 0 <= i < u.len() ==> #[trigger] u[i] < a.nt())
        implies #[trigger] terminal_names(b.terminals@, renumbered_word(set, u)) == terminal_names(a.terminals@, u) by {
        assert forall|i: int| 0 <= i < u.len() implies #[trigger] terminal_names(b.terminals@, renumbered_word(set, u))[i] == terminal_names(a.terminals@, u)[i] by {
            assert(set.contains(SymbolIndex::TerminalIndex(u[i])));
            assert(kt(u[i] as int));
            lemma_rank_bounds(kt, u[i] as int, u[i] as int);
            assert(renumbered_word(set, u)[i] == rank(kt, u[i] as int) as usize);
            assert(b.terminals@[rank(kt, u[i] as int) as int] == a.terminals@[u[i] as int]);
        }
    }
    assert forall|w: Seq<Seq<char>>| #[trigger] b.generates_word(w) == a.generates_word(w) by {
        if b.generates_word(w) {
            let ub = choose|ub: Seq<usize>| #[trigger] generates(b.g(), SymbolIndex::VariableIndex(b.start_symbol), ub)
                && terminal_names(b.terminals@, ub) == w;
            let h = choose|h: nat| #[trigger] derives(b.g(), h, SymbolIndex::VariableIndex(b.start_symbol), ub);
            lemma_reduce_forward(a, set, b, h, st, ub);
            let u = choose|u: Seq<usize>| #[trigger] word_back(a.g(), set, st, ub, u);
            let h2 = choose|h2: nat| #[trigger] derives(a.g(), h2, st, u);
            crate::cfg::intersection_words::lemma_derived_in_range(a.g(), a.nt(), h2, st, u);
            assert(terminal_names(b.terminals@, renumbered_word(set, u)) == terminal_names(a.terminals@, u));
        }
        if a.generates_word(w) {
            let u = choose|u: Seq<usize>| #[trigger] generates(a.g(), st, u) && terminal_names(a.terminals@, u) == w;
            let h = choose|h: nat| #[trigger] derives(a.g(), h, st, u);
            lemma_reduce_back(a, set, b, h, st, u);
            crate::cfg::intersection_words::lemma_derived_in_range(a.g(), a.nt(), h, st, u);
            assert(terminal_names(b.terminals@, renumbered_word(set, u)) == terminal_names(a.terminals@, u));
            assert(generates(b.g(), SymbolIndex::VariableIndex(b.start_symbol), renumbered_word(set, u)));
        }
    }
}

/// A restriction keeps the names of its terminals distinct.
pub proof fn lemma_reduction_distinct(a: CFG, set: Set<SymbolIndex>, b: CFG)
    requires
        is_reduction(a, set, b),
        distinct_names(a.terminals@),
    ensures
        distinct_names(b.terminals@),
{
    let kt = keeps_terminal(set);
    let n = a.terminals@.len() as int;
    assert forall|i: int, j: int| 0 <= i < b.terminals@.len() && 0 <= j < b.terminals@.len() && i != j
        implies (#[trigger] b.terminals@[i])@ != (#[trigger] b.terminals@[j])@ by {
        lemma_rank_preimage(kt, n, i);
        lemma_rank_preimage(kt, n, j);
        let hi = choose|h: int| 0 <= h < n && kt(h) && rank(kt, h) == i;
        let hj = choose|h: int| 0 <= h < n && kt(h) && rank(kt, h) == j;
        assert(b.terminals@[rank(kt, hi) as int] == a.terminals@[hi]);
        assert(b.terminals@[rank(kt, hj) as int] == a.terminals@[hj]);
    }
}

} // verus!
