//! Left-factoring keeps the words of every variable: a body that starts like
//! another is replaced by its first symbol followed by a new variable whose
//! bodies are the rests, and those derive what the rests derived.
use crate::cfg::cfg::{body_derives, derivable, derives, generates, grammar_ok, split_ok, symbol_in, SymbolIndex, CFG};
use crate::cfg::generating::{lemma_derivable_unfold, lemma_terminal_generating};
use crate::cfg::intersection::lemma_head_from_words;
use crate::cfg::simplify::{covered, factored_body, head_then};
use crate::cfg::terminal_words::{cut_words, lemma_split_words};
use vstd::prelude::*;

verus! {

/// Whether `g2` is `g` left-factored: every body of an old variable is one
/// of its bodies or a symbol followed by a new variable whose bodies follow
/// that symbol in old bodies, and every old body is kept or so replaced.
pub open spec fn factoring(g: Seq<Seq<Seq<SymbolIndex>>>, g2: Seq<Seq<Seq<SymbolIndex>>>) -> bool {
    &&& g.len() <= g2.len() <= usize::MAX
    &&& forall|v: int, j: int| 0 <= v < g.len() && 0 <= j < g2[v].len() ==> factored_body(g[v], g.len(), g2, #[trigger] g2[v][j])
    &&& forall|v: int, i: int| 0 <= v < g.len() && 0 <= i < g[v].len() ==> #[trigger] covered(g2[v], g2, g.len(), g[v][i])
}

/// The words of a list of two words put together.
proof fn lemma_flatten_two(a: Seq<usize>, b: Seq<usize>)
    ensures
        seq![a, b].flatten() == a + b,
{
    let p = seq![a, b];
    assert(p.drop_first() =~= seq![b]);
    assert(seq![b].drop_first() =~= Seq::<Seq<usize>>::empty());
    assert(Seq::<Seq<usize>>::empty().flatten() =~= Seq::<usize>::empty());
    assert(seq![b].flatten() == b + Seq::<Seq<usize>>::empty().flatten());
    assert(seq![b].flatten() =~= b);
}

/// What an old symbol derives in the left-factored grammar it derives in
/// the grammar before.
pub proof fn lemma_factor_forward(
    g: Seq<Seq<Seq<SymbolIndex>>>,
    g2: Seq<Seq<Seq<SymbolIndex>>>,
    nt: nat,
    h: nat,
    s: SymbolIndex,
    u: Seq<usize>,
)
    requires
        grammar_ok(g, nt),
        factoring(g, g2),
        symbol_in(g, nt, s),
        derives(g2, h, s, u),
    ensures
        generates(g, s, u),
    decreases h,
{
    let m = (h - 1) as nat;
    lemma_derivable_unfold(g2, m);
    let prev = derivable(g2, m);
    match s {
        SymbolIndex::TerminalIndex(t) => {
            assert(u == seq![t]);
            lemma_terminal_generating(g, t);
        },
        SymbolIndex::VariableIndex(v) => {
            let j = choose|j: int| 0 <= j < g2[v as int].len() && #[trigger] body_derives(prev, g2[v as int][j], u);
            let c = g2[v as int][j];
            let cuts = choose|cuts: Seq<int>| #[trigger] split_ok(prev, c, u, cuts);
            lemma_split_words(prev, c, u, cuts);
            let ws = cut_words(u, cuts, c.len());
            assert(factored_body(g[v as int], g.len(), g2, c));
            if g[v as int].contains(c) {
                let jj = choose|jj: int| 0 <= jj < g[v as int].len() && g[v as int][jj] == c;
                assert forall|k: int| 0 <= k < ws.len() implies generates(g, #[trigger] g[v as int][jj][k], ws[k]) by {
                    assert(symbol_in(g, nt, g[v as int][jj][k]));
                    assert(prev(c[k], ws[k]));
                    lemma_factor_forward(g, g2, nt, m, c[k], ws[k]);
                }
                lemma_head_from_words(g, v as int, jj, ws);
            } else {
                let x = c[1]->VariableIndex_0;
                assert(prev(c[1], ws[1]));
                let m2 = (m - 1) as nat;
                lemma_derivable_unfold(g2, m2);
                let prev2 = derivable(g2, m2);
                let j2 = choose|j2: int| 0 <= j2 < g2[x as int].len() && #[trigger] body_derives(prev2, g2[x as int][j2], ws[1]);
                let rest = g2[x as int][j2];
                assert(g[v as int].contains(seq![c[0]] + rest));
                let jj = choose|jj: int| 0 <= jj < g[v as int].len() && g[v as int][jj] == seq![c[0]] + rest;
                let cuts2 = choose|cuts2: Seq<int>| #[trigger] split_ok(prev2, rest, ws[1], cuts2);
                lemma_split_words(prev2, rest, ws[1], cuts2);
                let ws2 = cut_words(ws[1], cuts2, rest.len());
                let all = seq![ws[0]] + ws2;
                assert forall|k: int| 0 <= k < all.len() implies generates(g, #[trigger] g[v as int][jj][k], all[k]) by {
                    assert(symbol_in(g, nt, g[v as int][jj][k]));
                    if k == 0 {
                        assert(g[v as int][jj][0] == c[0]);
                        assert(prev(c[0], ws[0]));
                        lemma_factor_forward(g, g2, nt, m, c[0], ws[0]);
                    } else {
                        assert(g[v as int][jj][k] == rest[k - 1]);
                        assert(all[k] == ws2[k - 1]);
                        assert(prev2(rest[k - 1], ws2[k - 1]));
                        lemma_factor_forward(g, g2, nt, m2, rest[k - 1], ws2[k - 1]);
                    }
                }
                lemma_head_from_words(g, v as int, jj, all);
                assert(all.drop_first() =~= ws2);
                assert(all.flatten() == ws[0] + ws2.flatten());
                assert(ws =~= seq![ws[0], ws[1]]);
                lemma_flatten_two(ws[0], ws[1]);
            }
        },
    }
}

/// What a symbol derives in the grammar before left-factoring it derives in
/// the left-factored grammar.
pub proof fn lemma_factor_back(
    g: Seq<Seq<Seq<SymbolIndex>>>,
    g2: Seq<Seq<Seq<SymbolIndex>>>,
    nt: nat,
    h: nat,
    s: SymbolIndex,
    u: Seq<usize>,
)
    requires
        grammar_ok(g, nt),
        factoring(g, g2),
        symbol_in(g, nt, s),
        derives(g, h, s, u),
    ensures
        generates(g2, s, u),
    decreases h,
{
    let m = (h - 1) as nat;
    lemma_derivable_unfold(g, m);
    let prev = derivable(g, m);
    match s {
        SymbolIndex::TerminalIndex(t) => {
            assert(u == seq![t]);
            lemma_terminal_generating(g2, t);
        },
        SymbolIndex::VariableIndex(v) => {
            let j = choose|j: int| 0 <= j < g[v as int].len() && #[trigger] body_derives(prev, g[v as int][j], u);
            let b = g[v as int][j];
            let cuts = choose|cuts: Seq<int>| #[trigger] split_ok(prev, b, u, cuts);
            lemma_split_words(prev, b, u, cuts);
            let ws = cut_words(u, cuts, b.len());
            assert forall|k: int| 0 <= k < b.len() implies generates(g2, #[trigger] b[k], ws[k]) by {
                assert(symbol_in(g, nt, g[v as int][j][k]));
                assert(prev(b[k], ws[k]));
                lemma_factor_back(g, g2, nt, m, b[k], ws[k]);
            }
            assert(covered(g2[v as int], g2, g.len(), g[v as int][j]));
            if g2[v as int].contains(b) {
                let jj = choose|jj: int| 0 <= jj < g2[v as int].len() && g2[v as int][jj] == b;
                assert forall|k: int| 0 <= k < ws.len() implies generates(g2, #[trigger] g2[v as int][jj][k], ws[k]) by {
                    assert(generates(g2, b[k], ws[k]));
                }
                lemma_head_from_words(g2, v as int, jj, ws);
            } else {
                let x = choose|x: int| g.len() <= x < g2.len() && #[trigger] g2[v as int].contains(head_then(b[0], x))
                    && g2[x].contains(b.subrange(1, b.len() as int));
                let jj = choose|jj: int| 0 <= jj < g2[v as int].len() && g2[v as int][jj] == head_then(b[0], x);
                let j3 = choose|j3: int| 0 <= j3 < g2[x].len() && g2[x][j3] == b.subrange(1, b.len() as int);
                let rws = ws.drop_first();
                assert forall|k: int| 0 <= k < rws.len() implies generates(g2, #[trigger] g2[x][j3][k], rws[k]) by {
                    assert(g2[x][j3][k] == b[k + 1]);
                    assert(generates(g2, b[k + 1], ws[k + 1]));
                }
                lemma_head_from_words(g2, x, j3, rws);
                let pair = seq![ws[0], rws.flatten()];
                assert forall|k: int| 0 <= k < pair.len() implies generates(g2, #[trigger] g2[v as int][jj][k], pair[k]) by {
                    if k == 0 {
                        assert(generates(g2, b[0], ws[0]));
                    }
                }
                lemma_head_from_words(g2, v as int, jj, pair);
                lemma_flatten_two(ws[0], rws.flatten());
                assert(ws.flatten() == ws[0] + rws.flatten());
            }
        },
    }
}

/// A left-factored grammar with the same start variable and terminals
/// generates the same words.
pub proof fn lemma_factoring_language(a: CFG, b: CFG)
    requires
        a.wf(),
        factoring(a.g(), b.g()),
        b.terminals@ == a.terminals@,
        b.start_symbol == a.start_symbol,
    ensures
        forall|w: Seq<Seq<char>>| #[trigger] b.generates_word(w) == a.generates_word(w),
{
    let st = SymbolIndex::VariableIndex(a.start_symbol);
    assert(symbol_in(a.g(), a.nt(), st));
    assert forall|w: Seq<Seq<char>>| #[trigger] b.generates_word(w) == a.generates_word(w) by {
        if b.generates_word(w) {
            let u = choose|u: Seq<usize>| #[trigger] generates(b.g(), st, u) && crate::cfg::cfg::terminal_names(b.terminals@, u) == w;
            let h = choose|h: nat| #[trigger] derives(b.g(), h, st, u);
            lemma_factor_forward(a.g(), b.g(), a.nt(), h, st, u);
        }
        if a.generates_word(w) {
            let u = choose|u: Seq<usize>| #[trigger] generates(a.g(), st, u) && crate::cfg::cfg::terminal_names(a.terminals@, u) == w;
            let h = choose|h: nat| #[trigger] derives(a.g(), h, st, u);
            lemma_factor_back(a.g(), b.g(), a.nt(), h, st, u);
        }
    }
}

} // verus!
