//! The words of a grammar whose long bodies are split into chains of bodies
//! of two symbols: every old symbol derives the words it derived before.
use crate::cfg::cfg::{
    body_derives, derivable, derive_step, derives, generates, grammar_ok, split_ok, symbol_in, terminal_names, SymbolIndex, CFG,
};
use crate::cfg::decompose::{body_decomposed, spells};
use crate::cfg::generating::{lemma_derivable_unfold, lemma_terminal_generating};
use crate::cfg::intersection::lemma_head_from_words;
use crate::cfg::intersection_words::lemma_flatten_two;
use crate::cfg::terminal_words::{cut_words, lemma_split_words};
use vstd::prelude::*;

verus! {

/// Whether `rg` keeps the first `g.len()` variables of `g` with each body
/// decomposed.
pub open spec fn decomposes(g: Seq<Seq<Seq<SymbolIndex>>>, rg: Seq<Seq<Seq<SymbolIndex>>>) -> bool {
    &&& rg.len() >= g.len()
    &&& forall|h: int| 0 <= h < g.len() ==> (#[trigger] rg[h]).len() == g[h].len()
    &&& forall|h: int, j: int| 0 <= h < g.len() && 0 <= j < g[h].len() ==> body_decomposed(rg, g.len(), #[trigger] g[h][j], rg[h][j])
}

/// Flattening a word in front of others puts it in front of their flattening.
pub proof fn lemma_flatten_cons(w: Seq<usize>, ws: Seq<Seq<usize>>)
    ensures
        (seq![w] + ws).flatten() == w + ws.flatten(),
{
    let all = seq![w] + ws;
    assert(all.first() == w);
    assert(all.drop_first() =~= ws);
}

/// A variable that spells out `s`, whose symbols derive the words `ws`,
/// derives their concatenation.
pub proof fn lemma_spelled_forward(rg: Seq<Seq<Seq<SymbolIndex>>>, nv: nat, x: usize, s: Seq<SymbolIndex>, ws: Seq<Seq<usize>>)
    requires
        spells(rg, nv, x as int, s),
        ws.len() == s.len(),
        forall|k: int| 0 <= k < s.len() ==> generates(rg, #[trigger] s[k], ws[k]),
    ensures
        generates(rg, SymbolIndex::VariableIndex(x), ws.flatten()),
    decreases s.len(),
{
    let body = rg[x as int][0];
    if s.len() == 2 {
        assert(body[0] == s[0] && body[1] == s[1]);
        assert(generates(rg, rg[x as int][0][0], ws[0]));
        assert(generates(rg, rg[x as int][0][1], ws[1]));
        lemma_head_from_words(rg, x as int, 0, ws);
    } else {
        let y = body[1]->VariableIndex_0;
        let rest = ws.drop_first();
        assert forall|k: int| 0 <= k < s.drop_first().len() implies generates(rg, #[trigger] s.drop_first()[k], rest[k]) by {
            assert(s.drop_first()[k] == s[k + 1]);
        }
        lemma_spelled_forward(rg, nv, y, s.drop_first(), rest);
        let two = seq![ws[0], rest.flatten()];
        assert(generates(rg, rg[x as int][0][0], two[0]));
        assert(generates(rg, rg[x as int][0][1], two[1]));
        lemma_head_from_words(rg, x as int, 0, two);
        lemma_flatten_two(ws[0], rest.flatten());
        assert(ws =~= seq![ws[0]] + rest);
        lemma_flatten_cons(ws[0], rest);
    }
}

/// What a symbol of `g` derives, it derives in the decomposed grammar.
#[verifier::rlimit(60)]
#[verifier::spinoff_prover]
pub proof fn lemma_decomposed_forward(g: Seq<Seq<Seq<SymbolIndex>>>, rg: Seq<Seq<Seq<SymbolIndex>>>, nt: nat, h: nat, s: SymbolIndex, w: Seq<usize>)
    requires
        grammar_ok(g, nt),
        decomposes(g, rg),
        symbol_in(g, nt, s),
        derives(g, h, s, w),
    ensures
        generates(rg, s, w),
    decreases h,
{
    let m = (h - 1) as nat;
    lemma_derivable_unfold(g, m);
    let prev = derivable(g, m);
    match s {
        SymbolIndex::TerminalIndex(t) => {
            assert(w == seq![t]);
            lemma_terminal_generating(rg, t);
        },
        SymbolIndex::VariableIndex(v) => {
            let j = choose|j: int| 0 <= j < g[v as int].len() && #[trigger] body_derives(prev, g[v as int][j], w);
            let b = g[v as int][j];
            let c = rg[v as int][j];
            let cuts = choose|cuts: Seq<int>| #[trigger] split_ok(prev, b, w, cuts);
            lemma_split_words(prev, b, w, cuts);
            let ws = cut_words(w, cuts, b.len());
            assert forall|k: int| 0 <= k < b.len() implies generates(rg, #[trigger] b[k], ws[k]) by {
                assert(symbol_in(g, nt, g[v as int][j][k]));
                assert(prev(b[k], ws[k]));
                lemma_decomposed_forward(g, rg, nt, m, b[k], ws[k]);
            }
            assert(body_decomposed(rg, g.len(), b, c));
            if b.len() <= 2 {
                assert(c == b);
                assert forall|k: int| 0 <= k < ws.len() implies generates(rg, #[trigger] rg[v as int][j][k], ws[k]) by {
                    assert(b[k] == rg[v as int][j][k]);
                }
                lemma_head_from_words(rg, v as int, j, ws);
            } else {
                let x = c[1]->VariableIndex_0;
                let tail = b.subrange(1, b.len() as int);
                let rest = ws.drop_first();
                assert forall|k: int| 0 <= k < tail.len() implies generates(rg, #[trigger] tail[k], rest[k]) by {
                    assert(tail[k] == b[k + 1]);
                }
                lemma_spelled_forward(rg, g.len(), x, tail, rest);
                let two = seq![ws[0], rest.flatten()];
                assert(generates(rg, rg[v as int][j][0], two[0]));
                assert(generates(rg, rg[v as int][j][1], two[1]));
                lemma_head_from_words(rg, v as int, j, two);
                lemma_flatten_two(ws[0], rest.flatten());
                assert(ws =~= seq![ws[0]] + rest);
                lemma_flatten_cons(ws[0], rest);
            }
        },
    }
}

/// What a variable that spells out `s` derives in the decomposed grammar is
/// made of words that the symbols of `s` derive in `g`.
#[verifier::rlimit(60)]
#[verifier::spinoff_prover]
pub proof fn lemma_spelled_back(
    g: Seq<Seq<Seq<SymbolIndex>>>,
    rg: Seq<Seq<Seq<SymbolIndex>>>,
    nt: nat,
    h: nat,
    x: usize,
    s: Seq<SymbolIndex>,
    w: Seq<usize>,
)
    requires
        grammar_ok(g, nt),
        decomposes(g, rg),
        spells(rg, g.len(), x as int, s),
        forall|k: int| 0 <= k < s.len() ==> symbol_in(g, nt, #[trigger] s[k]),
        derives(rg, h, SymbolIndex::VariableIndex(x), w),
    ensures
        exists|ws: Seq<Seq<usize>>|
            ws.len() == s.len() && ws.flatten() == w && forall|k: int| 0 <= k < s.len() ==> generates(g, #[trigger] s[k], ws[k]),
    decreases h,
{
    let m = (h - 1) as nat;
    lemma_derivable_unfold(rg, m);
    let prev = derivable(rg, m);
    assert(derive_step(rg, prev)(SymbolIndex::VariableIndex(x), w));
    let j = choose|j: int| 0 <= j < rg[x as int].len() && #[trigger] body_derives(prev, rg[x as int][j], w);
    assert(j == 0);
    let body = rg[x as int][0];
    let cuts = choose|cuts: Seq<int>| #[trigger] split_ok(prev, body, w, cuts);
    lemma_split_words(prev, body, w, cuts);
    let parts = cut_words(w, cuts, 2);
    assert(prev(body[0], parts[0]));
    assert(prev(body[1], parts[1]));
    assert(body[0] == s[0]);
    assert(symbol_in(g, nt, s[0]));
    lemma_decomposed_back(g, rg, nt, m, s[0], parts[0]);
    lemma_flatten_two(parts[0], parts[1]);
    assert(parts =~= seq![parts[0], parts[1]]);
    if s.len() == 2 {
        assert(body[1] == s[1]);
        assert(symbol_in(g, nt, s[1]));
        lemma_decomposed_back(g, rg, nt, m, s[1], parts[1]);
        assert(parts.len() == s.len() && parts.flatten() == w);
        assert(forall|k: int| 0 <= k < s.len() ==> generates(g, #[trigger] s[k], parts[k]));
    } else {
        let y = body[1]->VariableIndex_0;
        let rest_s = s.drop_first();
        assert forall|k: int| 0 <= k < rest_s.len() implies symbol_in(g, nt, #[trigger] rest_s[k]) by {
            assert(rest_s[k] == s[k + 1]);
        }
        lemma_spelled_back(g, rg, nt, m, y, rest_s, parts[1]);
        let rest = choose|ws: Seq<Seq<usize>>|
            ws.len() == rest_s.len() && ws.flatten() == parts[1] && forall|k: int| 0 <= k < rest_s.len() ==> generates(g, #[trigger] rest_s[k], ws[k]);
        let all = seq![parts[0]] + rest;
        lemma_flatten_cons(parts[0], rest);
        assert forall|k: int| 0 <= k < s.len() implies generates(g, #[trigger] s[k], all[k]) by {
            if k > 0 {
                assert(s[k] == rest_s[k - 1]);
                assert(all[k] == rest[k - 1]);
            }
        }
        assert(all.len() == s.len() && all.flatten() == w);
    }
}

/// What a symbol of `g` derives in the decomposed grammar, it derives in `g`.
#[verifier::rlimit(60)]
#[verifier::spinoff_prover]
pub proof fn lemma_decomposed_back(g: Seq<Seq<Seq<SymbolIndex>>>, rg: Seq<Seq<Seq<SymbolIndex>>>, nt: nat, h: nat, s: SymbolIndex, w: Seq<usize>)
    requires
        grammar_ok(g, nt),
        decomposes(g, rg),
        symbol_in(g, nt, s),
        derives(rg, h, s, w),
    ensures
        generates(g, s, w),
    decreases h,
{
    let m = (h - 1) as nat;
    lemma_derivable_unfold(rg, m);
    let prev = derivable(rg, m);
    match s {
        SymbolIndex::TerminalIndex(t) => {
            assert(w == seq![t]);
            lemma_terminal_generating(g, t);
        },
        SymbolIndex::VariableIndex(v) => {
            let j = choose|j: int| 0 <= j < rg[v as int].len() && #[trigger] body_derives(prev, rg[v as int][j], w);
            let b = g[v as int][j];
            let c = rg[v as int][j];
            assert(body_decomposed(rg, g.len(), b, c));
            let cuts = choose|cuts: Seq<int>| #[trigger] split_ok(prev, c, w, cuts);
            lemma_split_words(prev, c, w, cuts);
            let ws = cut_words(w, cuts, c.len());
            if b.len() <= 2 {
                assert forall|k: int| 0 <= k < ws.len() implies generates(g, #[trigger] g[v as int][j][k], ws[k]) by {
                    assert(symbol_in(g, nt, g[v as int][j][k]));
                    assert(prev(c[k], ws[k]));
                    lemma_decomposed_back(g, rg, nt, m, b[k], ws[k]);
                }
                lemma_head_from_words(g, v as int, j, ws);
            } else {
                let x = c[1]->VariableIndex_0;
                let tail = b.subrange(1, b.len() as int);
                assert(symbol_in(g, nt, g[v as int][j][0]));
                assert(prev(c[0], ws[0]));
                lemma_decomposed_back(g, rg, nt, m, b[0], ws[0]);
                assert forall|k: int| 0 <= k < tail.len() implies symbol_in(g, nt, #[trigger] tail[k]) by {
                    assert(tail[k] == g[v as int][j][k + 1]);
                }
                assert(prev(c[1], ws[1]));
                lemma_spelled_back(g, rg, nt, m, x, tail, ws[1]);
                let rest = choose|rs: Seq<Seq<usize>>|
                    rs.len() == tail.len() && rs.flatten() == ws[1] && forall|k: int| 0 <= k < tail.len() ==> generates(g, #[trigger] tail[k], rs[k]);
                let all = seq![ws[0]] + rest;
                lemma_flatten_cons(ws[0], rest);
                lemma_flatten_two(ws[0], ws[1]);
                assert(ws =~= seq![ws[0], ws[1]]);
                assert forall|k: int| 0 <= k < all.len() implies generates(g, #[trigger] g[v as int][j][k], all[k]) by {
                    if k > 0 {
                        assert(g[v as int][j][k] == tail[k - 1]);
                        assert(all[k] == rest[k - 1]);
                    }
                }
                lemma_head_from_words(g, v as int, j, all);
            }
        },
    }
}

/// The decomposed grammar, over the same terminals and with the same start
/// variable, has the same language.
pub proof fn lemma_decomposed_language(a: CFG, r: CFG)
    requires
        grammar_ok(a.g(), a.nt()),
        a.start_symbol < a.g().len(),
        r.terminals@ == a.terminals@,
        r.start_symbol == a.start_symbol,
        decomposes(a.g(), r.g()),
    ensures
        forall|w: Seq<Seq<char>>| #[trigger] r.generates_word(w) == a.generates_word(w),
{
    let st = SymbolIndex::VariableIndex(a.start_symbol);
    assert(symbol_in(a.g(), a.nt(), st));
    assert forall|w: Seq<Seq<char>>| #[trigger] r.generates_word(w) == a.generates_word(w) by {
        if r.generates_word(w) {
            let u = choose|u: Seq<usize>| #[trigger] generates(r.g(), st, u) && terminal_names(r.terminals@, u) == w;
            let h = choose|h: nat| #[trigger] derives(r.g(), h, st, u);
            lemma_decomposed_back(a.g(), r.g(), a.nt(), h, st, u);
        }
        if a.generates_word(w) {
            let u = choose|u: Seq<usize>| #[trigger] generates(a.g(), st, u) && terminal_names(a.terminals@, u) == w;
            let h = choose|h: nat| #[trigger] derives(a.g(), h, st, u);
            lemma_decomposed_forward(a.g(), r.g(), a.nt(), h, st, u);
        }
    }
}

} // verus!
