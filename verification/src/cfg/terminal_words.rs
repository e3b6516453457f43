//! The words of a grammar whose terminals in long bodies stand behind
//! variables of one terminal each: every old symbol derives the words it
//! derived before.
use crate::cfg::cfg::{
    body_derives, derivable, derive_step, derives, generates, grammar_ok, split_ok, symbol_in, terminal_names, SymbolIndex, CFG,
};
use crate::cfg::generating::{lemma_cuts_bounded, lemma_derivable_unfold, lemma_terminal_generating};
use crate::cfg::intersection::{lemma_flatten_one, lemma_head_from_words};
use crate::cfg::transform::single_terminal_rule;
use vstd::prelude::*;

verus! {

/// The parts of `w` between consecutive cut points.
pub open spec fn cut_words(w: Seq<usize>, cuts: Seq<int>, n: nat) -> Seq<Seq<usize>> {
    Seq::new(n, |k: int| w.subrange(cuts[k], cuts[k + 1]))
}

/// The parts between the first `n` cut points, put together, are `w` up to the `n`-th cut.
proof fn lemma_cut_words_prefix(w: Seq<usize>, cuts: Seq<int>, len: nat, n: nat)
    requires
        cuts.len() == len + 1,
        cuts[0] == 0,
        cuts[len as int] == w.len(),
        forall|x: int| 0 <= x < len ==> #[trigger] cuts[x] <= cuts[x + 1],
        n <= len,
    ensures
        cut_words(w, cuts, n).flatten_alt() == w.subrange(0, cuts[n as int]),
    decreases n,
{
    lemma_cuts_bounded(cuts, len as int, w.len() as int, n as int);
    if n == 0 {
        assert(w.subrange(0, 0) =~= Seq::<usize>::empty());
    } else {
        lemma_cut_words_prefix(w, cuts, len, (n - 1) as nat);
        lemma_cuts_bounded(cuts, len as int, w.len() as int, n - 1);
        assert(cut_words(w, cuts, n).drop_last() =~= cut_words(w, cuts, (n - 1) as nat));
        assert(cuts[n - 1] <= cuts[n as int]);
        assert(w.subrange(0, cuts[n - 1]) + w.subrange(cuts[n - 1], cuts[n as int]) =~= w.subrange(0, cuts[n as int]));
    }
}

/// A split of `w` gives one part per symbol of the body, the parts making up `w`.
pub proof fn lemma_split_words(prev: spec_fn(SymbolIndex, Seq<usize>) -> bool, body: Seq<SymbolIndex>, w: Seq<usize>, cuts: Seq<int>)
    requires
        split_ok(prev, body, w, cuts),
    ensures
        cut_words(w, cuts, body.len()).len() == body.len(),
        cut_words(w, cuts, body.len()).flatten() == w,
        forall|k: int| 0 <= k < body.len() ==> #[trigger] prev(body[k], cut_words(w, cuts, body.len())[k]),
{
    let ws = cut_words(w, cuts, body.len());
    lemma_cut_words_prefix(w, cuts, body.len(), body.len());
    ws.lemma_flatten_and_flatten_alt_are_equivalent();
    assert(w.subrange(0, w.len() as int) =~= w);
    assert forall|k: int| 0 <= k < body.len() implies #[trigger] prev(body[k], ws[k]) by {
        assert(prev(body[k], w.subrange(cuts[k], cuts[k + 1])));
    }
}

/// Whether `rg` is `g` with each terminal of a body of other than one symbol
/// replaced by a variable, numbered after those of `g`, whose only body is
/// that terminal.
pub open spec fn lifts_terminals(g: Seq<Seq<Seq<SymbolIndex>>>, rg: Seq<Seq<Seq<SymbolIndex>>>, nt: nat) -> bool {
    &&& rg.len() >= g.len()
    &&& forall|h: int| 0 <= h < g.len() ==> (#[trigger] rg[h]).len() == g[h].len()
    &&& forall|h: int, j: int| 0 <= h < g.len() && 0 <= j < g[h].len() ==> {
        let b = #[trigger] g[h][j];
        let c = rg[h][j];
        &&& c.len() == b.len()
        &&& b.len() == 1 ==> c == b
        &&& b.len() != 1 ==> forall|k: int| 0 <= k < b.len() ==> {
            &&& b[k] is VariableIndex ==> #[trigger] c[k] == b[k]
            &&& b[k] is TerminalIndex ==> c[k] is VariableIndex && c[k]->VariableIndex_0 >= g.len()
                && rg[c[k]->VariableIndex_0 as int] == seq![seq![b[k]]]
        }
    }
}

/// A variable whose only body is one terminal derives that terminal alone.
proof fn lemma_single_terminal_derives(rg: Seq<Seq<Seq<SymbolIndex>>>, x: usize, t: usize, h: nat, w: Seq<usize>)
    requires
        x < rg.len(),
        rg[x as int] == seq![seq![SymbolIndex::TerminalIndex(t)]],
        derives(rg, h, SymbolIndex::VariableIndex(x), w),
    ensures
        w == seq![t],
{
    assert(h > 0);
    let m = (h - 1) as nat;
    lemma_derivable_unfold(rg, m);
    let prev = derivable(rg, m);
    assert(derive_step(rg, prev)(SymbolIndex::VariableIndex(x), w));
    let j = choose|j: int| 0 <= j < rg[x as int].len() && #[trigger] body_derives(prev, rg[x as int][j], w);
    let body = rg[x as int][j];
    let cuts = choose|cuts: Seq<int>| #[trigger] split_ok(prev, body, w, cuts);
    assert(j == 0);
    assert(body == seq![SymbolIndex::TerminalIndex(t)]);
    assert(prev(body[0], w.subrange(cuts[0], cuts[1])));
    assert(w.subrange(cuts[0], cuts[1]) =~= w);
    assert(m > 0);
    lemma_derivable_unfold(rg, (m - 1) as nat);
}

/// A variable whose only body is one terminal derives that terminal.
proof fn lemma_single_terminal_generates(rg: Seq<Seq<Seq<SymbolIndex>>>, x: usize, t: usize)
    requires
        x < rg.len(),
        rg[x as int] == seq![seq![SymbolIndex::TerminalIndex(t)]],
    ensures
        generates(rg, SymbolIndex::VariableIndex(x), seq![t]),
{
    lemma_terminal_generating(rg, t);
    let ws = seq![seq![t]];
    lemma_flatten_one(ws);
    assert(generates(rg, rg[x as int][0][0], ws[0]));
    lemma_head_from_words(rg, x as int, 0, ws);
}

/// What a symbol of `g` derives, it derives in the grammar with the terminals lifted.
#[verifier::rlimit(60)]
#[verifier::spinoff_prover]
pub proof fn lemma_lift_forward(g: Seq<Seq<Seq<SymbolIndex>>>, rg: Seq<Seq<Seq<SymbolIndex>>>, nt: nat, h: nat, s: SymbolIndex, w: Seq<usize>)
    requires
        grammar_ok(g, nt),
        grammar_ok(rg, nt),
        lifts_terminals(g, rg, nt),
        symbol_in(g, nt, s),
        derives(g, h, s, w),
    ensures
        generates(rg, s, w),
    decreases h, 1int,
{
    let m = (h - 1) as nat;
    lemma_derivable_unfold(g, m);
    let prev = derivable(g, m);
    match s {
        SymbolIndex::TerminalIndex(t) => {
            assert(w == seq![t]);
            lemma_terminal_generating(rg, t);
        },
        SymbolIndex::VariableIndex(v) => {
            let j = choose|j: int| 0 <= j < g[v as int].len() && #[trigger] body_derives(prev, g[v as int][j], w);
            let b = g[v as int][j];
            let cuts = choose|cuts: Seq<int>| #[trigger] split_ok(prev, b, w, cuts);
            lemma_split_words(prev, b, w, cuts);
            let ws = cut_words(w, cuts, b.len());
            assert forall|k: int| 0 <= k < ws.len() implies generates(rg, #[trigger] rg[v as int][j][k], ws[k]) by {
                lemma_lift_forward_part(g, rg, nt, m, v, j, k, ws[k]);
            }
            lemma_head_from_words(rg, v as int, j, ws);
        },
    }
}

/// One symbol of a body of `g`, deriving its part, derives it as its
/// counterpart in the grammar with the terminals lifted.
proof fn lemma_lift_forward_part(
    g: Seq<Seq<Seq<SymbolIndex>>>,
    rg: Seq<Seq<Seq<SymbolIndex>>>,
    nt: nat,
    m: nat,
    v: usize,
    j: int,
    k: int,
    part: Seq<usize>,
)
    requires
        grammar_ok(g, nt),
        grammar_ok(rg, nt),
        lifts_terminals(g, rg, nt),
        v < g.len(),
        0 <= j < g[v as int].len(),
        0 <= k < g[v as int][j].len(),
        derives(g, m, g[v as int][j][k], part),
    ensures
        generates(rg, rg[v as int][j][k], part),
    decreases m, 2int,
{
    let b = g[v as int][j];
    let c = rg[v as int][j];
    assert(symbol_in(g, nt, g[v as int][j][k]));
    assert(symbol_in(rg, nt, rg[v as int][j][k]));
    if b.len() == 1 || b[k] is VariableIndex {
        assert(c[k] == b[k]);
        lemma_lift_forward(g, rg, nt, m, b[k], part);
    } else {
        let t = b[k]->TerminalIndex_0;
        let x = c[k]->VariableIndex_0;
        assert(m > 0);
        lemma_derivable_unfold(g, (m - 1) as nat);
        assert(part == seq![t]);
        assert(rg[x as int] == seq![seq![SymbolIndex::TerminalIndex(t)]]);
        lemma_single_terminal_generates(rg, x, t);
    }
}

/// What a symbol of `g` derives in the grammar with the terminals lifted, it
/// derives in `g`.
#[verifier::rlimit(60)]
#[verifier::spinoff_prover]
pub proof fn lemma_lift_back(g: Seq<Seq<Seq<SymbolIndex>>>, rg: Seq<Seq<Seq<SymbolIndex>>>, nt: nat, h: nat, s: SymbolIndex, w: Seq<usize>)
    requires
        grammar_ok(g, nt),
        grammar_ok(rg, nt),
        lifts_terminals(g, rg, nt),
        symbol_in(g, nt, s),
        derives(rg, h, s, w),
    ensures
        generates(g, s, w),
    decreases h, 1int,
{
    let m = (h - 1) as nat;
    lemma_derivable_unfold(rg, m);
    let prev = derivable(rg, m);
    match s {
        SymbolIndex::TerminalIndex(t) => {
            assert(w == seq![t]);
            lemma_terminal_generating(g, t);
        },
        SymbolIndex::VariableIndex(v) => {
            let j = choose|j: int| 0 <= j < rg[v as int].len() && #[trigger] body_derives(prev, rg[v as int][j], w);
            let c = rg[v as int][j];
            let cuts = choose|cuts: Seq<int>| #[trigger] split_ok(prev, c, w, cuts);
            lemma_split_words(prev, c, w, cuts);
            let ws = cut_words(w, cuts, c.len());
            assert forall|k: int| 0 <= k < ws.len() implies generates(g, #[trigger] g[v as int][j][k], ws[k]) by {
                lemma_lift_back_part(g, rg, nt, m, v, j, k, ws[k]);
            }
            lemma_head_from_words(g, v as int, j, ws);
        },
    }
}

/// One symbol of a body of the grammar with the terminals lifted, deriving
/// its part, has its counterpart in `g` derive it.
proof fn lemma_lift_back_part(
    g: Seq<Seq<Seq<SymbolIndex>>>,
    rg: Seq<Seq<Seq<SymbolIndex>>>,
    nt: nat,
    m: nat,
    v: usize,
    j: int,
    k: int,
    part: Seq<usize>,
)
    requires
        grammar_ok(g, nt),
        grammar_ok(rg, nt),
        lifts_terminals(g, rg, nt),
        v < g.len(),
        0 <= j < g[v as int].len(),
        0 <= k < g[v as int][j].len(),
        derives(rg, m, rg[v as int][j][k], part),
    ensures
        generates(g, g[v as int][j][k], part),
    decreases m, 2int,
{
    let b = g[v as int][j];
    let c = rg[v as int][j];
    assert(symbol_in(g, nt, g[v as int][j][k]));
    assert(symbol_in(rg, nt, rg[v as int][j][k]));
    if b.len() == 1 || b[k] is VariableIndex {
        assert(c[k] == b[k]);
        lemma_lift_back(g, rg, nt, m, b[k], part);
    } else {
        let t = b[k]->TerminalIndex_0;
        let x = c[k]->VariableIndex_0;
        assert(rg[x as int] == seq![seq![SymbolIndex::TerminalIndex(t)]]);
        lemma_single_terminal_derives(rg, x, t, m, part);
        lemma_terminal_generating(g, t);
    }
}

/// The grammar with the terminals lifted, over the same terminals and with
/// the same start variable, has the same language.
pub proof fn lemma_lifted_language(a: CFG, r: CFG)
    requires
        grammar_ok(a.g(), a.nt()),
        grammar_ok(r.g(), a.nt()),
        a.start_symbol < a.g().len(),
        r.terminals@ == a.terminals@,
        r.start_symbol == a.start_symbol,
        lifts_terminals(a.g(), r.g(), a.nt()),
    ensures
        forall|w: Seq<Seq<char>>| #[trigger] r.generates_word(w) == a.generates_word(w),
{
    let st = SymbolIndex::VariableIndex(a.start_symbol);
    assert(symbol_in(a.g(), a.nt(), st));
    assert forall|w: Seq<Seq<char>>| #[trigger] r.generates_word(w) == a.generates_word(w) by {
        if r.generates_word(w) {
            let u = choose|u: Seq<usize>| #[trigger] generates(r.g(), st, u) && terminal_names(r.terminals@, u) == w;
            let h = choose|h: nat| #[trigger] derives(r.g(), h, st, u);
            lemma_lift_back(a.g(), r.g(), a.nt(), h, st, u);
        }
        if a.generates_word(w) {
            let u = choose|u: Seq<usize>| #[trigger] generates(a.g(), st, u) && terminal_names(a.terminals@, u) == w;
            let h = choose|h: nat| #[trigger] derives(a.g(), h, st, u);
            lemma_lift_forward(a.g(), r.g(), a.nt(), h, st, u);
        }
    }
}

} // verus!
