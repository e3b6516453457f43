//! The words of a grammar in which a pair of adjacent symbols is shared
//! through a variable: every old symbol derives the words it derived before.
use crate::cfg::cfg::{
    body_derives, derivable, derive_step, derives, generates, grammar_ok, split_ok, symbol_in, SymbolIndex,
};
use crate::cfg::decompose_words::lemma_flatten_cons;
use crate::cfg::generating::{lemma_derivable_unfold, lemma_terminal_generating};
use crate::cfg::intersection::lemma_head_from_words;
use crate::cfg::intersection_words::lemma_flatten_two;
use crate::cfg::terminal_words::{cut_words, lemma_split_words};
use crate::cfg::two_grams::{lemma_pair_occurs, most_frequent, pair_rule, pair_variable, replaced, rewritten, shared};
use vstd::prelude::*;

verus! {

/// Whether the symbols of `b` derive, in `g`, words that make up `w`.
pub open spec fn seq_generates(g: Seq<Seq<Seq<SymbolIndex>>>, b: Seq<SymbolIndex>, w: Seq<usize>) -> bool {
    exists|ws: Seq<Seq<usize>>|
        ws.len() == b.len() && ws.flatten() == w && forall|k: int| 0 <= k < b.len() ==> #[trigger] generates(g, b[k], ws[k])
}

/// Whether `w` is made of a word of `p.0` and a word of `p.1` in `g`.
pub open spec fn pair_generates(g: Seq<Seq<Seq<SymbolIndex>>>, p: (SymbolIndex, SymbolIndex), w: Seq<usize>) -> bool {
    exists|a: Seq<usize>, c: Seq<usize>| w == a + c && #[trigger] generates(g, p.0, a) && #[trigger] generates(g, p.1, c)
}

/// A variable whose only body is the pair derives what the pair derives.
proof fn lemma_pair_rule_generates(g: Seq<Seq<Seq<SymbolIndex>>>, p: (SymbolIndex, SymbolIndex), x: usize, w: Seq<usize>)
    requires
        x < g.len(),
        pair_rule(g[x as int], p),
        pair_generates(g, p, w),
    ensures
        generates(g, SymbolIndex::VariableIndex(x), w),
{
    let (a, c) = choose|a: Seq<usize>, c: Seq<usize>| w == a + c && #[trigger] generates(g, p.0, a) && #[trigger] generates(g, p.1, c);
    let two = seq![a, c];
    assert(generates(g, g[x as int][0][0], two[0]));
    assert(generates(g, g[x as int][0][1], two[1]));
    lemma_head_from_words(g, x as int, 0, two);
    lemma_flatten_two(a, c);
}

/// What a variable whose only body is the pair derives, the pair derives,
/// by trees one level lower.
proof fn lemma_pair_rule_parts(g: Seq<Seq<Seq<SymbolIndex>>>, p: (SymbolIndex, SymbolIndex), x: usize, h: nat, w: Seq<usize>)
    requires
        x < g.len(),
        pair_rule(g[x as int], p),
        derives(g, h, SymbolIndex::VariableIndex(x), w),
    ensures
        h > 0,
        exists|a: Seq<usize>, c: Seq<usize>|
            w == a + c && #[trigger] derives(g, (h - 1) as nat, p.0, a) && #[trigger] derives(g, (h - 1) as nat, p.1, c),
{
    let m = (h - 1) as nat;
    lemma_derivable_unfold(g, m);
    let prev = derivable(g, m);
    assert(derive_step(g, prev)(SymbolIndex::VariableIndex(x), w));
    let j = choose|j: int| 0 <= j < g[x as int].len() && #[trigger] body_derives(prev, g[x as int][j], w);
    assert(j == 0);
    let body = g[x as int][0];
    let cuts = choose|cuts: Seq<int>| #[trigger] split_ok(prev, body, w, cuts);
    lemma_split_words(prev, body, w, cuts);
    let ws = cut_words(w, cuts, 2);
    lemma_flatten_two(ws[0], ws[1]);
    assert(ws =~= seq![ws[0], ws[1]]);
    assert(prev(body[0], ws[0]));
    assert(prev(body[1], ws[1]));
    assert(derives(g, m, p.0, ws[0]) && derives(g, m, p.1, ws[1]));
}

/// Symbols that derive words derive, with the pair replaced by a variable
/// whose only body is the pair, the same words put together.
pub proof fn lemma_replace_generates(g: Seq<Seq<Seq<SymbolIndex>>>, p: (SymbolIndex, SymbolIndex), x: usize, b: Seq<SymbolIndex>, ws: Seq<Seq<usize>>)
    requires
        x < g.len(),
        pair_rule(g[x as int], p),
        ws.len() == b.len(),
        forall|k: int| 0 <= k < b.len() ==> #[trigger] generates(g, b[k], ws[k]),
    ensures
        seq_generates(g, replaced(b, p, x), ws.flatten()),
    decreases b.len(),
{
    if b.len() < 2 {
        assert(replaced(b, p, x) == b);
    } else if (b[0], b[1]) == p {
        let rest = b.subrange(2, b.len() as int);
        let wr = ws.subrange(2, ws.len() as int);
        assert forall|k: int| 0 <= k < rest.len() implies #[trigger] generates(g, rest[k], wr[k]) by {
            assert(generates(g, b[k + 2], ws[k + 2]));
        }
        lemma_replace_generates(g, p, x, rest, wr);
        let vs = choose|vs: Seq<Seq<usize>>|
            vs.len() == replaced(rest, p, x).len() && vs.flatten() == wr.flatten() && forall|k: int|
                0 <= k < replaced(rest, p, x).len() ==> #[trigger] generates(g, replaced(rest, p, x)[k], vs[k]);
        let w0 = ws[0] + ws[1];
        assert(generates(g, p.0, ws[0]) && generates(g, p.1, ws[1]));
        assert(pair_generates(g, p, w0));
        lemma_pair_rule_generates(g, p, x, w0);
        let all = seq![w0] + vs;
        let rb = replaced(b, p, x);
        assert(rb == seq![SymbolIndex::VariableIndex(x)] + replaced(rest, p, x));
        lemma_flatten_cons(w0, vs);
        assert(ws =~= seq![ws[0]] + (seq![ws[1]] + wr));
        lemma_flatten_cons(ws[0], seq![ws[1]] + wr);
        lemma_flatten_cons(ws[1], wr);
        assert forall|k: int| 0 <= k < rb.len() implies #[trigger] generates(g, rb[k], all[k]) by {
            if k > 0 {
                assert(rb[k] == replaced(rest, p, x)[k - 1]);
                assert(all[k] == vs[k - 1]);
            }
        }
        assert(all.flatten() == ws.flatten());
    } else {
        let rest = b.subrange(1, b.len() as int);
        let wr = ws.subrange(1, ws.len() as int);
        assert forall|k: int| 0 <= k < rest.len() implies #[trigger] generates(g, rest[k], wr[k]) by {
            assert(generates(g, b[k + 1], ws[k + 1]));
        }
        lemma_replace_generates(g, p, x, rest, wr);
        let vs = choose|vs: Seq<Seq<usize>>|
            vs.len() == replaced(rest, p, x).len() && vs.flatten() == wr.flatten() && forall|k: int|
                0 <= k < replaced(rest, p, x).len() ==> #[trigger] generates(g, replaced(rest, p, x)[k], vs[k]);
        let all = seq![ws[0]] + vs;
        let rb = replaced(b, p, x);
        assert(rb == seq![b[0]] + replaced(rest, p, x));
        lemma_flatten_cons(ws[0], vs);
        assert(ws =~= seq![ws[0]] + wr);
        lemma_flatten_cons(ws[0], wr);
        assert forall|k: int| 0 <= k < rb.len() implies #[trigger] generates(g, rb[k], all[k]) by {
            if k > 0 {
                assert(rb[k] == replaced(rest, p, x)[k - 1]);
                assert(all[k] == vs[k - 1]);
            }
        }
        assert(all.flatten() == ws.flatten());
    }
}

/// Whether `w` is derived in `g` by symbol `s` of a body with the pair
/// replaced: through the pair where `s` is the variable `x` of the pair.
pub open spec fn unshared_generates(g: Seq<Seq<Seq<SymbolIndex>>>, p: (SymbolIndex, SymbolIndex), x: usize, s: SymbolIndex, w: Seq<usize>) -> bool {
    if s == SymbolIndex::VariableIndex(x) {
        pair_generates(g, p, w)
    } else {
        generates(g, s, w)
    }
}

/// Words derived in `g` by the symbols of a body with the pair replaced
/// make up a word that the body itself derives in `g`.
pub proof fn lemma_unreplace_generates(
    g: Seq<Seq<Seq<SymbolIndex>>>,
    nt: nat,
    p: (SymbolIndex, SymbolIndex),
    x: usize,
    b: Seq<SymbolIndex>,
    ws: Seq<Seq<usize>>,
)
    requires
        pair_variable(g, p, x as int),
        forall|k: int| 0 <= k < b.len() ==> symbol_in(g, nt, #[trigger] b[k]),
        ws.len() == replaced(b, p, x).len(),
        forall|k: int| 0 <= k < ws.len() ==> #[trigger] unshared_generates(g, p, x, replaced(b, p, x)[k], ws[k]),
    ensures
        seq_generates(g, b, ws.flatten()),
    decreases b.len(),
{
    if b.len() < 2 {
        assert(replaced(b, p, x) == b);
        assert forall|k: int| 0 <= k < b.len() implies #[trigger] generates(g, b[k], ws[k]) by {
            assert(unshared_generates(g, p, x, replaced(b, p, x)[k], ws[k]));
            if b[k] == SymbolIndex::VariableIndex(x) {
                assert(symbol_in(g, nt, b[k]));
                lemma_pair_rule_generates(g, p, x, ws[k]);
            }
        }
    } else if (b[0], b[1]) == p {
        let rest = b.subrange(2, b.len() as int);
        let rr = replaced(rest, p, x);
        let rb = replaced(b, p, x);
        assert(rb == seq![SymbolIndex::VariableIndex(x)] + rr);
        let wr = ws.drop_first();
        assert forall|k: int| 0 <= k < wr.len() implies #[trigger] unshared_generates(g, p, x, rr[k], wr[k]) by {
            assert(unshared_generates(g, p, x, rb[k + 1], ws[k + 1]));
        }
        assert forall|k: int| 0 <= k < rest.len() implies symbol_in(g, nt, #[trigger] rest[k]) by {
            assert(symbol_in(g, nt, b[k + 2]));
        }
        lemma_unreplace_generates(g, nt, p, x, rest, wr);
        let vs = choose|vs: Seq<Seq<usize>>|
            vs.len() == rest.len() && vs.flatten() == wr.flatten() && forall|k: int| 0 <= k < rest.len() ==> #[trigger] generates(g, rest[k], vs[k]);
        assert(unshared_generates(g, p, x, rb[0], ws[0]));
        let (a, c) = choose|a: Seq<usize>, c: Seq<usize>| ws[0] == a + c && #[trigger] generates(g, p.0, a) && #[trigger] generates(g, p.1, c);
        let all = seq![a] + (seq![c] + vs);
        lemma_flatten_cons(a, seq![c] + vs);
        lemma_flatten_cons(c, vs);
        assert(ws =~= seq![ws[0]] + wr);
        lemma_flatten_cons(ws[0], wr);
        assert forall|k: int| 0 <= k < b.len() implies #[trigger] generates(g, b[k], all[k]) by {
            if k >= 2 {
                assert(b[k] == rest[k - 2]);
                assert(all[k] == vs[k - 2]);
            }
        }
        assert(all.flatten() == ws.flatten());
    } else {
        let rest = b.subrange(1, b.len() as int);
        let rr = replaced(rest, p, x);
        let rb = replaced(b, p, x);
        assert(rb == seq![b[0]] + rr);
        let wr = ws.drop_first();
        assert forall|k: int| 0 <= k < wr.len() implies #[trigger] unshared_generates(g, p, x, rr[k], wr[k]) by {
            assert(unshared_generates(g, p, x, rb[k + 1], ws[k + 1]));
        }
        assert forall|k: int| 0 <= k < rest.len() implies symbol_in(g, nt, #[trigger] rest[k]) by {
            assert(symbol_in(g, nt, b[k + 1]));
        }
        lemma_unreplace_generates(g, nt, p, x, rest, wr);
        let vs = choose|vs: Seq<Seq<usize>>|
            vs.len() == rest.len() && vs.flatten() == wr.flatten() && forall|k: int| 0 <= k < rest.len() ==> #[trigger] generates(g, rest[k], vs[k]);
        assert(unshared_generates(g, p, x, rb[0], ws[0]));
        if b[0] == SymbolIndex::VariableIndex(x) {
            assert(symbol_in(g, nt, b[0]));
            lemma_pair_rule_generates(g, p, x, ws[0]);
        }
        let all = seq![ws[0]] + vs;
        lemma_flatten_cons(ws[0], vs);
        assert(ws =~= seq![ws[0]] + wr);
        lemma_flatten_cons(ws[0], wr);
        assert forall|k: int| 0 <= k < b.len() implies #[trigger] generates(g, b[k], all[k]) by {
            if k >= 1 {
                assert(b[k] == rest[k - 1]);
                assert(all[k] == vs[k - 1]);
            }
        }
        assert(all.flatten() == ws.flatten());
    }
}

/// Every symbol of a body with the pair replaced is the variable of the
/// pair or a symbol of the body.
proof fn lemma_replaced_symbols(b: Seq<SymbolIndex>, p: (SymbolIndex, SymbolIndex), x: usize, k: int)
    requires
        0 <= k < replaced(b, p, x).len(),
    ensures
        replaced(b, p, x)[k] == SymbolIndex::VariableIndex(x) || exists|i: int| 0 <= i < b.len() && #[trigger] b[i] == replaced(b, p, x)[k],
    decreases b.len(),
{
    if b.len() < 2 {
        assert(b[k] == replaced(b, p, x)[k]);
    } else if (b[0], b[1]) == p {
        let rest = b.subrange(2, b.len() as int);
        if k > 0 {
            lemma_replaced_symbols(rest, p, x, k - 1);
            if replaced(rest, p, x)[k - 1] != SymbolIndex::VariableIndex(x) {
                let i = choose|i: int| 0 <= i < rest.len() && #[trigger] rest[i] == replaced(rest, p, x)[k - 1];
                assert(b[i + 2] == replaced(b, p, x)[k]);
            }
        }
    } else {
        let rest = b.subrange(1, b.len() as int);
        if k == 0 {
            assert(b[0] == replaced(b, p, x)[0]);
        } else {
            lemma_replaced_symbols(rest, p, x, k - 1);
            if replaced(rest, p, x)[k - 1] != SymbolIndex::VariableIndex(x) {
                let i = choose|i: int| 0 <= i < rest.len() && #[trigger] rest[i] == replaced(rest, p, x)[k - 1];
                assert(b[i + 1] == replaced(b, p, x)[k]);
            }
        }
    }
}

/// Whether the pair `p` is shared in `rg` through `x`, both symbols of the
/// pair being symbols of `g`.
pub open spec fn sharing(g: Seq<Seq<Seq<SymbolIndex>>>, rg: Seq<Seq<Seq<SymbolIndex>>>, nt: nat, p: (SymbolIndex, SymbolIndex), x: usize) -> bool {
    &&& pair_variable(g, p, x as int)
    &&& rg == shared(g, p, x)
    &&& symbol_in(g, nt, p.0)
    &&& symbol_in(g, nt, p.1)
}

/// In the grammar with the pair shared, the variable of the pair has the
/// pair as only body, and every old variable has its bodies rewritten.
proof fn lemma_sharing_rows(g: Seq<Seq<Seq<SymbolIndex>>>, rg: Seq<Seq<Seq<SymbolIndex>>>, nt: nat, p: (SymbolIndex, SymbolIndex), x: usize)
    requires
        sharing(g, rg, nt, p, x),
    ensures
        x < rg.len(),
        pair_rule(rg[x as int], p),
        rg.len() >= g.len(),
        forall|v: int| 0 <= v < g.len() ==> #[trigger] rg[v] == rewritten(g[v], p, x),
{
    if (x as int) < g.len() {
        assert(rg[x as int] == rewritten(g[x as int], p, x));
        assert(g[x as int] == seq![seq![p.0, p.1]]);
        assert(rewritten(g[x as int], p, x) =~= g[x as int]);
    } else {
        assert(rg[x as int] == seq![seq![p.0, p.1]]);
    }
}

/// What a symbol of `g` derives, it derives with the pair shared.
#[verifier::rlimit(60)]
#[verifier::spinoff_prover]
pub proof fn lemma_shared_forward(
    g: Seq<Seq<Seq<SymbolIndex>>>,
    rg: Seq<Seq<Seq<SymbolIndex>>>,
    nt: nat,
    p: (SymbolIndex, SymbolIndex),
    x: usize,
    h: nat,
    s: SymbolIndex,
    w: Seq<usize>,
)
    requires
        grammar_ok(g, nt),
        sharing(g, rg, nt, p, x),
        symbol_in(g, nt, s),
        derives(g, h, s, w),
    ensures
        generates(rg, s, w),
    decreases h,
{
    lemma_sharing_rows(g, rg, nt, p, x);
    let m = (h - 1) as nat;
    lemma_derivable_unfold(g, m);
    let prev = derivable(g, m);
    match s {
        SymbolIndex::TerminalIndex(t) => {
            assert(w == seq![t]);
            lemma_terminal_generating(rg, t);
        },
        SymbolIndex::VariableIndex(v) => {
            let j = choose|j: int| 0 <= j < g[v as int].len() && #[trigger] body_derives(prev, g[v as int][j], w);
            let b = g[v as int][j];
            let cuts = choose|cuts: Seq<int>| #[trigger] split_ok(prev, b, w, cuts);
            lemma_split_words(prev, b, w, cuts);
            let ws = cut_words(w, cuts, b.len());
            assert forall|k: int| 0 <= k < b.len() implies #[trigger] generates(rg, b[k], ws[k]) by {
                assert(symbol_in(g, nt, g[v as int][j][k]));
                assert(prev(b[k], ws[k]));
                lemma_shared_forward(g, rg, nt, p, x, m, b[k], ws[k]);
            }
            assert(rg[v as int] == rewritten(g[v as int], p, x));
            let c = rg[v as int][j];
            if b.len() < 3 {
                assert(c == b);
                assert forall|k: int| 0 <= k < ws.len() implies generates(rg, #[trigger] rg[v as int][j][k], ws[k]) by {
                    assert(rg[v as int][j][k] == b[k]);
                }
                lemma_head_from_words(rg, v as int, j, ws);
            } else {
                assert(c == replaced(b, p, x));
                lemma_replace_generates(rg, p, x, b, ws);
                let vs = choose|vs: Seq<Seq<usize>>|
                    vs.len() == c.len() && vs.flatten() == ws.flatten() && forall|k: int| 0 <= k < c.len() ==> #[trigger] generates(rg, c[k], vs[k]);
                assert forall|k: int| 0 <= k < vs.len() implies generates(rg, #[trigger] rg[v as int][j][k], vs[k]) by {
                    assert(rg[v as int][j][k] == c[k]);
                }
                lemma_head_from_words(rg, v as int, j, vs);
            }
        },
    }
}

/// One symbol of a rewritten body, deriving its part with the pair shared,
/// derives it in `g`, or, where it is the new variable of the pair, the
/// pair derives it in `g`.
proof fn lemma_shared_back_part(
    g: Seq<Seq<Seq<SymbolIndex>>>,
    rg: Seq<Seq<Seq<SymbolIndex>>>,
    nt: nat,
    p: (SymbolIndex, SymbolIndex),
    x: usize,
    m: nat,
    c: SymbolIndex,
    part: Seq<usize>,
)
    requires
        grammar_ok(g, nt),
        sharing(g, rg, nt, p, x),
        symbol_in(g, nt, c) || c == SymbolIndex::VariableIndex(x),
        derives(rg, m, c, part),
    ensures
        unshared_generates(g, p, x, c, part),
        c != SymbolIndex::VariableIndex(x) ==> generates(g, c, part),
    decreases m, 2int,
{
    lemma_sharing_rows(g, rg, nt, p, x);
    if c == SymbolIndex::VariableIndex(x) {
        lemma_pair_rule_parts(rg, p, x, m, part);
        let (a, d) = choose|a: Seq<usize>, d: Seq<usize>|
            part == a + d && #[trigger] derives(rg, (m - 1) as nat, p.0, a) && #[trigger] derives(rg, (m - 1) as nat, p.1, d);
        lemma_shared_back(g, rg, nt, p, x, (m - 1) as nat, p.0, a);
        lemma_shared_back(g, rg, nt, p, x, (m - 1) as nat, p.1, d);
        assert(pair_generates(g, p, part));
    } else {
        lemma_shared_back(g, rg, nt, p, x, m, c, part);
    }
}

/// What a symbol of `g` derives with the pair shared, it derives in `g`.
#[verifier::rlimit(60)]
#[verifier::spinoff_prover]
pub proof fn lemma_shared_back(
    g: Seq<Seq<Seq<SymbolIndex>>>,
    rg: Seq<Seq<Seq<SymbolIndex>>>,
    nt: nat,
    p: (SymbolIndex, SymbolIndex),
    x: usize,
    h: nat,
    s: SymbolIndex,
    w: Seq<usize>,
)
    requires
        grammar_ok(g, nt),
        sharing(g, rg, nt, p, x),
        symbol_in(g, nt, s),
        derives(rg, h, s, w),
    ensures
        generates(g, s, w),
    decreases h, 1int,
{
    lemma_sharing_rows(g, rg, nt, p, x);
    let m = (h - 1) as nat;
    lemma_derivable_unfold(rg, m);
    let prev = derivable(rg, m);
    match s {
        SymbolIndex::TerminalIndex(t) => {
            assert(w == seq![t]);
            lemma_terminal_generating(g, t);
        },
        SymbolIndex::VariableIndex(v) => {
            let j = choose|j: int| 0 <= j < rg[v as int].len() && #[trigger] body_derives(prev, rg[v as int][j], w);
            assert(rg[v as int] == rewritten(g[v as int], p, x));
            let b = g[v as int][j];
            let c = rg[v as int][j];
            let cuts = choose|cuts: Seq<int>| #[trigger] split_ok(prev, c, w, cuts);
            lemma_split_words(prev, c, w, cuts);
            let ws = cut_words(w, cuts, c.len());
            if b.len() < 3 {
                assert(c == b);
                assert forall|k: int| 0 <= k < ws.len() implies generates(g, #[trigger] g[v as int][j][k], ws[k]) by {
                    assert(symbol_in(g, nt, g[v as int][j][k]));
                    assert(prev(c[k], ws[k]));
                    lemma_shared_back(g, rg, nt, p, x, m, b[k], ws[k]);
                }
                lemma_head_from_words(g, v as int, j, ws);
            } else {
                assert(c == replaced(b, p, x));
                assert forall|k: int| 0 <= k < b.len() implies symbol_in(g, nt, #[trigger] b[k]) by {
                    assert(symbol_in(g, nt, g[v as int][j][k]));
                }
                assert forall|k: int| 0 <= k < ws.len() implies #[trigger] unshared_generates(g, p, x, replaced(b, p, x)[k], ws[k]) by {
                    lemma_replaced_symbols(b, p, x, k);
                    assert(prev(c[k], ws[k]));
                    lemma_shared_back_part(g, rg, nt, p, x, m, c[k], ws[k]);
                    if c[k] == SymbolIndex::VariableIndex(x) && (x as int) < g.len() {
                        assert(pair_rule(g[x as int], p));
                    }
                }
                lemma_unreplace_generates(g, nt, p, x, b, ws);
                let vs = choose|vs: Seq<Seq<usize>>|
                    vs.len() == b.len() && vs.flatten() == ws.flatten() && forall|k: int| 0 <= k < b.len() ==> #[trigger] generates(g, b[k], vs[k]);
                assert forall|k: int| 0 <= k < vs.len() implies generates(g, #[trigger] g[v as int][j][k], vs[k]) by {
                    assert(g[v as int][j][k] == b[k]);
                }
                lemma_head_from_words(g, v as int, j, vs);
            }
        },
    }
}

/// Sharing a pair that occurs in `g` keeps what every variable of `g` derives.
pub proof fn lemma_shared_words(g: Seq<Seq<Seq<SymbolIndex>>>, nt: nat, p: (SymbolIndex, SymbolIndex), x: usize, v: usize, u: Seq<usize>)
    requires
        grammar_ok(g, nt),
        most_frequent(g, p),
        pair_variable(g, p, x as int),
        v < g.len(),
    ensures
        generates(shared(g, p, x), SymbolIndex::VariableIndex(v), u) <==> generates(g, SymbolIndex::VariableIndex(v), u),
{
    let rg = shared(g, p, x);
    lemma_pair_occurs(g, p, g.len() as int);
    let (a, j, i) = choose|a: int, j: int, i: int|
        0 <= a < g.len() && 0 <= j < g[a].len() && g[a][j].len() >= 3 && 0 <= i && i + 1 < g[a][j].len() && (#[trigger] g[a][j][i], g[a][j][i + 1]) == p;
    assert(symbol_in(g, nt, g[a][j][i]));
    assert(symbol_in(g, nt, g[a][j][i + 1]));
    assert(sharing(g, rg, nt, p, x));
    let s = SymbolIndex::VariableIndex(v);
    assert(symbol_in(g, nt, s));
    if generates(rg, s, u) {
        let h = choose|h: nat| #[trigger] derives(rg, h, s, u);
        lemma_shared_back(g, rg, nt, p, x, h, s, u);
    }
    if generates(g, s, u) {
        let h = choose|h: nat| #[trigger] derives(g, h, s, u);
        lemma_shared_forward(g, rg, nt, p, x, h, s, u);
    }
}

} // verus!
