//! The words of a grammar in which a variable used once is inlined: every
//! other variable derives the words it derived before.
use crate::cfg::cfg::{body_derives, derivable, derive_step, derives, generates, grammar_ok, split_ok, symbol_in, SymbolIndex};
use crate::cfg::generating::{lemma_derivable_unfold, lemma_terminal_generating};
use crate::cfg::intersection::lemma_head_from_words;
use crate::cfg::simplify::{inlinable, inlined, occurs_at, spliced, spliced_all, used_once_by};
use crate::cfg::terminal_words::{cut_words, lemma_split_words};
use crate::cfg::two_gram_words::seq_generates;
use vstd::prelude::*;

verus! {

/// Symbols that derive words, with the variable `x` deriving its words
/// through `body`, derive with `x` replaced by `body` the same words put
/// together.
pub proof fn lemma_splice_generates(
    g: Seq<Seq<Seq<SymbolIndex>>>,
    b: Seq<SymbolIndex>,
    x: int,
    body: Seq<SymbolIndex>,
    ws: Seq<Seq<usize>>,
)
    requires
        ws.len() == b.len(),
        forall|k: int| 0 <= k < b.len() && b[k] != SymbolIndex::VariableIndex(x as usize) ==> #[trigger] generates(g, b[k], ws[k]),
        forall|k: int| 0 <= k < b.len() && b[k] == SymbolIndex::VariableIndex(x as usize) ==> #[trigger] seq_generates(g, body, ws[k]),
    ensures
        seq_generates(g, spliced(b, x, body), ws.flatten()),
    decreases b.len(),
{
    if b.len() == 0 {
        assert(ws.flatten() =~= Seq::<usize>::empty());
        let vs = Seq::<Seq<usize>>::empty();
        assert(vs.flatten() =~= Seq::<usize>::empty());
        assert(spliced(b, x, body) =~= Seq::<SymbolIndex>::empty());
    } else {
        let bl = b.drop_last();
        let wl = ws.drop_last();
        let k = b.len() - 1;
        assert forall|i: int| 0 <= i < bl.len() && bl[i] != SymbolIndex::VariableIndex(x as usize) implies #[trigger] generates(g, bl[i], wl[i]) by {
            assert(b[i] == bl[i]);
            assert(generates(g, b[i], ws[i]));
        }
        assert forall|i: int| 0 <= i < bl.len() && bl[i] == SymbolIndex::VariableIndex(x as usize) implies #[trigger] seq_generates(g, body, wl[i]) by {
            assert(b[i] == bl[i]);
            assert(seq_generates(g, body, ws[i]));
        }
        lemma_splice_generates(g, bl, x, body, wl);
        let vs1 = choose|vs: Seq<Seq<usize>>|
            vs.len() == spliced(bl, x, body).len() && vs.flatten() == wl.flatten()
                && forall|i: int| 0 <= i < spliced(bl, x, body).len() ==> #[trigger] generates(g, spliced(bl, x, body)[i], vs[i]);
        assert(ws =~= wl.push(ws[k]));
        wl.lemma_flatten_push(ws[k]);
        let sb = spliced(b, x, body);
        let s1 = spliced(bl, x, body);
        if b[k] == SymbolIndex::VariableIndex(x as usize) {
            assert(seq_generates(g, body, ws[k]));
            let vs2 = choose|vs: Seq<Seq<usize>>|
                vs.len() == body.len() && vs.flatten() == ws[k] && forall|i: int| 0 <= i < body.len() ==> #[trigger] generates(g, body[i], vs[i]);
            assert(sb == s1 + body);
            let vs = vs1 + vs2;
            vstd::seq_lib::lemma_flatten_concat(vs1, vs2);
            assert forall|i: int| 0 <= i < sb.len() implies #[trigger] generates(g, sb[i], vs[i]) by {
                if i < s1.len() {
                    assert(sb[i] == s1[i]);
                    assert(vs[i] == vs1[i]);
                } else {
                    assert(sb[i] == body[i - s1.len()]);
                    assert(vs[i] == vs2[i - s1.len()]);
                }
            }
            assert(vs.len() == sb.len() && vs.flatten() == ws.flatten());
        } else {
            assert(generates(g, b[k], ws[k]));
            assert(sb == s1 + seq![b[k]]);
            let vs = vs1.push(ws[k]);
            vs1.lemma_flatten_push(ws[k]);
            assert forall|i: int| 0 <= i < sb.len() implies #[trigger] generates(g, sb[i], vs[i]) by {
                if i < s1.len() {
                    assert(sb[i] == s1[i]);
                    assert(vs[i] == vs1[i]);
                }
            }
            assert(vs.len() == sb.len() && vs.flatten() == ws.flatten());
        }
    }
}

/// Words derived by the symbols of a body with `x` replaced by its only
/// body make up a word that the body itself derives.
pub proof fn lemma_unsplice_generates(g: Seq<Seq<Seq<SymbolIndex>>>, b: Seq<SymbolIndex>, x: usize, ws: Seq<Seq<usize>>)
    requires
        x < g.len(),
        g[x as int].len() == 1,
        ws.len() == spliced(b, x as int, g[x as int][0]).len(),
        forall|k: int| 0 <= k < ws.len() ==> #[trigger] generates(g, spliced(b, x as int, g[x as int][0])[k], ws[k]),
    ensures
        seq_generates(g, b, ws.flatten()),
    decreases b.len(),
{
    let body = g[x as int][0];
    if b.len() == 0 {
        assert(ws =~= Seq::<Seq<usize>>::empty());
        assert(ws.flatten() =~= Seq::<usize>::empty());
        let vs = Seq::<Seq<usize>>::empty();
        assert(vs.flatten() =~= Seq::<usize>::empty());
    } else {
        let bl = b.drop_last();
        let k = b.len() - 1;
        let s1 = spliced(bl, x as int, body);
        let sb = spliced(b, x as int, body);
        let tail = if b[k] == SymbolIndex::VariableIndex(x) { body } else { seq![b[k]] };
        assert(sb == s1 + tail);
        let ws1 = ws.subrange(0, s1.len() as int);
        let ws2 = ws.subrange(s1.len() as int, ws.len() as int);
        assert(ws =~= ws1 + ws2);
        vstd::seq_lib::lemma_flatten_concat(ws1, ws2);
        assert forall|i: int| 0 <= i < ws1.len() implies #[trigger] generates(g, s1[i], ws1[i]) by {
            assert(sb[i] == s1[i]);
            assert(generates(g, sb[i], ws[i]));
        }
        lemma_unsplice_generates(g, bl, x, ws1);
        let vs1 = choose|vs: Seq<Seq<usize>>|
            vs.len() == bl.len() && vs.flatten() == ws1.flatten() && forall|i: int| 0 <= i < bl.len() ==> #[trigger] generates(g, bl[i], vs[i]);
        let last = ws2.flatten();
        if b[k] == SymbolIndex::VariableIndex(x) {
            assert forall|i: int| 0 <= i < ws2.len() implies generates(g, #[trigger] g[x as int][0][i], ws2[i]) by {
                assert(sb[s1.len() + i] == body[i]);
                assert(generates(g, sb[s1.len() + i], ws[s1.len() + i]));
            }
            lemma_head_from_words(g, x as int, 0, ws2);
        } else {
            assert(ws2.len() == 1);
            assert(sb[s1.len() as int] == b[k]);
            assert(generates(g, sb[s1.len() as int], ws[s1.len() as int]));
            assert(ws2 =~= seq![ws2[0]]);
            crate::cfg::intersection::lemma_flatten_one(ws2);
        }
        assert(generates(g, b[k], last));
        let vs = vs1.push(last);
        vs1.lemma_flatten_push(last);
        assert forall|i: int| 0 <= i < b.len() implies #[trigger] generates(g, b[i], vs[i]) by {
            if i < bl.len() {
                assert(b[i] == bl[i]);
                assert(vs[i] == vs1[i]);
            }
        }
        assert(vs.len() == b.len() && vs.flatten() == ws.flatten());
    }
}

/// Every symbol of a body with `x` spliced out is a symbol of the body
/// other than `x`, or a symbol of the body put in its place.
proof fn lemma_spliced_symbols(b: Seq<SymbolIndex>, x: int, body: Seq<SymbolIndex>, k: int)
    requires
        0 <= k < spliced(b, x, body).len(),
    ensures
        (exists|i: int| 0 <= i < b.len() && #[trigger] b[i] == spliced(b, x, body)[k] && b[i] != SymbolIndex::VariableIndex(x as usize))
            || (exists|i: int| 0 <= i < body.len() && #[trigger] body[i] == spliced(b, x, body)[k]),
    decreases b.len(),
{
    let bl = b.drop_last();
    let s1 = spliced(bl, x, body);
    let last = b[b.len() - 1];
    if k < s1.len() {
        assert(spliced(b, x, body)[k] == s1[k]);
        lemma_spliced_symbols(bl, x, body, k);
        if exists|i: int| 0 <= i < bl.len() && #[trigger] bl[i] == s1[k] && bl[i] != SymbolIndex::VariableIndex(x as usize) {
            let i = choose|i: int| 0 <= i < bl.len() && #[trigger] bl[i] == s1[k] && bl[i] != SymbolIndex::VariableIndex(x as usize);
            assert(b[i] == bl[i]);
        }
    } else if last == SymbolIndex::VariableIndex(x as usize) {
        assert(spliced(b, x, body)[k] == body[k - s1.len()]);
    } else {
        assert(spliced(b, x, body)[k] == last);
        assert(b[b.len() - 1] == last);
    }
}

/// Whether `g2` is `g0` with the variable `x`, used once in a body of `w`,
/// inlined.
pub open spec fn inlining(g0: Seq<Seq<Seq<SymbolIndex>>>, g2: Seq<Seq<Seq<SymbolIndex>>>, start: int, x: usize, w: int) -> bool {
    &&& inlinable(g0, start, x as int)
    &&& used_once_by(g0, x as int, w)
    &&& g2 == inlined(g0, x as int, w)
}

/// What a variable other than `x` derives, it derives after inlining.
#[verifier::rlimit(60)]
#[verifier::spinoff_prover]
pub proof fn lemma_inline_forward(
    g0: Seq<Seq<Seq<SymbolIndex>>>,
    g2: Seq<Seq<Seq<SymbolIndex>>>,
    nt: nat,
    start: int,
    x: usize,
    w: int,
    h: nat,
    s: SymbolIndex,
    u: Seq<usize>,
)
    requires
        grammar_ok(g0, nt),
        inlining(g0, g2, start, x, w),
        symbol_in(g0, nt, s),
        s != SymbolIndex::VariableIndex(x),
        derives(g0, h, s, u),
    ensures
        generates(g2, s, u),
    decreases h, 1int,
{
    let m = (h - 1) as nat;
    lemma_derivable_unfold(g0, m);
    let prev = derivable(g0, m);
    let (j0, k0) = choose|j0: int, k0: int|
        #[trigger] occurs_at(g0, x as int, w, j0, k0) && forall|v2: int, j2: int, k2: int|
            #[trigger] occurs_at(g0, x as int, v2, j2, k2) ==> v2 == w && j2 == j0 && k2 == k0;
    match s {
        SymbolIndex::TerminalIndex(t) => {
            assert(u == seq![t]);
            lemma_terminal_generating(g2, t);
        },
        SymbolIndex::VariableIndex(v) => {
            let j = choose|j: int| 0 <= j < g0[v as int].len() && #[trigger] body_derives(prev, g0[v as int][j], u);
            let b = g0[v as int][j];
            let cuts = choose|cuts: Seq<int>| #[trigger] split_ok(prev, b, u, cuts);
            lemma_split_words(prev, b, u, cuts);
            let ws = cut_words(u, cuts, b.len());
            let body = g0[x as int][0];
            assert forall|k: int| 0 <= k < b.len() && b[k] != SymbolIndex::VariableIndex(x) implies #[trigger] generates(g2, b[k], ws[k]) by {
                assert(symbol_in(g0, nt, g0[v as int][j][k]));
                assert(prev(b[k], ws[k]));
                lemma_inline_forward(g0, g2, nt, start, x, w, m, b[k], ws[k]);
            }
            assert forall|k: int| 0 <= k < b.len() && b[k] == SymbolIndex::VariableIndex(x) implies #[trigger] seq_generates(g2, body, ws[k]) by {
                assert(occurs_at(g0, x as int, v as int, j, k));
                assert(prev(b[k], ws[k]));
                lemma_inline_forward_x(g0, g2, nt, start, x, w, m, ws[k]);
            }
            if v as int == w {
                assert(g2[w] == spliced_all(g0[w], x as int, body));
                assert(g2[w][j] == spliced(b, x as int, body));
                lemma_splice_generates(g2, b, x as int, body, ws);
                let c = g2[w][j];
                let vs = choose|vs: Seq<Seq<usize>>|
                    vs.len() == c.len() && vs.flatten() == ws.flatten() && forall|i: int| 0 <= i < c.len() ==> #[trigger] generates(g2, c[i], vs[i]);
                assert forall|i: int| 0 <= i < vs.len() implies generates(g2, #[trigger] g2[v as int][j][i], vs[i]) by {
                    assert(g2[v as int][j][i] == c[i]);
                }
                lemma_head_from_words(g2, v as int, j, vs);
            } else {
                assert(g2[v as int] == g0[v as int]);
                assert forall|k: int| 0 <= k < ws.len() implies generates(g2, #[trigger] g2[v as int][j][k], ws[k]) by {
                    if b[k] == SymbolIndex::VariableIndex(x) {
                        assert(occurs_at(g0, x as int, v as int, j, k));
                    }
                    assert(g2[v as int][j][k] == b[k]);
                }
                lemma_head_from_words(g2, v as int, j, ws);
            }
        },
    }
}

/// What `x` derives, its only body derives after inlining, where `x` is not
/// used in its own body.
proof fn lemma_inline_forward_x(
    g0: Seq<Seq<Seq<SymbolIndex>>>,
    g2: Seq<Seq<Seq<SymbolIndex>>>,
    nt: nat,
    start: int,
    x: usize,
    w: int,
    h: nat,
    u: Seq<usize>,
)
    requires
        grammar_ok(g0, nt),
        inlining(g0, g2, start, x, w),
        w != x,
        derives(g0, h, SymbolIndex::VariableIndex(x), u),
    ensures
        seq_generates(g2, g0[x as int][0], u),
    decreases h, 0int,
{
    let m = (h - 1) as nat;
    lemma_derivable_unfold(g0, m);
    let prev = derivable(g0, m);
    let (j0, k0) = choose|j0: int, k0: int|
        #[trigger] occurs_at(g0, x as int, w, j0, k0) && forall|v2: int, j2: int, k2: int|
            #[trigger] occurs_at(g0, x as int, v2, j2, k2) ==> v2 == w && j2 == j0 && k2 == k0;
    assert(derive_step(g0, prev)(SymbolIndex::VariableIndex(x), u));
    let j = choose|j: int| 0 <= j < g0[x as int].len() && #[trigger] body_derives(prev, g0[x as int][j], u);
    assert(j == 0);
    let body = g0[x as int][0];
    let cuts = choose|cuts: Seq<int>| #[trigger] split_ok(prev, body, u, cuts);
    lemma_split_words(prev, body, u, cuts);
    let ws = cut_words(u, cuts, body.len());
    assert forall|k: int| 0 <= k < body.len() implies #[trigger] generates(g2, body[k], ws[k]) by {
        assert(symbol_in(g0, nt, g0[x as int][0][k]));
        if body[k] == SymbolIndex::VariableIndex(x) {
            assert(occurs_at(g0, x as int, x as int, 0, k));
        }
        assert(prev(body[k], ws[k]));
        lemma_inline_forward(g0, g2, nt, start, x, w, m, body[k], ws[k]);
    }
}

/// What a variable other than `x` derives after inlining, it derives before.
#[verifier::rlimit(60)]
#[verifier::spinoff_prover]
pub proof fn lemma_inline_back(
    g0: Seq<Seq<Seq<SymbolIndex>>>,
    g2: Seq<Seq<Seq<SymbolIndex>>>,
    nt: nat,
    start: int,
    x: usize,
    w: int,
    h: nat,
    s: SymbolIndex,
    u: Seq<usize>,
)
    requires
        grammar_ok(g0, nt),
        inlining(g0, g2, start, x, w),
        symbol_in(g0, nt, s),
        s != SymbolIndex::VariableIndex(x),
        derives(g2, h, s, u),
    ensures
        generates(g0, s, u),
    decreases h,
{
    let m = (h - 1) as nat;
    lemma_derivable_unfold(g2, m);
    let prev = derivable(g2, m);
    let (j0, k0) = choose|j0: int, k0: int|
        #[trigger] occurs_at(g0, x as int, w, j0, k0) && forall|v2: int, j2: int, k2: int|
            #[trigger] occurs_at(g0, x as int, v2, j2, k2) ==> v2 == w && j2 == j0 && k2 == k0;
    match s {
        SymbolIndex::TerminalIndex(t) => {
            assert(u == seq![t]);
            lemma_terminal_generating(g0, t);
        },
        SymbolIndex::VariableIndex(v) => {
            assert(g2.len() == g0.len());
            let j = choose|j: int| 0 <= j < g2[v as int].len() && #[trigger] body_derives(prev, g2[v as int][j], u);
            let c = g2[v as int][j];
            let cuts = choose|cuts: Seq<int>| #[trigger] split_ok(prev, c, u, cuts);
            lemma_split_words(prev, c, u, cuts);
            let ws = cut_words(u, cuts, c.len());
            let b = g0[v as int][j];
            let body = g0[x as int][0];
            if v as int == w {
                assert(g2[w] == spliced_all(g0[w], x as int, body));
                assert(c == spliced(b, x as int, body));
                assert forall|k: int| 0 <= k < ws.len() implies #[trigger] generates(g0, spliced(b, x as int, body)[k], ws[k]) by {
                    lemma_spliced_symbols(b, x as int, body, k);
                    if exists|i: int| 0 <= i < b.len() && #[trigger] b[i] == c[k] && b[i] != SymbolIndex::VariableIndex(x) {
                        let i = choose|i: int| 0 <= i < b.len() && #[trigger] b[i] == c[k] && b[i] != SymbolIndex::VariableIndex(x);
                        assert(symbol_in(g0, nt, g0[v as int][j][i]));
                    } else {
                        let i = choose|i: int| 0 <= i < body.len() && #[trigger] body[i] == c[k];
                        assert(symbol_in(g0, nt, g0[x as int][0][i]));
                        if body[i] == SymbolIndex::VariableIndex(x) {
                            assert(occurs_at(g0, x as int, x as int, 0, i));
                        }
                    }
                    assert(prev(c[k], ws[k]));
                    lemma_inline_back(g0, g2, nt, start, x, w, m, c[k], ws[k]);
                }
                lemma_unsplice_generates(g0, b, x, ws);
                let vs = choose|vs: Seq<Seq<usize>>|
                    vs.len() == b.len() && vs.flatten() == ws.flatten() && forall|i: int| 0 <= i < b.len() ==> #[trigger] generates(g0, b[i], vs[i]);
                assert forall|i: int| 0 <= i < vs.len() implies generates(g0, #[trigger] g0[v as int][j][i], vs[i]) by {
                    assert(g0[v as int][j][i] == b[i]);
                }
                lemma_head_from_words(g0, v as int, j, vs);
            } else {
                assert(g2[v as int] == g0[v as int]);
                assert forall|k: int| 0 <= k < ws.len() implies generates(g0, #[trigger] g0[v as int][j][k], ws[k]) by {
                    assert(symbol_in(g0, nt, g0[v as int][j][k]));
                    if b[k] == SymbolIndex::VariableIndex(x) {
                        assert(occurs_at(g0, x as int, v as int, j, k));
                    }
                    assert(prev(c[k], ws[k]));
                    lemma_inline_back(g0, g2, nt, start, x, w, m, b[k], ws[k]);
                }
                lemma_head_from_words(g0, v as int, j, ws);
            }
        },
    }
}

} // verus!
