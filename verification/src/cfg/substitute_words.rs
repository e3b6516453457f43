//! The words of a grammar with a grammar substituted for one of its
//! terminals: each is a word of the grammar whose occurrences of that
//! terminal have each become a word of the substituted grammar.
use crate::cfg::cfg::{body_derives, derivable, derives, generates, grammar_ok, split_ok, symbol_in, terminal_names, SymbolIndex, CFG};
use crate::cfg::generating::{lemma_cuts_bounded, lemma_derivable_unfold, lemma_terminal_generating};
use crate::cfg::intersection::{lemma_flatten_one, lemma_head_from_words};
use crate::cfg::substitute::{
    entries_rows, entries_terms, lemma_substitution_state, moved_body, moved_grammar, moved_symbol, replaced_body, replaced_grammar, shape_ok,
    substitution_state,
};
use crate::fa::combine::{indexes, lemma_merge_symbols, merge_symbols};
use crate::language::word_of;
use crate::cfg::terminal_words::{cut_words, lemma_split_words};
use vstd::prelude::*;

verus! {

/// The word `u` with every terminal number `t` renumbered to `tmap[t]`.
pub open spec fn mapped_word(u: Seq<usize>, tmap: Seq<usize>) -> Seq<usize> {
    u.map_values(|t: usize| tmap[t as int])
}

/// Renumbering the words of a list and putting them together is putting
/// them together and renumbering.
proof fn lemma_mapped_flatten(us: Seq<Seq<usize>>, tmap: Seq<usize>)
    ensures
        us.map_values(|x: Seq<usize>| mapped_word(x, tmap)).flatten() == mapped_word(us.flatten(), tmap),
    decreases us.len(),
{
    let f = |x: Seq<usize>| mapped_word(x, tmap);
    if us.len() == 0 {
        assert(us.map_values(f) =~= Seq::<Seq<usize>>::empty());
        assert(mapped_word(us.flatten(), tmap) =~= Seq::<usize>::empty());
    } else {
        lemma_mapped_flatten(us.drop_first(), tmap);
        assert(us.map_values(f).drop_first() =~= us.drop_first().map_values(f));
        assert(us.flatten() == us.first() + us.drop_first().flatten());
        assert(mapped_word(us.first() + us.drop_first().flatten(), tmap) =~= mapped_word(us.first(), tmap)
            + mapped_word(us.drop_first().flatten(), tmap));
    }
}

/// Naming the words of a list and putting them together is putting them
/// together and naming.
proof fn lemma_names_flatten(terms: Seq<crate::input_symbol::InputSymbol>, us: Seq<Seq<usize>>)
    ensures
        us.map_values(|x: Seq<usize>| terminal_names(terms, x)).flatten() == terminal_names(terms, us.flatten()),
    decreases us.len(),
{
    let f = |x: Seq<usize>| terminal_names(terms, x);
    if us.len() == 0 {
        assert(us.map_values(f) =~= Seq::<Seq<Seq<char>>>::empty());
        assert(terminal_names(terms, us.flatten()) =~= Seq::<Seq<char>>::empty());
    } else {
        lemma_names_flatten(terms, us.drop_first());
        assert(us.map_values(f).drop_first() =~= us.drop_first().map_values(f));
        assert(us.flatten() == us.first() + us.drop_first().flatten());
        assert(terminal_names(terms, us.first() + us.drop_first().flatten()) =~= terminal_names(terms, us.first())
            + terminal_names(terms, us.drop_first().flatten()));
    }
}

/// What the moved copy of a symbol of `h` derives in `r`, where the rows of
/// `h` stand moved from `base` on, is a word of the symbol in `h`, renumbered.
#[verifier::rlimit(60)]
#[verifier::spinoff_prover]
pub proof fn lemma_block_forward(
    r: Seq<Seq<Seq<SymbolIndex>>>,
    h: Seq<Seq<Seq<SymbolIndex>>>,
    nht: nat,
    tmap: Seq<usize>,
    base: nat,
    hgt: nat,
    s: SymbolIndex,
    v: Seq<usize>,
)
    requires
        grammar_ok(h, nht),
        tmap.len() == nht,
        base + h.len() <= r.len(),
        base + h.len() <= usize::MAX,
        forall|j: int| 0 <= j < h.len() ==> #[trigger] r[base + j] == h[j].map_values(|b: Seq<SymbolIndex>| moved_body(b, tmap, base)),
        symbol_in(h, nht, s),
        derives(r, hgt, moved_symbol(s, tmap, base), v),
    ensures
        exists|u: Seq<usize>| #[trigger] generates(h, s, u) && mapped_word(u, tmap) == v,
    decreases hgt,
{
    let m = (hgt - 1) as nat;
    lemma_derivable_unfold(r, m);
    let prev = derivable(r, m);
    match s {
        SymbolIndex::TerminalIndex(i) => {
            assert(v == seq![tmap[i as int]]);
            lemma_terminal_generating(h, i);
            assert(mapped_word(seq![i], tmap) =~= v);
            assert(generates(h, s, seq![i]));
        },
        SymbolIndex::VariableIndex(j) => {
            let x = (j + base) as usize;
            assert(r[base + j] == r[x as int]);
            let jj = choose|jj: int| 0 <= jj < r[x as int].len() && #[trigger] body_derives(prev, r[x as int][jj], v);
            let c = r[x as int][jj];
            let bd = h[j as int][jj];
            assert(c == moved_body(bd, tmap, base));
            let cuts = choose|cuts: Seq<int>| #[trigger] split_ok(prev, c, v, cuts);
            lemma_split_words(prev, c, v, cuts);
            let ws = cut_words(v, cuts, c.len());
            assert forall|k: int| #![trigger ws[k]] 0 <= k < bd.len() implies exists|u: Seq<usize>| #[trigger] generates(h, bd[k], u)
                && mapped_word(u, tmap) == ws[k] by {
                assert(symbol_in(h, nht, h[j as int][jj][k]));
                assert(c[k] == moved_symbol(bd[k], tmap, base));
                assert(prev(c[k], ws[k]));
                lemma_block_forward(r, h, nht, tmap, base, m, bd[k], ws[k]);
            }
            let us = Seq::new(bd.len(), |k: int| choose|u: Seq<usize>| #[trigger] generates(h, bd[k], u) && mapped_word(u, tmap) == ws[k]);
            assert forall|k: int| 0 <= k < us.len() implies generates(h, #[trigger] h[j as int][jj][k], us[k])
                && mapped_word(us[k], tmap) == ws[k] by {
                assert(ws[k] == ws[k]);
            }
            lemma_head_from_words(h, j as int, jj, us);
            lemma_mapped_flatten(us, tmap);
            assert(us.map_values(|y: Seq<usize>| mapped_word(y, tmap)) =~= ws);
            assert(generates(h, s, us.flatten()) && mapped_word(us.flatten(), tmap) == v);
        },
    }
}

/// Whether each word of `xs` is derived in `r` from what the terminal at its
/// place in `u` became.
pub open spec fn pieces(r: Seq<Seq<Seq<SymbolIndex>>>, sub: Seq<SymbolIndex>, u: Seq<usize>, xs: Seq<Seq<usize>>) -> bool {
    xs.len() == u.len() && forall|k: int| 0 <= k < u.len() ==> #[trigger] generates(r, sub[u[k] as int], xs[k])
}

/// Whether `u` is a word of `s` in `g` and `xs` the words, in `r`, of what its
/// terminals became, making up `w`.
pub open spec fn split_back(
    r: Seq<Seq<Seq<SymbolIndex>>>,
    g: Seq<Seq<Seq<SymbolIndex>>>,
    sub: Seq<SymbolIndex>,
    s: SymbolIndex,
    w: Seq<usize>,
    u: Seq<usize>,
    xs: Seq<Seq<usize>>,
) -> bool {
    generates(g, s, u) && pieces(r, sub, u, xs) && xs.flatten() == w
}

/// Pieces of pieces put together are pieces of the words put together.
proof fn lemma_pieces_flatten(r: Seq<Seq<Seq<SymbolIndex>>>, sub: Seq<SymbolIndex>, us: Seq<Seq<usize>>, xss: Seq<Seq<Seq<usize>>>)
    requires
        us.len() == xss.len(),
        forall|k: int| 0 <= k < us.len() ==> #[trigger] pieces(r, sub, us[k], xss[k]),
    ensures
        pieces(r, sub, us.flatten(), xss.flatten()),
        xss.flatten().flatten() == xss.map_values(|x: Seq<Seq<usize>>| x.flatten()).flatten(),
    decreases us.len(),
{
    if us.len() == 0 {
        assert(us.flatten() =~= Seq::<usize>::empty());
        assert(xss.flatten() =~= Seq::<Seq<usize>>::empty());
        assert(xss.map_values(|x: Seq<Seq<usize>>| x.flatten()) =~= Seq::<Seq<usize>>::empty());
        assert(Seq::<Seq<usize>>::empty().flatten() =~= Seq::<usize>::empty());
    } else {
        let ur = us.drop_first();
        let xr = xss.drop_first();
        assert forall|k: int| 0 <= k < ur.len() implies #[trigger] pieces(r, sub, ur[k], xr[k]) by {
            assert(pieces(r, sub, us[k + 1], xss[k + 1]));
        }
        lemma_pieces_flatten(r, sub, ur, xr);
        assert(pieces(r, sub, us[0], xss[0]));
        assert(us.flatten() == us.first() + ur.flatten());
        assert(xss.flatten() == xss.first() + xr.flatten());
        let u = us.flatten();
        let xs = xss.flatten();
        assert forall|k: int| 0 <= k < u.len() implies #[trigger] generates(r, sub[u[k] as int], xs[k]) by {
            if k < us[0].len() {
                assert(u[k] == us[0][k]);
                assert(xs[k] == xss[0][k]);
            } else {
                assert(u[k] == ur.flatten()[k - us[0].len()]);
                assert(xs[k] == xr.flatten()[k - us[0].len()]);
            }
        }
        let f = |x: Seq<Seq<usize>>| x.flatten();
        vstd::seq_lib::lemma_flatten_concat(xss.first(), xr.flatten());
        assert(xss.map_values(f).drop_first() =~= xr.map_values(f));
        assert(xss.map_values(f).first() == xss.first().flatten());
    }
}

/// What a variable of `g` derives in `r`, whose first rows are those of `g`
/// with each terminal `t` replaced by `sub[t]`, is made of what the
/// terminals of a word of the variable in `g` became.
#[verifier::rlimit(60)]
#[verifier::spinoff_prover]
pub proof fn lemma_replaced_forward(
    r: Seq<Seq<Seq<SymbolIndex>>>,
    g: Seq<Seq<Seq<SymbolIndex>>>,
    nt: nat,
    sub: Seq<SymbolIndex>,
    hgt: nat,
    s: SymbolIndex,
    v: Seq<usize>,
)
    requires
        grammar_ok(g, nt),
        sub.len() == nt,
        g.len() <= r.len(),
        forall|x: int| 0 <= x < g.len() ==> #[trigger] r[x] == g[x].map_values(|b: Seq<SymbolIndex>| replaced_body(b, sub)),
        s is VariableIndex,
        symbol_in(g, nt, s),
        derives(r, hgt, s, v),
    ensures
        exists|u: Seq<usize>, xs: Seq<Seq<usize>>| #[trigger] split_back(r, g, sub, s, v, u, xs),
    decreases hgt,
{
    let m = (hgt - 1) as nat;
    lemma_derivable_unfold(r, m);
    let prev = derivable(r, m);
    let j = s->VariableIndex_0;
    let jj = choose|jj: int| 0 <= jj < r[j as int].len() && #[trigger] body_derives(prev, r[j as int][jj], v);
    let c = r[j as int][jj];
    let bd = g[j as int][jj];
    assert(c == replaced_body(bd, sub));
    let cuts = choose|cuts: Seq<int>| #[trigger] split_ok(prev, c, v, cuts);
    lemma_split_words(prev, c, v, cuts);
    let ws = cut_words(v, cuts, c.len());
    assert forall|k: int| #![trigger ws[k]] 0 <= k < bd.len() implies exists|u: Seq<usize>, xs: Seq<Seq<usize>>|
        #[trigger] split_back(r, g, sub, bd[k], ws[k], u, xs) by {
        assert(symbol_in(g, nt, g[j as int][jj][k]));
        assert(prev(c[k], ws[k]));
        match bd[k] {
            SymbolIndex::TerminalIndex(t) => {
                assert(c[k] == sub[t as int]);
                assert(derives(r, m, c[k], ws[k]));
                lemma_terminal_generating(g, t);
                let u = seq![t];
                let xs = seq![ws[k]];
                assert(generates(r, sub[u[0] as int], xs[0]));
                assert(xs.drop_first() =~= Seq::<Seq<usize>>::empty());
                assert(Seq::<Seq<usize>>::empty().flatten() =~= Seq::<usize>::empty());
                assert(xs.flatten() =~= ws[k]);
                assert(split_back(r, g, sub, bd[k], ws[k], u, xs));
            },
            SymbolIndex::VariableIndex(y) => {
                assert(c[k] == bd[k]);
                lemma_replaced_forward(r, g, nt, sub, m, bd[k], ws[k]);
            },
        }
    }
    let us = Seq::new(bd.len(), |k: int| (choose|u: Seq<usize>, xs: Seq<Seq<usize>>| #[trigger] split_back(r, g, sub, bd[k], ws[k], u, xs)).0);
    let xss = Seq::new(bd.len(), |k: int| (choose|u: Seq<usize>, xs: Seq<Seq<usize>>| #[trigger] split_back(r, g, sub, bd[k], ws[k], u, xs)).1);
    assert forall|k: int| 0 <= k < us.len() implies generates(g, #[trigger] g[j as int][jj][k], us[k]) && pieces(r, sub, us[k], xss[k])
        && xss[k].flatten() == ws[k] by {
        assert(ws[k] == ws[k]);
        assert(split_back(r, g, sub, bd[k], ws[k], us[k], xss[k]));
    }
    assert forall|k: int| 0 <= k < us.len() implies #[trigger] pieces(r, sub, us[k], xss[k]) by {
        assert(generates(g, g[j as int][jj][k], us[k]));
    }
    lemma_head_from_words(g, j as int, jj, us);
    lemma_pieces_flatten(r, sub, us, xss);
    assert(xss.map_values(|x: Seq<Seq<usize>>| x.flatten()) =~= ws);
    assert(split_back(r, g, sub, s, v, us.flatten(), xss.flatten()));
}

/// The parts of `w` between consecutive cut points.
pub open spec fn cut_seq<A>(w: Seq<A>, cuts: Seq<int>, n: nat) -> Seq<Seq<A>> {
    Seq::new(n, |k: int| w.subrange(cuts[k], cuts[k + 1]))
}

/// The parts between the first `n` cut points, put together, are `w` up to the `n`-th cut.
proof fn lemma_cut_seq_prefix<A>(w: Seq<A>, cuts: Seq<int>, len: nat, n: nat)
    requires
        cuts.len() == len + 1,
        cuts[0] == 0,
        cuts[len as int] == w.len(),
        forall|x: int| 0 <= x < len ==> #[trigger] cuts[x] <= cuts[x + 1],
        n <= len,
    ensures
        cut_seq(w, cuts, n).flatten_alt() == w.subrange(0, cuts[n as int]),
    decreases n,
{
    lemma_cuts_bounded(cuts, len as int, w.len() as int, n as int);
    if n == 0 {
        assert(w.subrange(0, 0) =~= Seq::<A>::empty());
    } else {
        lemma_cut_seq_prefix(w, cuts, len, (n - 1) as nat);
        lemma_cuts_bounded(cuts, len as int, w.len() as int, n - 1);
        assert(cut_seq(w, cuts, n).drop_last() =~= cut_seq(w, cuts, (n - 1) as nat));
        assert(cuts[n - 1] <= cuts[n as int]);
        assert(w.subrange(0, cuts[n - 1]) + w.subrange(cuts[n - 1], cuts[n as int]) =~= w.subrange(0, cuts[n as int]));
    }
}

/// The parts between all the cut points make up the whole.
proof fn lemma_cut_seq<A>(w: Seq<A>, cuts: Seq<int>, len: nat)
    requires
        cuts.len() == len + 1,
        cuts[0] == 0,
        cuts[len as int] == w.len(),
        forall|x: int| 0 <= x < len ==> #[trigger] cuts[x] <= cuts[x + 1],
    ensures
        cut_seq(w, cuts, len).flatten() == w,
{
    lemma_cut_seq_prefix(w, cuts, len, len);
    cut_seq(w, cuts, len).lemma_flatten_and_flatten_alt_are_equivalent();
    assert(w.subrange(0, w.len() as int) =~= w);
}

/// What a symbol of `h` derives, renumbered, the moved copy of the symbol
/// derives in `r`, where the rows of `h` stand moved from `base` on.
#[verifier::rlimit(60)]
#[verifier::spinoff_prover]
pub proof fn lemma_block_back(
    r: Seq<Seq<Seq<SymbolIndex>>>,
    h: Seq<Seq<Seq<SymbolIndex>>>,
    nht: nat,
    tmap: Seq<usize>,
    base: nat,
    hgt: nat,
    s: SymbolIndex,
    u: Seq<usize>,
)
    requires
        grammar_ok(h, nht),
        tmap.len() == nht,
        base + h.len() <= r.len(),
        base + h.len() <= usize::MAX,
        forall|j: int| 0 <= j < h.len() ==> #[trigger] r[base + j] == h[j].map_values(|b: Seq<SymbolIndex>| moved_body(b, tmap, base)),
        symbol_in(h, nht, s),
        derives(h, hgt, s, u),
    ensures
        generates(r, moved_symbol(s, tmap, base), mapped_word(u, tmap)),
    decreases hgt,
{
    let m = (hgt - 1) as nat;
    lemma_derivable_unfold(h, m);
    let prev = derivable(h, m);
    match s {
        SymbolIndex::TerminalIndex(i) => {
            assert(u == seq![i]);
            assert(mapped_word(u, tmap) =~= seq![tmap[i as int]]);
            lemma_terminal_generating(r, tmap[i as int]);
        },
        SymbolIndex::VariableIndex(j) => {
            let x = (j + base) as usize;
            assert(r[base + j] == r[x as int]);
            let jj = choose|jj: int| 0 <= jj < h[j as int].len() && #[trigger] body_derives(prev, h[j as int][jj], u);
            let bd = h[j as int][jj];
            let cuts = choose|cuts: Seq<int>| #[trigger] split_ok(prev, bd, u, cuts);
            lemma_split_words(prev, bd, u, cuts);
            let us = cut_words(u, cuts, bd.len());
            let ws = us.map_values(|y: Seq<usize>| mapped_word(y, tmap));
            assert(r[x as int][jj] == moved_body(bd, tmap, base));
            assert forall|k: int| 0 <= k < ws.len() implies generates(r, #[trigger] r[x as int][jj][k], ws[k]) by {
                assert(symbol_in(h, nht, h[j as int][jj][k]));
                assert(prev(bd[k], us[k]));
                lemma_block_back(r, h, nht, tmap, base, m, bd[k], us[k]);
                assert(r[x as int][jj][k] == moved_symbol(bd[k], tmap, base));
            }
            lemma_head_from_words(r, x as int, jj, ws);
            lemma_mapped_flatten(us, tmap);
            assert(moved_symbol(s, tmap, base) == SymbolIndex::VariableIndex(x));
        },
    }
}

/// What a variable of `g` derives, with the terminals of the word each
/// become a word in `r` of what they became, the variable derives in `r`,
/// whose first rows are those of `g` with each terminal `t` replaced by `sub[t]`.
#[verifier::rlimit(80)]
#[verifier::spinoff_prover]
pub proof fn lemma_replaced_back(
    r: Seq<Seq<Seq<SymbolIndex>>>,
    g: Seq<Seq<Seq<SymbolIndex>>>,
    nt: nat,
    sub: Seq<SymbolIndex>,
    hgt: nat,
    s: SymbolIndex,
    u: Seq<usize>,
    xs: Seq<Seq<usize>>,
)
    requires
        grammar_ok(g, nt),
        sub.len() == nt,
        g.len() <= r.len(),
        forall|x: int| 0 <= x < g.len() ==> #[trigger] r[x] == g[x].map_values(|b: Seq<SymbolIndex>| replaced_body(b, sub)),
        s is VariableIndex,
        symbol_in(g, nt, s),
        derives(g, hgt, s, u),
        pieces(r, sub, u, xs),
    ensures
        generates(r, s, xs.flatten()),
    decreases hgt,
{
    let m = (hgt - 1) as nat;
    lemma_derivable_unfold(g, m);
    let prev = derivable(g, m);
    let j = s->VariableIndex_0;
    let jj = choose|jj: int| 0 <= jj < g[j as int].len() && #[trigger] body_derives(prev, g[j as int][jj], u);
    let bd = g[j as int][jj];
    let n = bd.len();
    let cuts = choose|cuts: Seq<int>| #[trigger] split_ok(prev, bd, u, cuts);
    lemma_split_words(prev, bd, u, cuts);
    let us = cut_words(u, cuts, n);
    let xss = cut_seq(xs, cuts, n);
    lemma_cut_seq(xs, cuts, n);
    assert forall|k: int| 0 <= k < n implies #[trigger] pieces(r, sub, us[k], xss[k]) by {
        lemma_cuts_bounded(cuts, n as int, u.len() as int, k);
        lemma_cuts_bounded(cuts, n as int, u.len() as int, k + 1);
        assert forall|i: int| 0 <= i < us[k].len() implies #[trigger] generates(r, sub[us[k][i] as int], xss[k][i]) by {
            assert(us[k][i] == u[cuts[k] + i]);
            assert(xss[k][i] == xs[cuts[k] + i]);
        }
    }
    let ys = Seq::new(n, |k: int| xss[k].flatten());
    assert(r[j as int][jj] == replaced_body(bd, sub));
    assert forall|k: int| 0 <= k < ys.len() implies generates(r, #[trigger] r[j as int][jj][k], ys[k]) by {
        assert(symbol_in(g, nt, g[j as int][jj][k]));
        assert(prev(bd[k], us[k]));
        assert(pieces(r, sub, us[k], xss[k]));
        assert(r[j as int][jj][k] == crate::cfg::substitute::replaced_symbol(bd[k], sub));
        match bd[k] {
            SymbolIndex::TerminalIndex(t) => {
                if m > 0 {
                    lemma_derivable_unfold(g, (m - 1) as nat);
                }
                assert(us[k] == seq![t]);
                assert(us[k][0] == t);
                assert(xss[k].len() == 1);
                assert(generates(r, sub[us[k][0] as int], xss[k][0]));
                lemma_flatten_one(xss[k]);
            },
            SymbolIndex::VariableIndex(y) => {
                lemma_replaced_back(r, g, nt, sub, m, bd[k], us[k], xss[k]);
            },
        }
    }
    lemma_head_from_words(r, j as int, jj, ys);
    lemma_pieces_flatten(r, sub, us, xss);
    assert(xss.map_values(|x: Seq<Seq<usize>>| x.flatten()) =~= ys);
}

/// A grammar given as plain values: its terminal names, its start variable
/// and its productions.
pub type Shape = (Seq<Seq<char>>, usize, Seq<Seq<Seq<SymbolIndex>>>);

/// Whether the grammar `h` generates the word of names `w`.
pub open spec fn shape_generates(h: Shape, w: Seq<Seq<char>>) -> bool {
    exists|u: Seq<usize>| #[trigger] generates(h.2, SymbolIndex::VariableIndex(h.1), u) && u.map_values(|t: usize| h.0[t as int]) == w
}

/// A terminal derives itself alone.
proof fn lemma_terminal_only(r: Seq<Seq<Seq<SymbolIndex>>>, t: usize, x: Seq<usize>)
    requires
        generates(r, SymbolIndex::TerminalIndex(t), x),
    ensures
        x == seq![t],
{
    let n = choose|n: nat| #[trigger] derives(r, n, SymbolIndex::TerminalIndex(t), x);
    lemma_derivable_unfold(r, (n - 1) as nat);
}

/// Whether `x` is a word of `sym` in `r` with the names `names`.
pub open spec fn piece_back(r: Seq<Seq<Seq<SymbolIndex>>>, terms: Seq<crate::input_symbol::InputSymbol>, sym: SymbolIndex, names: Seq<Seq<char>>, x: Seq<usize>) -> bool {
    generates(r, sym, x) && terminal_names(terms, x) == names
}

/// Entries to substitute: a terminal name and the grammar for it.
pub type Entries = Seq<(Seq<char>, Shape)>;

/// The last of the entries whose name the map `own` sends to terminal `t`,
/// or -1 where there is none.
pub open spec fn last_entry(own: Map<Seq<char>, usize>, es: Entries, t: usize) -> int
    decreases es.len(),
{
    if es.len() == 0 {
        -1
    } else if own.contains_key(es.last().0) && own[es.last().0] == t {
        es.len() - 1
    } else {
        last_entry(own, es.drop_last(), t)
    }
}

/// The last entry for a terminal is one of the entries, and its name is
/// sent to that terminal.
pub proof fn lemma_last_entry(own: Map<Seq<char>, usize>, es: Entries, t: usize)
    ensures
        -1 <= last_entry(own, es, t) < es.len(),
        last_entry(own, es, t) >= 0 ==> own.contains_key(es[last_entry(own, es, t)].0) && own[es[last_entry(own, es, t)].0] == t,
        last_entry(own, es, t) < 0 ==> forall|i: int| 0 <= i < es.len() && own.contains_key(#[trigger] es[i].0) ==> own[es[i].0] != t,
        forall|i: int| last_entry(own, es, t) < i < es.len() && own.contains_key(#[trigger] es[i].0) ==> own[es[i].0] != t,
    decreases es.len(),
{
    if es.len() > 0 {
        let rest = es.drop_last();
        lemma_last_entry(own, rest, t);
        if !(own.contains_key(es.last().0) && own[es.last().0] == t) {
            assert forall|i: int| last_entry(own, es, t) < i < es.len() && own.contains_key(#[trigger] es[i].0) implies own[es[i].0] != t by {
                if i < es.len() - 1 {
                    assert(rest[i] == es[i]);
                }
            }
            if last_entry(own, rest, t) >= 0 {
                assert(rest[last_entry(own, rest, t)] == es[last_entry(own, rest, t)]);
            }
        }
    }
}

/// The number from which the rows of entry `i` are numbered.
pub open spec fn base_of(own: Map<Seq<char>, usize>, nv: nat, init: Seq<Seq<char>>, es: Entries, i: int) -> nat {
    nv + substitution_state(own, nv, init, es.take(i)).3.len()
}

/// How the terminals of entry `i` are numbered among the terminals merged so far.
pub open spec fn tmap_of(own: Map<Seq<char>, usize>, nv: nat, init: Seq<Seq<char>>, es: Entries, i: int) -> Seq<usize> {
    let st = substitution_state(own, nv, init, es.take(i));
    let merged = merge_symbols(st.0, st.1, es[i].1.0);
    Seq::new(es[i].1.0.len(), |x: int| merged.0[es[i].1.0[x]])
}

/// After substituting the entries in order: each terminal has become the
/// start variable of the last entry for it (or stays itself), the rows of
/// each entry stand moved from its number on, and its terminals keep their
/// names among the merged terminals.
pub proof fn lemma_state_blocks(own: Map<Seq<char>, usize>, nv: nat, init: Seq<Seq<char>>, es: Entries)
    requires
        indexes(own, init),
        forall|i: int| 0 <= i < es.len() ==> shape_ok(#[trigger] es[i].1),
        init.len() + entries_terms(es) <= usize::MAX,
        nv + entries_rows(es) <= usize::MAX,
    ensures
        ({
            let st = substitution_state(own, nv, init, es);
            &&& st.2.len() == init.len()
            &&& init.len() <= st.1.len()
            &&& forall|t: int| 0 <= t < init.len() ==> #[trigger] st.1[t] == init[t]
            &&& forall|t: usize| t < init.len() ==> #[trigger] st.2[t as int] == if last_entry(own, es, t) < 0 {
                SymbolIndex::TerminalIndex(t)
            } else {
                SymbolIndex::VariableIndex((es[last_entry(own, es, t)].1.1 + base_of(own, nv, init, es, last_entry(own, es, t))) as usize)
            }
            &&& forall|i: int| 0 <= i < es.len() && own.contains_key(#[trigger] es[i].0) ==> base_of(own, nv, init, es, i) + es[i].1.2.len() <= nv + st.3.len()
            &&& forall|i: int, j: int| 0 <= i < es.len() && own.contains_key(es[i].0) && 0 <= j < es[i].1.2.len()
                ==> #[trigger] st.3[base_of(own, nv, init, es, i) - nv + j] == moved_grammar(es[i].1.2, tmap_of(own, nv, init, es, i), base_of(own, nv, init, es, i))[j]
            &&& forall|i: int, x: int| 0 <= i < es.len() && own.contains_key(es[i].0) && 0 <= x < es[i].1.0.len()
                ==> #[trigger] tmap_of(own, nv, init, es, i)[x] < st.1.len() && st.1[tmap_of(own, nv, init, es, i)[x] as int] == es[i].1.0[x]
        }),
    decreases es.len(),
{
    let st = substitution_state(own, nv, init, es);
    if es.len() > 0 {
        let rest = es.drop_last();
        assert forall|i: int| 0 <= i < rest.len() implies shape_ok(#[trigger] rest[i].1) by {
            assert(rest[i] == es[i]);
        }
        lemma_state_blocks(own, nv, init, rest);
        lemma_substitution_state(own, nv, init, rest);
        let prev = substitution_state(own, nv, init, rest);
        let e = es.last();
        let n = es.len() - 1;
        assert(es.take(n) =~= rest);
        assert forall|i: int| 0 <= i < rest.len() implies #[trigger] es.take(i) == rest.take(i) by {
            assert(es.take(i) =~= rest.take(i));
        }
        assert forall|i: int| 0 <= i < rest.len() implies base_of(own, nv, init, es, i) == #[trigger] base_of(own, nv, init, rest, i)
            && tmap_of(own, nv, init, es, i) == tmap_of(own, nv, init, rest, i) by {
            assert(es.take(i) == rest.take(i));
            assert(es[i] == rest[i]);
        }
        if own.contains_key(e.0) {
            let base = nv + prev.3.len();
            lemma_merge_symbols(prev.0, prev.1, e.1.0);
            let merged = merge_symbols(prev.0, prev.1, e.1.0);
            let tmap = Seq::new(e.1.0.len(), |i: int| merged.0[e.1.0[i]]);
            assert(base_of(own, nv, init, es, n) == base);
            assert(tmap_of(own, nv, init, es, n) == tmap);
            assert(st.3 == prev.3 + moved_grammar(e.1.2, tmap, base));
            assert(st.1 == merged.1);
            assert forall|t: int| 0 <= t < init.len() implies #[trigger] st.1[t] == init[t] by {
                assert(merged.1.take(prev.1.len() as int)[t] == prev.1[t]);
                assert(prev.1[t] == init[t]);
            }
            assert forall|t: usize| t < init.len() implies #[trigger] st.2[t as int] == if last_entry(own, es, t) < 0 {
                SymbolIndex::TerminalIndex(t)
            } else {
                SymbolIndex::VariableIndex((es[last_entry(own, es, t)].1.1 + base_of(own, nv, init, es, last_entry(own, es, t))) as usize)
            } by {
                lemma_last_entry(own, rest, t);
                if own[e.0] != t {
                    assert(prev.2[t as int] == if last_entry(own, rest, t) < 0 {
                        SymbolIndex::TerminalIndex(t)
                    } else {
                        SymbolIndex::VariableIndex((rest[last_entry(own, rest, t)].1.1 + base_of(own, nv, init, rest, last_entry(own, rest, t))) as usize)
                    });
                    if last_entry(own, rest, t) >= 0 {
                        let li = last_entry(own, rest, t);
                        assert(base_of(own, nv, init, es, li) == base_of(own, nv, init, rest, li));
                        assert(es[li] == rest[li]);
                    }
                }
            }
            assert forall|i: int| 0 <= i < es.len() && own.contains_key(#[trigger] es[i].0) implies base_of(own, nv, init, es, i) + es[i].1.2.len() <= nv + st.3.len() by {
                if i < n {
                    assert(rest[i] == es[i]);
                    assert(own.contains_key(rest[i].0));
                }
            }
            assert forall|i: int, j: int| 0 <= i < es.len() && own.contains_key(es[i].0) && 0 <= j < es[i].1.2.len()
                implies #[trigger] st.3[base_of(own, nv, init, es, i) - nv + j] == moved_grammar(es[i].1.2, tmap_of(own, nv, init, es, i), base_of(own, nv, init, es, i))[j] by {
                if i < n {
                    assert(rest[i] == es[i]);
                    assert(own.contains_key(rest[i].0));
                    assert(prev.3[base_of(own, nv, init, rest, i) - nv + j] == moved_grammar(rest[i].1.2, tmap_of(own, nv, init, rest, i), base_of(own, nv, init, rest, i))[j]);
                } else {
                    assert(i == n);
                }
            }
            assert forall|i: int, x: int| 0 <= i < es.len() && own.contains_key(es[i].0) && 0 <= x < es[i].1.0.len()
                implies #[trigger] tmap_of(own, nv, init, es, i)[x] < st.1.len() && st.1[tmap_of(own, nv, init, es, i)[x] as int] == es[i].1.0[x] by {
                if i < n {
                    assert(rest[i] == es[i]);
                    assert(own.contains_key(rest[i].0));
                    assert(tmap_of(own, nv, init, rest, i)[x] < prev.1.len());
                    assert(merged.1.take(prev.1.len() as int)[tmap_of(own, nv, init, rest, i)[x] as int] == prev.1[tmap_of(own, nv, init, rest, i)[x] as int]);
                } else {
                    assert(i == n);
                    assert(merged.0.contains_key(e.1.0[x]));
                }
            }
        } else {
            assert(st == prev);
            assert forall|t: usize| t < init.len() implies #[trigger] st.2[t as int] == if last_entry(own, es, t) < 0 {
                SymbolIndex::TerminalIndex(t)
            } else {
                SymbolIndex::VariableIndex((es[last_entry(own, es, t)].1.1 + base_of(own, nv, init, es, last_entry(own, es, t))) as usize)
            } by {
                lemma_last_entry(own, rest, t);
                assert(prev.2[t as int] == if last_entry(own, rest, t) < 0 {
                    SymbolIndex::TerminalIndex(t)
                } else {
                    SymbolIndex::VariableIndex((rest[last_entry(own, rest, t)].1.1 + base_of(own, nv, init, rest, last_entry(own, rest, t))) as usize)
                });
                if last_entry(own, rest, t) >= 0 {
                    let li = last_entry(own, rest, t);
                    assert(es[li] == rest[li]);
                    assert(base_of(own, nv, init, es, li) == base_of(own, nv, init, rest, li));
                }
            }
            assert forall|i: int| 0 <= i < es.len() && own.contains_key(#[trigger] es[i].0) implies base_of(own, nv, init, es, i) + es[i].1.2.len() <= nv + st.3.len() by {
                assert(i < n);
                assert(rest[i] == es[i]);
                assert(own.contains_key(rest[i].0));
            }
            assert forall|i: int, j: int| 0 <= i < es.len() && own.contains_key(es[i].0) && 0 <= j < es[i].1.2.len()
                implies #[trigger] st.3[base_of(own, nv, init, es, i) - nv + j] == moved_grammar(es[i].1.2, tmap_of(own, nv, init, es, i), base_of(own, nv, init, es, i))[j] by {
                assert(i < n);
                assert(rest[i] == es[i]);
                assert(own.contains_key(rest[i].0));
            }
            assert forall|i: int, x: int| 0 <= i < es.len() && own.contains_key(es[i].0) && 0 <= x < es[i].1.0.len()
                implies #[trigger] tmap_of(own, nv, init, es, i)[x] < st.1.len() && st.1[tmap_of(own, nv, init, es, i)[x] as int] == es[i].1.0[x] by {
                assert(i < n);
                assert(rest[i] == es[i]);
                assert(own.contains_key(rest[i].0));
            }
        }
    }
}

/// Whether `x` is what terminal `t` of `g` may become when the entries `es`
/// are substituted in order: a word of the grammar of the last entry for
/// it, or, where there is none, the terminal's own name.
pub open spec fn piece_of_entries(g: CFG, es: Entries, t: usize, x: Seq<Seq<char>>) -> bool {
    let i = last_entry(g.terminal_map@, es, t);
    if i >= 0 {
        shape_generates(es[i].1, x)
    } else {
        x == seq![g.terminals@[t as int]@]
    }
}

/// Whether the word `u` of `g` becomes `w` through the words `xs`, one for
/// each of its terminals, as `piece_of_entries` allows.
pub open spec fn entries_split(g: CFG, es: Entries, w: Seq<Seq<char>>, u: Seq<usize>, xs: Seq<Seq<Seq<char>>>) -> bool {
    &&& generates(g.g(), SymbolIndex::VariableIndex(g.start_symbol), u)
    &&& xs.len() == u.len()
    &&& xs.flatten() == w
    &&& forall|k: int| 0 <= k < u.len() ==> #[trigger] piece_of_entries(g, es, u[k], xs[k])
}

/// Whether `w` is a word of `g` with each of its terminals replaced by a
/// word of the grammar of the last entry for it, if any.
pub open spec fn entries_word(g: CFG, es: Entries, w: Seq<Seq<char>>) -> bool {
    exists|u: Seq<usize>, xs: Seq<Seq<Seq<char>>>| #[trigger] entries_split(g, es, w, u, xs)
}

/// The words of a grammar with the grammars of the entries substituted, in
/// order, for its terminals are the words of the grammar whose terminals
/// have each become a word of the grammar of the last entry for them, the
/// terminals without an entry keeping their names.
#[verifier::rlimit(100)]
#[verifier::spinoff_prover]
pub proof fn lemma_substitution_entries(a: CFG, es: Entries, r: CFG)
    requires
        a.wf(),
        r.wf(),
        forall|i: int| 0 <= i < es.len() ==> shape_ok(#[trigger] es[i].1),
        a.terminals@.len() + entries_terms(es) <= usize::MAX,
        a.g().len() + entries_rows(es) <= usize::MAX,
        word_of(r.terminals@) == a.substituted(es).0,
        r.g() == a.substituted(es).1,
        r.start_symbol == a.start_symbol,
    ensures
        forall|w: Seq<Seq<char>>| #[trigger] r.generates_word(w) <==> entries_word(a, es, w),
{
    let own = a.terminal_map@;
    let g = a.g();
    let nv = g.len();
    let init = word_of(a.terminals@);
    let nt0 = init.len();
    let st = substitution_state(own, nv, init, es);
    let sub = st.2;
    let rg = r.g();
    assert(rg == replaced_grammar(g, sub) + st.3);
    assert(word_of(r.terminals@) == st.1);
    assert(indexes(own, init)) by {
        assert forall|s2: Seq<char>| #[trigger] own.contains_key(s2) implies own[s2] < init.len() && init[own[s2] as int] == s2 by {}
    }
    lemma_substitution_state(own, nv, init, es);
    lemma_state_blocks(own, nv, init, es);
    assert forall|x: int| 0 <= x < g.len() implies #[trigger] rg[x] == g[x].map_values(|b: Seq<SymbolIndex>| replaced_body(b, sub)) by {}
    let st_sym = SymbolIndex::VariableIndex(a.start_symbol);
    assert(symbol_in(g, a.nt(), st_sym));
    assert forall|i: int, j: int| 0 <= i < es.len() && own.contains_key(es[i].0) && 0 <= j < es[i].1.2.len()
        implies #[trigger] rg[base_of(own, nv, init, es, i) + j] == es[i].1.2[j].map_values(
            |b: Seq<SymbolIndex>| moved_body(b, tmap_of(own, nv, init, es, i), base_of(own, nv, init, es, i))) by {
        let bi = base_of(own, nv, init, es, i);
        assert(st.3[bi - nv + j] == moved_grammar(es[i].1.2, tmap_of(own, nv, init, es, i), bi)[j]);
        assert(rg[bi + j] == st.3[bi - nv + j]);
    }
    assert forall|w: Seq<Seq<char>>| #[trigger] r.generates_word(w) implies entries_word(a, es, w) by {
        let ur = choose|ur: Seq<usize>| #[trigger] generates(rg, SymbolIndex::VariableIndex(r.start_symbol), ur) && terminal_names(r.terminals@, ur) == w;
        let n = choose|n: nat| #[trigger] derives(rg, n, st_sym, ur);
        lemma_replaced_forward(rg, g, nt0, sub, n, st_sym, ur);
        let (u, xs) = choose|u: Seq<usize>, xs: Seq<Seq<usize>>| #[trigger] split_back(rg, g, sub, st_sym, ur, u, xs);
        let n2 = choose|n2: nat| #[trigger] derives(g, n2, st_sym, u);
        crate::cfg::intersection_words::lemma_derived_in_range(g, a.nt(), n2, st_sym, u);
        let xsn = xs.map_values(|x: Seq<usize>| terminal_names(r.terminals@, x));
        lemma_names_flatten(r.terminals@, xs);
        assert forall|k: int| 0 <= k < u.len() implies #[trigger] piece_of_entries(a, es, u[k], xsn[k]) by {
            let t = u[k];
            assert(generates(rg, sub[t as int], xs[k]));
            lemma_last_entry(own, es, t);
            let i = last_entry(own, es, t);
            if i >= 0 {
                let h = es[i].1;
                let bi = base_of(own, nv, init, es, i);
                let tm = tmap_of(own, nv, init, es, i);
                let n3 = choose|n3: nat| #[trigger] derives(rg, n3, sub[t as int], xs[k]);
                assert(sub[t as int] == moved_symbol(SymbolIndex::VariableIndex(h.1), tm, bi));
                assert(shape_ok(es[i].1));
                assert(bi + h.2.len() <= nv + st.3.len());
                lemma_block_forward(rg, h.2, h.0.len() as nat, tm, bi, n3, SymbolIndex::VariableIndex(h.1), xs[k]);
                let uh = choose|uh: Seq<usize>| #[trigger] generates(h.2, SymbolIndex::VariableIndex(h.1), uh) && mapped_word(uh, tm) == xs[k];
                let n4 = choose|n4: nat| #[trigger] derives(h.2, n4, SymbolIndex::VariableIndex(h.1), uh);
                crate::cfg::intersection_words::lemma_derived_in_range(h.2, h.0.len() as nat, n4, SymbolIndex::VariableIndex(h.1), uh);
                assert forall|y: int| 0 <= y < uh.len() implies #[trigger] xsn[k][y] == uh.map_values(|t2: usize| h.0[t2 as int])[y] by {
                    assert(xs[k][y] == tm[uh[y] as int]);
                    assert(tm[uh[y] as int] < st.1.len() && st.1[tm[uh[y] as int] as int] == h.0[uh[y] as int]);
                    assert(word_of(r.terminals@)[tm[uh[y] as int] as int] == r.terminals@[tm[uh[y] as int] as int]@);
                }
                assert(xsn[k] =~= uh.map_values(|t2: usize| h.0[t2 as int]));
                assert(shape_generates(h, xsn[k]));
            } else {
                assert(sub[t as int] == SymbolIndex::TerminalIndex(t));
                lemma_terminal_only(rg, t, xs[k]);
                assert(st.1[t as int] == init[t as int]);
                assert(word_of(r.terminals@)[t as int] == r.terminals@[t as int]@);
                assert(xsn[k] =~= seq![a.terminals@[t as int]@]);
            }
        }
        assert(entries_split(a, es, w, u, xsn));
    }
    assert forall|w: Seq<Seq<char>>| #[trigger] entries_word(a, es, w) implies r.generates_word(w) by {
        let (u, xsn) = choose|u: Seq<usize>, xsn: Seq<Seq<Seq<char>>>| #[trigger] entries_split(a, es, w, u, xsn);
        let n2 = choose|n2: nat| #[trigger] derives(g, n2, st_sym, u);
        crate::cfg::intersection_words::lemma_derived_in_range(g, a.nt(), n2, st_sym, u);
        assert forall|k: int| #![trigger xsn[k]] 0 <= k < u.len() implies exists|x: Seq<usize>|
            #[trigger] piece_back(rg, r.terminals@, sub[u[k] as int], xsn[k], x) by {
            let t = u[k];
            assert(piece_of_entries(a, es, t, xsn[k]));
            lemma_last_entry(own, es, t);
            let i = last_entry(own, es, t);
            if i >= 0 {
                let h = es[i].1;
                let bi = base_of(own, nv, init, es, i);
                let tm = tmap_of(own, nv, init, es, i);
                assert(shape_ok(es[i].1));
                assert(bi + h.2.len() <= nv + st.3.len());
                let uh = choose|uh: Seq<usize>| #[trigger] generates(h.2, SymbolIndex::VariableIndex(h.1), uh)
                    && uh.map_values(|t2: usize| h.0[t2 as int]) == xsn[k];
                let n4 = choose|n4: nat| #[trigger] derives(h.2, n4, SymbolIndex::VariableIndex(h.1), uh);
                crate::cfg::intersection_words::lemma_derived_in_range(h.2, h.0.len() as nat, n4, SymbolIndex::VariableIndex(h.1), uh);
                lemma_block_back(rg, h.2, h.0.len() as nat, tm, bi, n4, SymbolIndex::VariableIndex(h.1), uh);
                let x = mapped_word(uh, tm);
                assert(sub[t as int] == moved_symbol(SymbolIndex::VariableIndex(h.1), tm, bi));
                assert forall|y: int| 0 <= y < x.len() implies #[trigger] terminal_names(r.terminals@, x)[y] == xsn[k][y] by {
                    assert(x[y] == tm[uh[y] as int]);
                    assert(tm[uh[y] as int] < st.1.len() && st.1[tm[uh[y] as int] as int] == h.0[uh[y] as int]);
                    assert(word_of(r.terminals@)[tm[uh[y] as int] as int] == r.terminals@[tm[uh[y] as int] as int]@);
                    assert(xsn[k][y] == h.0[uh[y] as int]);
                }
                assert(terminal_names(r.terminals@, x) =~= xsn[k]);
                assert(piece_back(rg, r.terminals@, sub[u[k] as int], xsn[k], x));
            } else {
                let x = seq![t];
                assert(sub[t as int] == SymbolIndex::TerminalIndex(t));
                lemma_terminal_generating(rg, t);
                assert(st.1[t as int] == init[t as int]);
                assert(word_of(r.terminals@)[t as int] == r.terminals@[t as int]@);
                assert(terminal_names(r.terminals@, x) =~= xsn[k]);
                assert(piece_back(rg, r.terminals@, sub[u[k] as int], xsn[k], x));
            }
        }
        let xs = Seq::new(u.len(), |k: int| choose|x: Seq<usize>| #[trigger] piece_back(rg, r.terminals@, sub[u[k] as int], xsn[k], x));
        assert forall|k: int| 0 <= k < u.len() implies #[trigger] generates(rg, sub[u[k] as int], xs[k])
            && terminal_names(r.terminals@, xs[k]) == xsn[k] by {
            assert(xsn[k] == xsn[k]);
        }
        lemma_replaced_back(rg, g, nt0, sub, n2, st_sym, u, xs);
        lemma_names_flatten(r.terminals@, xs);
        assert(xs.map_values(|x: Seq<usize>| terminal_names(r.terminals@, x)) =~= xsn);
        assert(generates(rg, SymbolIndex::VariableIndex(r.start_symbol), xs.flatten()) && terminal_names(r.terminals@, xs.flatten()) == w);
    }
}

/// Whether `x` is what terminal `t` of `g` may become when the grammars of
/// the map `m` are substituted for the terminals of their names: a word of
/// the grammar for its name, where the map has one and the name stands for
/// `t`, and otherwise its own name.
pub open spec fn piece_of_map(g: CFG, m: Map<Seq<char>, Shape>, t: usize, x: Seq<Seq<char>>) -> bool {
    let nm = g.terminals@[t as int]@;
    if m.contains_key(nm) && g.terminal_map@.contains_key(nm) && g.terminal_map@[nm] == t {
        shape_generates(m[nm], x)
    } else {
        x == seq![nm]
    }
}

/// Whether the word `u` of `g` becomes `w` through the words `xs`, one for
/// each of its terminals, as `piece_of_map` allows.
pub open spec fn map_split(g: CFG, m: Map<Seq<char>, Shape>, w: Seq<Seq<char>>, u: Seq<usize>, xs: Seq<Seq<Seq<char>>>) -> bool {
    &&& generates(g.g(), SymbolIndex::VariableIndex(g.start_symbol), u)
    &&& xs.len() == u.len()
    &&& xs.flatten() == w
    &&& forall|k: int| 0 <= k < u.len() ==> #[trigger] piece_of_map(g, m, u[k], xs[k])
}

/// Whether `w` is a word of `g` with each terminal whose name the map `m`
/// has replaced by a word of the grammar for that name.
pub open spec fn map_word(g: CFG, m: Map<Seq<char>, Shape>, w: Seq<Seq<char>>) -> bool {
    exists|u: Seq<usize>, xs: Seq<Seq<Seq<char>>>| #[trigger] map_split(g, m, w, u, xs)
}

/// Entries that list a map, each name once, substitute what the map does.
pub proof fn lemma_entries_map(a: CFG, es: Entries, m: Map<Seq<char>, Shape>)
    requires
        a.wf(),
        crate::collections::lists(es, m),
    ensures
        forall|w: Seq<Seq<char>>| #[trigger] entries_word(a, es, w) <==> map_word(a, m, w),
{
    let own = a.terminal_map@;
    assert forall|t: usize, x: Seq<Seq<char>>| t < a.terminals@.len() implies #[trigger] piece_of_entries(a, es, t, x) == piece_of_map(a, m, t, x) by {
        lemma_last_entry(own, es, t);
        let i = last_entry(own, es, t);
        let nm = a.terminals@[t as int]@;
        if i >= 0 {
            assert(a.terminals@[own[es[i].0] as int]@ == es[i].0);
            assert(m.contains_key(es[i].0));
        } else if m.contains_key(nm) && own.contains_key(nm) && own[nm] == t {
            let i2 = choose|i2: int| 0 <= i2 < es.len() && #[trigger] es[i2].0 == nm;
            assert(own.contains_key(es[i2].0));
        }
    }
    let g = a.g();
    let st_sym = SymbolIndex::VariableIndex(a.start_symbol);
    assert(symbol_in(g, a.nt(), st_sym));
    assert forall|w: Seq<Seq<char>>| #[trigger] entries_word(a, es, w) <==> map_word(a, m, w) by {
        if entries_word(a, es, w) {
            let (u, xs) = choose|u: Seq<usize>, xs: Seq<Seq<Seq<char>>>| #[trigger] entries_split(a, es, w, u, xs);
            let n = choose|n: nat| #[trigger] derives(g, n, st_sym, u);
            crate::cfg::intersection_words::lemma_derived_in_range(g, a.nt(), n, st_sym, u);
            assert forall|k: int| 0 <= k < u.len() implies #[trigger] piece_of_map(a, m, u[k], xs[k]) by {
                assert(piece_of_entries(a, es, u[k], xs[k]));
            }
            assert(map_split(a, m, w, u, xs));
        }
        if map_word(a, m, w) {
            let (u, xs) = choose|u: Seq<usize>, xs: Seq<Seq<Seq<char>>>| #[trigger] map_split(a, m, w, u, xs);
            let n = choose|n: nat| #[trigger] derives(g, n, st_sym, u);
            crate::cfg::intersection_words::lemma_derived_in_range(g, a.nt(), n, st_sym, u);
            assert forall|k: int| 0 <= k < u.len() implies #[trigger] piece_of_entries(a, es, u[k], xs[k]) by {
                assert(piece_of_map(a, m, u[k], xs[k]));
            }
            assert(entries_split(a, es, w, u, xs));
        }
    }
}

} // verus!
