//! The words of a concatenation of grammars: one word of each grammar, in order.
use crate::cfg::cfg::{body_derives, derivable, derives, generates, split_ok, terminal_names, SymbolIndex, CFG};
use crate::cfg::construct::name_numbers;
use crate::cfg::generating::{lemma_derivable_unfold, lemma_terminal_generating};
use crate::cfg::intersection::lemma_head_from_words;
use crate::cfg::substitute::{concat_base_grammar, concat_substitutions, lemma_placeholder, placeholder, placeholders};
use crate::cfg::substitute_words::{map_split, map_word, piece_of_map, shape_generates};
use crate::cfg::terminal_words::{cut_words, lemma_split_words};
use crate::collections::grammar_shape;
use crate::language::word_of;
use vstd::prelude::*;

verus! {

/// Whether `w` is made of the words `ws`, one word of each grammar of
/// `cfgs`, in order.
pub open spec fn concat_split(cfgs: Seq<&CFG>, w: Seq<Seq<char>>, ws: Seq<Seq<Seq<char>>>) -> bool {
    &&& ws.len() == cfgs.len()
    &&& ws.flatten() == w
    &&& forall|i: int| 0 <= i < cfgs.len() ==> #[trigger] cfgs[i].generates_word(ws[i])
}

/// Whether `w` is one word of each grammar of `cfgs`, in order, put together.
pub open spec fn concatenated_word(cfgs: Seq<&CFG>, w: Seq<Seq<char>>) -> bool {
    exists|ws: Seq<Seq<Seq<char>>>| #[trigger] concat_split(cfgs, w, ws)
}

/// The numbers below `n`, in order.
pub open spec fn numbers_below(n: nat) -> Seq<usize> {
    Seq::new(n, |i: int| i as usize)
}

/// The one-number words of the numbers below `n`, put together, are those numbers.
proof fn lemma_singletons_flatten(n: nat)
    ensures
        Seq::new(n, |i: int| seq![i as usize]).flatten() == numbers_below(n),
    decreases n,
{
    let s = Seq::new(n, |i: int| seq![i as usize]);
    if n > 0 {
        lemma_singletons_flatten((n - 1) as nat);
        assert(s.drop_last() =~= Seq::new((n - 1) as nat, |i: int| seq![i as usize]));
        s.lemma_flatten_and_flatten_alt_are_equivalent();
        s.drop_last().lemma_flatten_and_flatten_alt_are_equivalent();
        assert(numbers_below(n) =~= numbers_below((n - 1) as nat) + seq![(n - 1) as usize]);
    } else {
        assert(s.flatten() =~= Seq::<usize>::empty());
    }
}

/// The grammar `S -> x_0 ... x_(n-1)` derives the place holders in order, and nothing else.
proof fn lemma_base_words(n: nat, u: Seq<usize>)
    requires
        n <= usize::MAX,
    ensures
        generates(concat_base_grammar(n), SymbolIndex::VariableIndex(0), u) <==> u == numbers_below(n),
{
    let g = concat_base_grammar(n);
    let body = Seq::new(n, |i: int| SymbolIndex::TerminalIndex(i as usize));
    assert(g[0][0] == body);
    let ones = Seq::new(n, |i: int| seq![i as usize]);
    lemma_singletons_flatten(n);
    if generates(g, SymbolIndex::VariableIndex(0), u) {
        let h = choose|h: nat| #[trigger] derives(g, h, SymbolIndex::VariableIndex(0), u);
        let m = (h - 1) as nat;
        lemma_derivable_unfold(g, m);
        let prev = derivable(g, m);
        let j = choose|j: int| 0 <= j < g[0].len() && #[trigger] body_derives(prev, g[0][j], u);
        assert(j == 0);
        let cuts = choose|cuts: Seq<int>| #[trigger] split_ok(prev, body, u, cuts);
        lemma_split_words(prev, body, u, cuts);
        let ws = cut_words(u, cuts, n);
        assert forall|i: int| 0 <= i < n implies #[trigger] ws[i] == ones[i] by {
            assert(prev(body[i], ws[i]));
            if m > 0 {
                lemma_derivable_unfold(g, (m - 1) as nat);
            }
        }
        assert(ws =~= ones);
    }
    if u == numbers_below(n) {
        assert forall|k: int| 0 <= k < ones.len() implies generates(g, #[trigger] g[0][0][k], ones[k]) by {
            lemma_terminal_generating(g, k as usize);
        }
        lemma_head_from_words(g, 0, 0, ones);
    }
}

/// The map of a concatenation sends each place holder below `n` to its grammar.
proof fn lemma_concat_map(cfgs: Seq<&CFG>, n: nat, i: int)
    requires
        0 <= i < n <= cfgs.len(),
    ensures
        concat_substitutions(cfgs, n).contains_key(placeholder(i as nat)),
        concat_substitutions(cfgs, n)[placeholder(i as nat)] == grammar_shape(*cfgs[i]),
    decreases n,
{
    if i < n - 1 {
        lemma_concat_map(cfgs, (n - 1) as nat, i);
        lemma_placeholder(i as nat, (n - 1) as nat);
    }
}

/// A place holder is numbered by its place.
proof fn lemma_placeholder_number(n: nat, i: int)
    requires
        0 <= i < n <= usize::MAX,
    ensures
        name_numbers(placeholders(n)).contains_key(placeholder(i as nat)),
        name_numbers(placeholders(n))[placeholder(i as nat)] == i,
{
    let ps = placeholders(n);
    assert(ps[i] == placeholder(i as nat));
    assert(ps.contains(placeholder(i as nat)));
    let j = ps.index_of(placeholder(i as nat));
    assert(ps[j] == placeholder(i as nat));
    lemma_placeholder(j as nat, i as nat);
    assert(j == i);
    assert(name_numbers(ps)[placeholder(i as nat)] == j as usize);
}

/// A grammar generates, by its terminal names, what its plain values generate.
proof fn lemma_shape_words(c: CFG, x: Seq<Seq<char>>)
    requires
        c.wf(),
    ensures
        shape_generates(grammar_shape(c), x) <==> c.generates_word(x),
{
    let st = SymbolIndex::VariableIndex(c.start_symbol);
    assert(crate::cfg::cfg::symbol_in(c.g(), c.nt(), st));
    if shape_generates(grammar_shape(c), x) {
        let u = choose|u: Seq<usize>| #[trigger] generates(c.g(), st, u) && u.map_values(|t: usize| word_of(c.terminals@)[t as int]) == x;
        let h = choose|h: nat| #[trigger] derives(c.g(), h, st, u);
        crate::cfg::intersection_words::lemma_derived_in_range(c.g(), c.nt(), h, st, u);
        assert(terminal_names(c.terminals@, u) =~= x);
    }
    if c.generates_word(x) {
        let u = choose|u: Seq<usize>| #[trigger] generates(c.g(), st, u) && terminal_names(c.terminals@, u) == x;
        let h = choose|h: nat| #[trigger] derives(c.g(), h, st, u);
        crate::cfg::intersection_words::lemma_derived_in_range(c.g(), c.nt(), h, st, u);
        assert(u.map_values(|t: usize| word_of(c.terminals@)[t as int]) =~= x);
        let sh = grammar_shape(c);
        assert(generates(sh.2, SymbolIndex::VariableIndex(sh.1), u) && u.map_values(|t: usize| sh.0[t as int]) == x);
    }
}

/// The words of the grammar `S -> x_0 ... x_(n-1)` with the grammars of a
/// concatenation substituted are one word of each grammar, in order.
pub proof fn lemma_concat_words(base: CFG, cfgs: Seq<&CFG>)
    requires
        base.wf(),
        cfgs.len() <= usize::MAX,
        forall|i: int| 0 <= i < cfgs.len() ==> (#[trigger] cfgs[i]).wf(),
        base.g() == concat_base_grammar(cfgs.len()),
        base.start_symbol == 0,
        word_of(base.terminals@) == placeholders(cfgs.len()),
        base.terminal_map@ == name_numbers(placeholders(cfgs.len())),
    ensures
        forall|w: Seq<Seq<char>>| #[trigger] map_word(base, concat_substitutions(cfgs, cfgs.len()), w) <==> concatenated_word(cfgs, w),
{
    let n = cfgs.len();
    let m = concat_substitutions(cfgs, n);
    let iota = numbers_below(n);
    assert(word_of(base.terminals@).len() == base.terminals@.len());
    assert(placeholders(n).len() == n);
    assert forall|i: int, x: Seq<Seq<char>>| 0 <= i < n implies #[trigger] piece_of_map(base, m, iota[i], x) == cfgs[i].generates_word(x) by {
        assert(iota[i] == i as usize);
        assert(base.terminals@[i]@ == word_of(base.terminals@)[i]);
        assert(placeholders(n)[i] == placeholder(i as nat));
        lemma_concat_map(cfgs, n, i);
        lemma_placeholder_number(n, i);
        lemma_shape_words(*cfgs[i], x);
    }
    assert forall|w: Seq<Seq<char>>| #[trigger] map_word(base, m, w) <==> concatenated_word(cfgs, w) by {
        if map_word(base, m, w) {
            let (u, xs) = choose|u: Seq<usize>, xs: Seq<Seq<Seq<char>>>| #[trigger] map_split(base, m, w, u, xs);
            lemma_base_words(n, u);
            assert forall|i: int| 0 <= i < cfgs.len() implies #[trigger] cfgs[i].generates_word(xs[i]) by {
                assert(piece_of_map(base, m, u[i], xs[i]));
            }
            assert(concat_split(cfgs, w, xs));
        }
        if concatenated_word(cfgs, w) {
            let ws = choose|ws: Seq<Seq<Seq<char>>>| #[trigger] concat_split(cfgs, w, ws);
            lemma_base_words(n, iota);
            assert forall|k: int| 0 <= k < iota.len() implies #[trigger] piece_of_map(base, m, iota[k], ws[k]) by {
                assert(cfgs[k].generates_word(ws[k]));
            }
            assert(map_split(base, m, w, iota, ws));
        }
    }
}

} // verus!
