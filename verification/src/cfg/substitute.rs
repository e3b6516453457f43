//! Substituting grammars for terminals of a grammar.
use crate::cfg::cfg::{clone_terminals, grammar_of, grammar_ok, symbol_in, SymbolIndex, CFG};
use crate::cfg::construct::{
    body_terminals, body_variables, bodies_of_head, encode_body, name_numbers, numbered_within, production_terminals,
    production_variables, productions_grammar, with_name,
};
use crate::cfg::production::{Production, Symbol};
use crate::cfg::variable::Variable;
use crate::input_symbol::{epsilon_name, epsilon_names};
use crate::text::{decimal, lemma_decimal_injective, name_with_number};
use crate::cfg::terminal::Terminal;
use crate::collections::{entry_shapes, grammar_shape, lists, SubstitutionMap, TerminalMap};
use crate::fa::combine::{indexes, lemma_merge_symbols, merge_symbols};
use crate::language::word_of;
use crate::cfg::concat_words::{concat_split, concatenated_word, lemma_concat_words};
use crate::cfg::substitute_words::{entries_word, lemma_entries_map, lemma_substitution_entries, map_word};
use vstd::prelude::*;

verus! {

/// Symbol `s` of a grammar being added: terminal `i` renumbered to
/// `tmap[i]`, variable `j` moved to `j + base`.
pub open spec fn moved_symbol(s: SymbolIndex, tmap: Seq<usize>, base: nat) -> SymbolIndex {
    match s {
        SymbolIndex::TerminalIndex(i) => SymbolIndex::TerminalIndex(tmap[i as int]),
        SymbolIndex::VariableIndex(j) => SymbolIndex::VariableIndex((j + base) as usize),
    }
}

/// The body `b` with every symbol moved as `moved_symbol` says.
pub open spec fn moved_body(b: Seq<SymbolIndex>, tmap: Seq<usize>, base: nat) -> Seq<SymbolIndex> {
    b.map_values(|s: SymbolIndex| moved_symbol(s, tmap, base))
}

/// The productions `g` with every symbol moved as `moved_symbol` says.
pub open spec fn moved_grammar(g: Seq<Seq<Seq<SymbolIndex>>>, tmap: Seq<usize>, base: nat) -> Seq<Seq<Seq<SymbolIndex>>> {
    g.map_values(|row: Seq<Seq<SymbolIndex>>| row.map_values(|b: Seq<SymbolIndex>| moved_body(b, tmap, base)))
}

/// Symbol `s` with terminal `i` replaced by `sub[i]`.
pub open spec fn replaced_symbol(s: SymbolIndex, sub: Seq<SymbolIndex>) -> SymbolIndex {
    match s {
        SymbolIndex::TerminalIndex(i) => sub[i as int],
        SymbolIndex::VariableIndex(j) => SymbolIndex::VariableIndex(j),
    }
}

/// The body `b` with every terminal replaced as `replaced_symbol` says.
pub open spec fn replaced_body(b: Seq<SymbolIndex>, sub: Seq<SymbolIndex>) -> Seq<SymbolIndex> {
    b.map_values(|s: SymbolIndex| replaced_symbol(s, sub))
}

/// The productions `g` with every terminal replaced as `replaced_symbol` says.
pub open spec fn replaced_grammar(g: Seq<Seq<Seq<SymbolIndex>>>, sub: Seq<SymbolIndex>) -> Seq<Seq<Seq<SymbolIndex>>> {
    g.map_values(|row: Seq<Seq<SymbolIndex>>| row.map_values(|b: Seq<SymbolIndex>| replaced_body(b, sub)))
}

/// Whether a grammar given as plain values is in range: its bodies and its start.
pub open spec fn shape_ok(s: (Seq<Seq<char>>, usize, Seq<Seq<Seq<SymbolIndex>>>)) -> bool {
    grammar_ok(s.2, s.0.len()) && s.1 < s.2.len()
}

/// The number of productions that the grammars of `es` have in all.
pub open spec fn entries_rows(es: Seq<(Seq<char>, (Seq<Seq<char>>, usize, Seq<Seq<Seq<SymbolIndex>>>))>) -> nat
    decreases es.len(),
{
    if es.len() == 0 {
        0
    } else {
        entries_rows(es.drop_last()) + es.last().1.2.len()
    }
}

/// The number of terminals that the grammars of `es` have in all.
pub open spec fn entries_terms(es: Seq<(Seq<char>, (Seq<Seq<char>>, usize, Seq<Seq<Seq<SymbolIndex>>>))>) -> nat
    decreases es.len(),
{
    if es.len() == 0 {
        0
    } else {
        entries_terms(es.drop_last()) + es.last().1.0.len()
    }
}

/// Where substituting the entries `es`, in order, into a grammar with the
/// terminal map `own`, `nv` variables and the terminals `init` has got to:
/// the terminal map and terminal names so far, what each terminal of the
/// grammar becomes, and the productions added after its own. An entry
/// whose name `own` lacks is passed over; otherwise its grammar's
/// productions are added with its variables numbered after those so far
/// and its terminals merged into the terminals so far, and the terminal of
/// that name becomes its start variable.
pub open spec fn substitution_state(
    own: Map<Seq<char>, usize>,
    nv: nat,
    init: Seq<Seq<char>>,
    es: Seq<(Seq<char>, (Seq<Seq<char>>, usize, Seq<Seq<Seq<SymbolIndex>>>))>,
) -> (Map<Seq<char>, usize>, Seq<Seq<char>>, Seq<SymbolIndex>, Seq<Seq<Seq<SymbolIndex>>>)
    decreases es.len(),
{
    if es.len() == 0 {
        (own, init, Seq::new(init.len(), |i: int| SymbolIndex::TerminalIndex(i as usize)), Seq::empty())
    } else {
        let prev = substitution_state(own, nv, init, es.drop_last());
        let e = es.last();
        if !own.contains_key(e.0) {
            prev
        } else {
            let base = nv + prev.3.len();
            let merged = merge_symbols(prev.0, prev.1, e.1.0);
            let tmap = Seq::new(e.1.0.len(), |i: int| merged.0[e.1.0[i]]);
            (
                merged.0,
                merged.1,
                prev.2.update(own[e.0] as int, SymbolIndex::VariableIndex((e.1.1 + base) as usize)),
                prev.3 + moved_grammar(e.1.2, tmap, base),
            )
        }
    }
}

/// Whether every symbol of every body of `g` is numbered within `nv` variables and `nt` terminals.
pub open spec fn rows_within(g: Seq<Seq<Seq<SymbolIndex>>>, nv: nat, nt: nat) -> bool {
    forall|v: int, j: int, k: int|
        0 <= v < g.len() && 0 <= j < g[v].len() && 0 <= k < g[v][j].len() ==> numbered_within(#[trigger] g[v][j][k], nv, nt)
}

/// The terminal names and the productions of the grammar that
/// substituting the entries `es`, in order, into the grammar with the
/// terminal map `own`, the terminals `terms` and the productions `g` gives:
/// the own productions with each terminal replaced by what it becomes, then
/// the productions added.
pub open spec fn substitution_result(
    own: Map<Seq<char>, usize>,
    terms: Seq<Seq<char>>,
    g: Seq<Seq<Seq<SymbolIndex>>>,
    es: Seq<(Seq<char>, (Seq<Seq<char>>, usize, Seq<Seq<Seq<SymbolIndex>>>))>,
) -> (Seq<Seq<char>>, Seq<Seq<Seq<SymbolIndex>>>) {
    let st = substitution_state(own, g.len(), terms, es);
    (st.1, replaced_grammar(g, st.2) + st.3)
}

impl CFG {
    /// What substituting the entries `es`, in order, into `self` gives.
    pub open spec fn substituted(
        &self,
        es: Seq<(Seq<char>, (Seq<Seq<char>>, usize, Seq<Seq<Seq<SymbolIndex>>>))>,
    ) -> (Seq<Seq<char>>, Seq<Seq<Seq<SymbolIndex>>>) {
        substitution_result(self.terminal_map@, word_of(self.terminals@), self.g(), es)
    }
}

/// What substituting keeps in range.
pub proof fn lemma_substitution_state(
    own: Map<Seq<char>, usize>,
    nv: nat,
    init: Seq<Seq<char>>,
    es: Seq<(Seq<char>, (Seq<Seq<char>>, usize, Seq<Seq<Seq<SymbolIndex>>>))>,
)
    requires
        indexes(own, init),
        forall|i: int| 0 <= i < es.len() ==> shape_ok(#[trigger] es[i].1),
        init.len() + entries_terms(es) <= usize::MAX,
        nv + entries_rows(es) <= usize::MAX,
    ensures
        ({
            let st = substitution_state(own, nv, init, es);
            &&& indexes(st.0, st.1)
            &&& init.len() <= st.1.len() <= init.len() + entries_terms(es)
            &&& st.3.len() <= entries_rows(es)
            &&& st.2.len() == init.len()
            &&& forall|i: int| 0 <= i < st.2.len() ==> numbered_within(#[trigger] st.2[i], nv + st.3.len(), st.1.len())
            &&& rows_within(st.3, nv + st.3.len(), st.1.len())
        }),
    decreases es.len(),
{
    let st = substitution_state(own, nv, init, es);
    if es.len() == 0 {
        assert forall|i: int| 0 <= i < st.2.len() implies numbered_within(#[trigger] st.2[i], nv + st.3.len(), st.1.len()) by {}
    } else {
        let rest = es.drop_last();
        assert forall|i: int| 0 <= i < rest.len() implies shape_ok(#[trigger] rest[i].1) by {
            assert(rest[i] == es[i]);
        }
        lemma_substitution_state(own, nv, init, rest);
        let prev = substitution_state(own, nv, init, rest);
        let e = es.last();
        assert(shape_ok(es[es.len() - 1].1));
        if own.contains_key(e.0) {
            let base = nv + prev.3.len();
            lemma_merge_symbols(prev.0, prev.1, e.1.0);
            let merged = merge_symbols(prev.0, prev.1, e.1.0);
            let tmap = Seq::new(e.1.0.len(), |i: int| merged.0[e.1.0[i]]);
            let added = moved_grammar(e.1.2, tmap, base);
            let nv2 = nv + st.3.len();
            assert(st.3.len() == prev.3.len() + e.1.2.len());
            assert forall|i: int| 0 <= i < st.2.len() implies numbered_within(#[trigger] st.2[i], nv2, st.1.len()) by {
                if i != own[e.0] as int {
                    assert(numbered_within(prev.2[i], nv + prev.3.len(), prev.1.len()));
                }
            }
            assert forall|v: int, j: int, k: int|
                0 <= v < st.3.len() && 0 <= j < st.3[v].len() && 0 <= k < st.3[v][j].len() implies numbered_within(#[trigger] st.3[v][j][k], nv2, st.1.len()) by {
                if v < prev.3.len() {
                    assert(st.3[v] == prev.3[v]);
                    assert(numbered_within(prev.3[v][j][k], nv + prev.3.len(), prev.1.len()));
                } else {
                    let w = v - prev.3.len();
                    assert(st.3[v] == added[w]);
                    let s = e.1.2[w][j][k];
                    assert(symbol_in(e.1.2, e.1.0.len(), s));
                    match s {
                        SymbolIndex::TerminalIndex(t) => {
                            assert(merged.0.contains_key(e.1.0[t as int]));
                        },
                        SymbolIndex::VariableIndex(x) => {},
                    }
                }
            }
        }
    }
}

/// `b` with every symbol moved as `moved_symbol` says.
fn move_body(b: &Vec<SymbolIndex>, tmap: &Vec<usize>, base: usize) -> (r: Vec<SymbolIndex>)
    requires
        forall|k: int| 0 <= k < b@.len() ==> match #[trigger] b@[k] {
            SymbolIndex::TerminalIndex(i) => i < tmap@.len(),
            SymbolIndex::VariableIndex(j) => j + base <= usize::MAX,
        },
    ensures
        r@ == moved_body(b@, tmap@, base as nat),
{
    let mut r: Vec<SymbolIndex> = Vec::new();
    let mut k: usize = 0;
    while k < b.len()
        invariant
            k <= b@.len(),
            forall|k: int| 0 <= k < b@.len() ==> match #[trigger] b@[k] {
                SymbolIndex::TerminalIndex(i) => i < tmap@.len(),
                SymbolIndex::VariableIndex(j) => j + base <= usize::MAX,
            },
            r@ == moved_body(b@.take(k as int), tmap@, base as nat),
        decreases b@.len() - k,
    {
        let s = match b[k] {
            SymbolIndex::TerminalIndex(i) => SymbolIndex::TerminalIndex(tmap[i]),
            SymbolIndex::VariableIndex(j) => SymbolIndex::VariableIndex(j + base),
        };
        r.push(s);
        proof {
            assert(moved_body(b@.take(k + 1), tmap@, base as nat) =~= moved_body(b@.take(k as int), tmap@, base as nat).push(s));
        }
        k = k + 1;
    }
    proof {
        assert(b@.take(k as int) =~= b@);
    }
    r
}

/// `b` with every terminal replaced as `replaced_symbol` says.
fn replace_body(b: &Vec<SymbolIndex>, sub: &Vec<SymbolIndex>) -> (r: Vec<SymbolIndex>)
    requires
        forall|k: int| 0 <= k < b@.len() ==> match #[trigger] b@[k] {
            SymbolIndex::TerminalIndex(i) => i < sub@.len(),
            SymbolIndex::VariableIndex(j) => true,
        },
    ensures
        r@ == replaced_body(b@, sub@),
{
    let mut r: Vec<SymbolIndex> = Vec::new();
    let mut k: usize = 0;
    while k < b.len()
        invariant
            k <= b@.len(),
            forall|k: int| 0 <= k < b@.len() ==> match #[trigger] b@[k] {
                SymbolIndex::TerminalIndex(i) => i < sub@.len(),
                SymbolIndex::VariableIndex(j) => true,
            },
            r@ == replaced_body(b@.take(k as int), sub@),
        decreases b@.len() - k,
    {
        let s = match b[k] {
            SymbolIndex::TerminalIndex(i) => sub[i],
            SymbolIndex::VariableIndex(j) => SymbolIndex::VariableIndex(j),
        };
        r.push(s);
        proof {
            assert(replaced_body(b@.take(k + 1), sub@) =~= replaced_body(b@.take(k as int), sub@).push(s));
        }
        k = k + 1;
    }
    proof {
        assert(b@.take(k as int) =~= b@);
    }
    r
}

/// Merges the terminals `add` into the terminals `terms` and their map:
/// the number that each of `add` ends up with.
fn merge_terminals(map: &mut TerminalMap, terms: &mut Vec<Terminal>, add: &Vec<Terminal>) -> (tm: Vec<usize>)
    requires
        indexes(old(map)@, word_of(old(terms)@)),
        old(terms)@.len() + add@.len() <= usize::MAX,
    ensures
        (final(map)@, word_of(final(terms)@)) == merge_symbols(old(map)@, word_of(old(terms)@), word_of(add@)),
        tm@ == Seq::new(add@.len(), |i: int| final(map)@[word_of(add@)[i]]),
{
    let ghost names = word_of(add@);
    let ghost map0 = map@;
    let ghost alpha0 = word_of(terms@);
    let mut tm: Vec<usize> = Vec::new();
    proof {
        lemma_merge_symbols(map0, alpha0, names);
        assert(names.take(0) =~= Seq::<Seq<char>>::empty());
    }
    let mut i: usize = 0;
    while i < add.len()
        invariant
            names == word_of(add@),
            indexes(map0, alpha0),
            alpha0.len() + names.len() <= usize::MAX,
            i <= names.len(),
            (map@, word_of(terms@)) == merge_symbols(map0, alpha0, names.take(i as int)),
            tm@.len() == i,
            forall|k: int| 0 <= k < i ==> map@.contains_key(#[trigger] names[k]),
            forall|k: int| 0 <= k < i ==> #[trigger] tm@[k] == map@[names[k]],
        decreases names.len() - i,
    {
        proof {
            lemma_merge_symbols(map0, alpha0, names.take(i as int));
            assert(names.take(i + 1).drop_last() =~= names.take(i as int));
            assert(names[i as int] == add@[i as int]@);
        }
        let ghost old_map = map@;
        let ghost old_tm = tm@;
        let sym = &add[i];
        match map.get(sym) {
            Some(j) => {
                tm.push(j);
            },
            None => {
                let n = terms.len();
                let ghost old_terms = terms@;
                terms.push(sym.clone());
                map.insert(sym.clone(), n);
                tm.push(n);
                proof {
                    assert(word_of(terms@) =~= word_of(old_terms).push(sym@));
                }
            },
        }
        proof {
            assert forall|k: int| 0 <= k < i + 1 implies map@.contains_key(#[trigger] names[k]) by {
                if k < i {
                    assert(old_map.contains_key(names[k]));
                }
            }
            assert forall|k: int| 0 <= k < i + 1 implies #[trigger] tm@[k] == map@[names[k]] by {
                if k < i {
                    assert(old_map.contains_key(names[k]));
                    assert(old_tm[k] == old_map[names[k]]);
                    assert(tm@[k] == old_tm[k]);
                }
            }
        }
        i = i + 1;
    }
    proof {
        assert(names.take(i as int) =~= names);
        assert(tm@ =~= Seq::new(add@.len(), |i: int| map@[word_of(add@)[i]]));
    }
    tm
}

/// Appends to `extra` the productions `prods` with every symbol moved as `moved_symbol` says.
fn move_rows(prods: &Vec<Vec<Vec<SymbolIndex>>>, tmap: &Vec<usize>, base: usize, extra: &mut Vec<Vec<Vec<SymbolIndex>>>)
    requires
        grammar_ok(grammar_of(prods@), tmap@.len()),
        base + prods@.len() <= usize::MAX,
    ensures
        grammar_of(final(extra)@) == grammar_of(old(extra)@) + moved_grammar(grammar_of(prods@), tmap@, base as nat),
{
    let ghost g = grammar_of(prods@);
    let ghost e0 = grammar_of(extra@);
    let mut q: usize = 0;
    while q < prods.len()
        invariant
            g == grammar_of(prods@),
            grammar_ok(g, tmap@.len()),
            base + prods@.len() <= usize::MAX,
            q <= prods@.len(),
            grammar_of(extra@) == e0 + moved_grammar(g.take(q as int), tmap@, base as nat),
        decreases prods@.len() - q,
    {
        let row = &prods[q];
        let mut new_row: Vec<Vec<SymbolIndex>> = Vec::new();
        let mut j: usize = 0;
        while j < row.len()
            invariant
                g == grammar_of(prods@),
                grammar_ok(g, tmap@.len()),
                base + prods@.len() <= usize::MAX,
                q < prods@.len(),
                row@ == prods@[q as int]@,
                j <= row@.len(),
                new_row@.len() == j,
                forall|x: int| 0 <= x < j ==> #[trigger] new_row@[x]@ == moved_body(row@[x]@, tmap@, base as nat),
            decreases row@.len() - j,
        {
            proof {
                assert forall|k: int| 0 <= k < row@[j as int]@.len() implies match #[trigger] row@[j as int]@[k] {
                    SymbolIndex::TerminalIndex(i) => i < tmap@.len(),
                    SymbolIndex::VariableIndex(v) => v + base <= usize::MAX,
                } by {
                    assert(g[q as int][j as int][k] == row@[j as int]@[k]);
                    assert(symbol_in(g, tmap@.len(), g[q as int][j as int][k]));
                }
            }
            let b = move_body(&row[j], tmap, base);
            new_row.push(b);
            j = j + 1;
        }
        let ghost before = extra@;
        extra.push(new_row);
        proof {
            assert(grammar_of(extra@) =~= grammar_of(before).push(grammar_of(extra@)[before.len() as int]));
            assert(grammar_of(extra@)[before.len() as int] =~= moved_grammar(g, tmap@, base as nat)[q as int]);
            assert(g.take(q + 1) =~= g.take(q as int).push(g[q as int]));
            assert(moved_grammar(g.take(q + 1), tmap@, base as nat) =~= moved_grammar(g.take(q as int), tmap@, base as nat).push(
                moved_grammar(g, tmap@, base as nat)[q as int],
            ));
            assert(grammar_of(extra@) =~= e0 + moved_grammar(g.take(q + 1), tmap@, base as nat));
        }
        q = q + 1;
    }
    proof {
        assert(g.take(q as int) =~= g);
    }
}

/// The productions `prods` with every terminal replaced as `replaced_symbol` says.
fn replace_rows(prods: &Vec<Vec<Vec<SymbolIndex>>>, sub: &Vec<SymbolIndex>) -> (r: Vec<Vec<Vec<SymbolIndex>>>)
    requires
        forall|v: int, j: int, k: int|
            0 <= v < grammar_of(prods@).len() && 0 <= j < grammar_of(prods@)[v].len() && 0 <= k < grammar_of(prods@)[v][j].len()
                ==> match #[trigger] grammar_of(prods@)[v][j][k] {
                    SymbolIndex::TerminalIndex(i) => i < sub@.len(),
                    SymbolIndex::VariableIndex(x) => true,
                },
    ensures
        grammar_of(r@) == replaced_grammar(grammar_of(prods@), sub@),
{
    let ghost g = grammar_of(prods@);
    let mut r: Vec<Vec<Vec<SymbolIndex>>> = Vec::new();
    let mut q: usize = 0;
    while q < prods.len()
        invariant
            g == grammar_of(prods@),
            forall|v: int, j: int, k: int|
                0 <= v < g.len() && 0 <= j < g[v].len() && 0 <= k < g[v][j].len() ==> match #[trigger] g[v][j][k] {
                    SymbolIndex::TerminalIndex(i) => i < sub@.len(),
                    SymbolIndex::VariableIndex(x) => true,
                },
            q <= prods@.len(),
            grammar_of(r@) == replaced_grammar(g.take(q as int), sub@),
        decreases prods@.len() - q,
    {
        let row = &prods[q];
        let mut new_row: Vec<Vec<SymbolIndex>> = Vec::new();
        let mut j: usize = 0;
        while j < row.len()
            invariant
                g == grammar_of(prods@),
                forall|v: int, j: int, k: int|
                    0 <= v < g.len() && 0 <= j < g[v].len() && 0 <= k < g[v][j].len() ==> match #[trigger] g[v][j][k] {
                        SymbolIndex::TerminalIndex(i) => i < sub@.len(),
                        SymbolIndex::VariableIndex(x) => true,
                    },
                q < prods@.len(),
                row@ == prods@[q as int]@,
                j <= row@.len(),
                new_row@.len() == j,
                forall|x: int| 0 <= x < j ==> #[trigger] new_row@[x]@ == replaced_body(row@[x]@, sub@),
            decreases row@.len() - j,
        {
            proof {
                assert forall|k: int| 0 <= k < row@[j as int]@.len() implies match #[trigger] row@[j as int]@[k] {
                    SymbolIndex::TerminalIndex(i) => i < sub@.len(),
                    SymbolIndex::VariableIndex(x) => true,
                } by {
                    assert(g[q as int][j as int][k] == row@[j as int]@[k]);
                }
            }
            let b = replace_body(&row[j], sub);
            new_row.push(b);
            j = j + 1;
        }
        let ghost before = r@;
        r.push(new_row);
        proof {
            assert(grammar_of(r@) =~= grammar_of(before).push(grammar_of(r@)[before.len() as int]));
            assert(grammar_of(r@)[before.len() as int] =~= replaced_grammar(g, sub@)[q as int]);
            assert(g.take(q + 1) =~= g.take(q as int).push(g[q as int]));
            assert(replaced_grammar(g.take(q + 1), sub@) =~= replaced_grammar(g.take(q as int), sub@).push(replaced_grammar(g, sub@)[q as int]));
            assert(grammar_of(r@) =~= replaced_grammar(g.take(q + 1), sub@));
        }
        q = q + 1;
    }
    proof {
        assert(g.take(q as int) =~= g);
    }
    r
}

/// A prefix of the entries has no more productions and terminals than all of them.
pub proof fn lemma_entries_prefix(es: Seq<(Seq<char>, (Seq<Seq<char>>, usize, Seq<Seq<Seq<SymbolIndex>>>))>, k: int)
    requires
        0 <= k <= es.len(),
    ensures
        entries_terms(es.take(k)) <= entries_terms(es),
        entries_rows(es.take(k)) <= entries_rows(es),
    decreases es.len(),
{
    if k < es.len() {
        lemma_entries_prefix(es.drop_last(), k);
        assert(es.drop_last().take(k) =~= es.take(k));
    } else {
        assert(es.take(k) =~= es);
    }
}

impl CFG {
    /// The grammar with the entries `entries` substituted, in order: for each
    /// entry whose terminal the grammar has, the productions of its grammar
    /// are added (its variables numbered after those so far, its terminals
    /// merged into the terminals so far) and the terminal is replaced, in
    /// the grammar's own productions, by the entry grammar's start variable.
    pub fn substitute_entries(&self, entries: &Vec<(Terminal, CFG)>) -> (r: CFG)
        requires
            self.wf(),
            forall|i: int| 0 <= i < entries@.len() ==> shape_ok(#[trigger] entry_shapes(entries@)[i].1),
            self.terminals@.len() + entries_terms(entry_shapes(entries@)) <= usize::MAX,
            self.g().len() + entries_rows(entry_shapes(entries@)) <= usize::MAX,
        ensures
            r.wf(),
            word_of(r.terminals@) == self.substituted(entry_shapes(entries@)).0,
            r.g() == self.substituted(entry_shapes(entries@)).1,
            r.start_symbol == self.start_symbol,
            r._is_cleaned is None,
            r._in_normal_form is None,
            forall|w: Seq<Seq<char>>| #[trigger] r.generates_word(w) <==> entries_word(*self, entry_shapes(entries@), w),
    {
        let ghost es = entry_shapes(entries@);
        let ghost own = self.terminal_map@;
        let ghost init = word_of(self.terminals@);
        let nv = self.productions.len();
        let mut terms = clone_terminals(&self.terminals);
        let mut map = self.terminal_map.clone();
        let mut sub: Vec<SymbolIndex> = Vec::new();
        let mut i: usize = 0;
        while i < self.terminals.len()
            invariant
                i <= self.terminals@.len(),
                sub@ == Seq::new(i as nat, |k: int| SymbolIndex::TerminalIndex(k as usize)),
            decreases self.terminals@.len() - i,
        {
            sub.push(SymbolIndex::TerminalIndex(i));
            proof {
                assert(sub@ =~= Seq::new((i + 1) as nat, |k: int| SymbolIndex::TerminalIndex(k as usize)));
            }
            i = i + 1;
        }
        let mut extra: Vec<Vec<Vec<SymbolIndex>>> = Vec::new();
        proof {
            assert(es.take(0) =~= Seq::<(Seq<char>, (Seq<Seq<char>>, usize, Seq<Seq<Seq<SymbolIndex>>>))>::empty());
            assert forall|x: Seq<char>| #[trigger] own.contains_key(x) implies own[x] < init.len() && init[own[x] as int] == x by {
                assert(self.terminal_map@.contains_key(x));
            }
            assert(grammar_of(extra@) =~= Seq::<Seq<Seq<SymbolIndex>>>::empty());
        }
        let mut e: usize = 0;
        while e < entries.len()
            invariant
                self.wf(),
                es == entry_shapes(entries@),
                own == self.terminal_map@,
                init == word_of(self.terminals@),
                nv == self.g().len(),
                indexes(own, init),
                forall|i: int| 0 <= i < entries@.len() ==> shape_ok(#[trigger] es[i].1),
                init.len() + entries_terms(es) <= usize::MAX,
                nv + entries_rows(es) <= usize::MAX,
                e <= es.len(),
                map@ == substitution_state(own, nv as nat, init, es.take(e as int)).0,
                word_of(terms@) == substitution_state(own, nv as nat, init, es.take(e as int)).1,
                sub@ == substitution_state(own, nv as nat, init, es.take(e as int)).2,
                grammar_of(extra@) == substitution_state(own, nv as nat, init, es.take(e as int)).3,
            decreases es.len() - e,
        {
            let ghost pre = es.take(e as int);
            let ghost st = substitution_state(own, nv as nat, init, pre);
            proof {
                assert forall|i: int| 0 <= i < pre.len() implies shape_ok(#[trigger] pre[i].1) by {
                    assert(pre[i] == es[i]);
                }
                lemma_entries_prefix(es, e as int);
                lemma_entries_prefix(es, e + 1);
                lemma_substitution_state(own, nv as nat, init, pre);
                assert(es.take(e + 1).drop_last() =~= pre);
                assert(es.take(e + 1).last() == es[e as int]);
                assert(es[e as int] == (entries@[e as int].0@, grammar_shape(entries@[e as int].1)));
            }
            let t = &entries[e].0;
            let g = &entries[e].1;
            match self.terminal_map.get(t) {
                None => {},
                Some(ix) => {
                    let base = nv + extra.len();
                    proof {
                        assert(shape_ok(es[e as int].1));
                        assert(g.start_symbol < g.g().len());
                        assert(extra@.len() == st.3.len());
                    }
                    sub.set(ix, SymbolIndex::VariableIndex(g.start_symbol + base));
                    let tm = merge_terminals(&mut map, &mut terms, &g.terminals);
                    proof {
                        assert(grammar_ok(grammar_of(g.productions@), tm@.len()));
                    }
                    move_rows(&g.productions, &tm, base, &mut extra);
                    proof {
                        let merged = merge_symbols(st.0, st.1, word_of(g.terminals@));
                        assert(tm@ =~= Seq::new(word_of(g.terminals@).len(), |i: int| merged.0[word_of(g.terminals@)[i]]));
                    }
                },
            }
            e = e + 1;
        }
        proof {
            assert(es.take(e as int) =~= es);
            lemma_substitution_state(own, nv as nat, init, es);
        }
        let ghost st = substitution_state(own, nv as nat, init, es);
        let mut prods = replace_rows(&self.productions, &sub);
        let ghost own_rows = grammar_of(prods@);
        let mut extra2 = extra;
        prods.append(&mut extra2);
        let r = CFG::new(None, terms, self.start_symbol, prods);
        proof {
            assert(r.g() =~= own_rows + st.3);
            let nvr = r.g().len();
            assert(nvr == nv + st.3.len());
            assert forall|v: int, j: int, k: int| 0 <= v < r.g().len() && 0 <= j < r.g()[v].len() && 0 <= k < r.g()[v][j].len()
                implies symbol_in(r.g(), r.nt(), #[trigger] r.g()[v][j][k]) by {
                if v < nv {
                    let s0 = self.g()[v][j][k];
                    assert(symbol_in(self.g(), self.nt(), s0));
                    assert(r.g()[v][j][k] == replaced_symbol(s0, st.2));
                    match s0 {
                        SymbolIndex::TerminalIndex(t) => {
                            assert(numbered_within(st.2[t as int], (nv + st.3.len()) as nat, st.1.len()));
                        },
                        SymbolIndex::VariableIndex(x) => {},
                    }
                } else {
                    assert(r.g()[v] == st.3[v - nv]);
                    assert(numbered_within(st.3[v - nv][j][k], (nv + st.3.len()) as nat, st.1.len()));
                }
            }
            lemma_substitution_entries(*self, es, r);
        }
        r
    }
}

impl CFG {
    /// The grammar with the grammars of `substitutions` substituted for
    /// the terminals of those names, as `substitute_entries` does, the
    /// entries taken in the order in which the map is walked.
    pub fn substitute(&self, substitutions: &SubstitutionMap) -> (r: CFG)
        requires
            self.wf(),
            forall|k: Seq<char>| #[trigger] substitutions@.contains_key(k) ==> shape_ok(substitutions@[k]),
            forall|es: Seq<(Seq<char>, (Seq<Seq<char>>, usize, Seq<Seq<Seq<SymbolIndex>>>))>| #[trigger] lists(es, substitutions@)
                ==> self.terminals@.len() + entries_terms(es) <= usize::MAX && self.g().len() + entries_rows(es) <= usize::MAX,
        ensures
            r.wf(),
            r.start_symbol == self.start_symbol,
            r._is_cleaned is None,
            r._in_normal_form is None,
            exists|es: Seq<(Seq<char>, (Seq<Seq<char>>, usize, Seq<Seq<Seq<SymbolIndex>>>))>| #[trigger] lists(es, substitutions@)
                && word_of(r.terminals@) == self.substituted(es).0 && r.g() == self.substituted(es).1,
            forall|w: Seq<Seq<char>>| #[trigger] r.generates_word(w) <==> map_word(*self, substitutions@, w),
    {
        let entries = substitutions.entries();
        proof {
            let es = entry_shapes(entries@);
            assert forall|i: int| 0 <= i < entries@.len() implies shape_ok(#[trigger] entry_shapes(entries@)[i].1) by {
                assert(substitutions@.contains_key(es[i].0));
            }
        }
        let r = self.substitute_entries(&entries);
        proof {
            lemma_entries_map(*self, entry_shapes(entries@), substitutions@);
        }
        r
    }
}

/// The name of the place holder numbered `i` in a concatenation: `x_`
/// followed by the number.
pub open spec fn placeholder(i: nat) -> Seq<char> {
    seq!['x', '_'] + decimal(i)
}

/// The names of the first `n` place holders.
pub open spec fn placeholders(n: nat) -> Seq<Seq<char>> {
    Seq::new(n, |i: int| placeholder(i as nat))
}

/// The productions of the grammar `S -> x_0 ... x_(n-1)` by numbers.
pub open spec fn concat_base_grammar(n: nat) -> Seq<Seq<Seq<SymbolIndex>>> {
    seq![seq![Seq::new(n, |i: int| SymbolIndex::TerminalIndex(i as usize))]]
}

/// The substitutions of a concatenation of the first `n` grammars of
/// `cfgs`: each place holder by its grammar.
pub open spec fn concat_substitutions(cfgs: Seq<&CFG>, n: nat) -> Map<Seq<char>, (Seq<Seq<char>>, usize, Seq<Seq<Seq<SymbolIndex>>>)>
    decreases n,
{
    if n == 0 {
        Map::empty()
    } else {
        concat_substitutions(cfgs, (n - 1) as nat).insert(placeholder((n - 1) as nat), grammar_shape(*cfgs[n - 1]))
    }
}

/// The two grammars `a` and `b`, in order.
pub open spec fn two_grammars<'a>(a: &'a CFG, b: &'a CFG) -> Seq<&'a CFG> {
    seq![a, b]
}

/// The body `x_0 ... x_(k-1)`.
pub open spec fn placeholder_body(body: Seq<Symbol>) -> bool {
    forall|i: int| 0 <= i < body.len() ==> (#[trigger] body[i] matches Symbol::T(t) && t@ == placeholder(i as nat))
}

/// Place holders differ from one another and from the names of epsilon.
pub proof fn lemma_placeholder(i: nat, j: nat)
    ensures
        placeholder(i) == placeholder(j) ==> i == j,
        !epsilon_names().contains(placeholder(i)),
{
    if placeholder(i) == placeholder(j) {
        assert(decimal(i) =~= placeholder(i).subrange(2, placeholder(i).len() as int));
        assert(decimal(j) =~= placeholder(j).subrange(2, placeholder(j).len() as int));
        lemma_decimal_injective(i, j);
    }
    if epsilon_names().contains(placeholder(i)) {
        let k = choose|k: int| 0 <= k < 5 && epsilon_names()[k] == placeholder(i);
        assert(placeholder(i)[0] == 'x');
        assert(epsilon_names()[k][0] != 'x');
    }
}

/// What the productions `S -> x_0 ... x_(k-1)` give.
pub proof fn lemma_placeholder_body(body: Seq<Symbol>, vars: Seq<Seq<char>>, n: nat)
    requires
        placeholder_body(body),
        body.len() <= n,
    ensures
        body_variables(vars, body) == vars,
        body_terminals(Seq::empty(), body) == placeholders(body.len()),
        encode_body(vars, placeholders(n), body) == Seq::new(body.len(), |i: int| SymbolIndex::TerminalIndex(i as usize)),
    decreases body.len(),
{
    if body.len() > 0 {
        let k = body.len() - 1;
        let rest = body.drop_last();
        assert forall|i: int| 0 <= i < rest.len() implies (#[trigger] rest[i] matches Symbol::T(t) && t@ == placeholder(i as nat)) by {
            assert(rest[i] == body[i]);
        }
        lemma_placeholder_body(rest, vars, n);
        assert(body[k] == body.last());
        let x = placeholder(k as nat);
        lemma_placeholder(k as nat, k as nat);
        assert(!placeholders(k as nat).contains(x)) by {
            if placeholders(k as nat).contains(x) {
                let j = choose|j: int| 0 <= j < k && #[trigger] placeholders(k as nat)[j] == x;
                lemma_placeholder(j as nat, k as nat);
            }
        }
        assert(placeholders(k as nat).push(x) =~= placeholders(body.len()));
        let ps = placeholders(n);
        assert(ps[k] == x);
        let ix = ps.index_of(x);
        assert(ps.contains(x));
        assert(ps[ix] == x);
        lemma_placeholder(ix as nat, k as nat);
        assert(encode_body(vars, ps, body) =~= Seq::new(body.len(), |i: int| SymbolIndex::TerminalIndex(i as usize)));
    }
}

impl CFG {
    /// The concatenation of the grammars `cfgs`: the grammar
    /// `S -> x_0 ... x_(n-1)` with the grammar `cfgs[i]` substituted for
    /// each place holder `x_i`.
    pub fn concat(cfgs: Vec<&CFG>) -> (r: CFG)
        requires
            forall|i: int| 0 <= i < cfgs@.len() ==> (#[trigger] cfgs@[i]).wf(),
            forall|es: Seq<(Seq<char>, (Seq<Seq<char>>, usize, Seq<Seq<Seq<SymbolIndex>>>))>|
                #[trigger] lists(es, concat_substitutions(cfgs@, cfgs@.len()))
                ==> cfgs@.len() + entries_terms(es) <= usize::MAX && 1 + entries_rows(es) <= usize::MAX,
        ensures
            r.wf(),
            r.start_symbol == 0,
            exists|es: Seq<(Seq<char>, (Seq<Seq<char>>, usize, Seq<Seq<Seq<SymbolIndex>>>))>|
                #[trigger] lists(es, concat_substitutions(cfgs@, cfgs@.len())) && (word_of(r.terminals@), r.g()) == substitution_result(
                    name_numbers(placeholders(cfgs@.len())),
                    placeholders(cfgs@.len()),
                    concat_base_grammar(cfgs@.len()),
                    es,
                ),
            forall|w: Seq<Seq<char>>| #[trigger] r.generates_word(w) <==> concatenated_word(cfgs@, w),
    {
        let n = cfgs.len();
        let mut body: Vec<Symbol> = Vec::new();
        let mut map = SubstitutionMap::new();
        let mut i: usize = 0;
        proof {
            reveal_strlit("x_");
        }
        while i < n
            invariant
                n == cfgs@.len(),
                i <= n,
                body@.len() == i,
                placeholder_body(body@),
                map@ == concat_substitutions(cfgs@, i as nat),
                forall|i: int| 0 <= i < cfgs@.len() ==> (#[trigger] cfgs@[i]).wf(),
                "x_"@ == seq!['x', '_'],
            decreases n - i,
        {
            let name = name_with_number("x_", i);
            let t = Terminal::from_string(name);
            let ghost before = body@;
            body.push(Symbol::T(t.clone()));
            let g = cfgs[i].clone();
            map.insert(t, g);
            proof {
                assert(grammar_shape(g) == grammar_shape(*cfgs@[i as int]));
                assert forall|k: int| 0 <= k < body@.len() implies (#[trigger] body@[k] matches Symbol::T(t) && t@ == placeholder(k as nat)) by {
                    if k < i {
                        assert(body@[k] == before[k]);
                    }
                }
            }
            i = i + 1;
        }
        let ghost bv = body@;
        let head = Variable::new("S");
        let p = Production::new(head, body);
        let prods = vec![p];
        proof {
            reveal_strlit("S");
            let ps = prods@;
            assert(ps.drop_last() =~= Seq::<Production>::empty());
            assert(ps.last() == p);
            assert(p.body@ == bv);
            assert(p.head@ == "S"@);
            lemma_placeholder_body(bv, seq!["S"@], n as nat);
            lemma_placeholder_body(bv, Seq::<Seq<char>>::empty(), n as nat);
            assert(with_name(Seq::<Seq<char>>::empty(), "S"@) =~= seq!["S"@]);
            assert(production_variables(ps.drop_last()) == Seq::<Seq<char>>::empty());
            assert(production_variables(ps) == seq!["S"@]);
            assert(seq!["S"@].contains("S"@)) by {
                assert(seq!["S"@][0] == "S"@);
            }
        }
        let base = CFG::from_start_and_productions(Variable::new("S"), prods);
        proof {
            let ps = prods@;
            assert(ps.drop_last() =~= Seq::<Production>::empty());
            assert(ps.last() == p);
            assert(production_terminals(ps.drop_last()) == Seq::<Seq<char>>::empty());
            assert(body_terminals(Seq::<Seq<char>>::empty(), bv) == placeholders(n as nat));
            assert(production_terminals(ps) == placeholders(n as nat));
            assert(seq!["S"@][0] == "S"@);
            assert(seq!["S"@].index_of("S"@) == 0);
            assert(bodies_of_head(ps, "S"@, seq!["S"@], placeholders(n as nat)) =~= seq![Seq::new(n as nat, |i: int| SymbolIndex::TerminalIndex(i as usize))]) by {
                assert(ps.drop_last() =~= Seq::<Production>::empty());
                assert(bodies_of_head(ps.drop_last(), "S"@, seq!["S"@], placeholders(n as nat)) == Seq::<Seq<SymbolIndex>>::empty());
                assert(encode_body(seq!["S"@], placeholders(n as nat), bv) == Seq::new(n as nat, |i: int| SymbolIndex::TerminalIndex(i as usize)));
            }
            assert(productions_grammar(ps) =~= concat_base_grammar(n as nat));
            assert forall|k: Seq<char>| #[trigger] map@.contains_key(k) implies shape_ok(map@[k]) by {
                lemma_concat_substitutions_ok(cfgs@, n as nat, k);
            }
        }
        let r = base.substitute(&map);
        proof {
            lemma_concat_words(base, cfgs@);
        }
        r
    }

    /// The concatenation of `self` and `other`.
    pub fn concatenate(self, other: &CFG) -> (r: CFG)
        requires
            self.wf(),
            other.wf(),
            forall|es: Seq<(Seq<char>, (Seq<Seq<char>>, usize, Seq<Seq<Seq<SymbolIndex>>>))>|
                #[trigger] lists(es, concat_substitutions(two_grammars(&self, other), 2))
                ==> 2 + entries_terms(es) <= usize::MAX && 1 + entries_rows(es) <= usize::MAX,
        ensures
            r.wf(),
            r.start_symbol == 0,
            exists|es: Seq<(Seq<char>, (Seq<Seq<char>>, usize, Seq<Seq<Seq<SymbolIndex>>>))>|
                #[trigger] lists(es, concat_substitutions(two_grammars(&self, other), 2)) && (word_of(r.terminals@), r.g()) == substitution_result(
                    name_numbers(placeholders(2)),
                    placeholders(2),
                    concat_base_grammar(2),
                    es,
                ),
            forall|w: Seq<Seq<char>>| #[trigger] r.generates_word(w) <==> exists|x: Seq<Seq<char>>, y: Seq<Seq<char>>|
                #[trigger] self.generates_word(x) && #[trigger] other.generates_word(y) && w == x + y,
    {
        let v = vec![&self, other];
        proof {
            assert(v@ =~= two_grammars(&self, other));
        }
        let r = CFG::concat(v);
        proof {
            let cs = two_grammars(&self, other);
            let e = Seq::<Seq<Seq<char>>>::empty();
            assert(e.flatten() =~= Seq::<Seq<char>>::empty());
            assert forall|w: Seq<Seq<char>>| #[trigger] r.generates_word(w) <==> exists|x: Seq<Seq<char>>, y: Seq<Seq<char>>|
                #[trigger] self.generates_word(x) && #[trigger] other.generates_word(y) && w == x + y by {
                if r.generates_word(w) {
                    let ws = choose|ws: Seq<Seq<Seq<char>>>| #[trigger] concat_split(cs, w, ws);
                    assert(cs[0].generates_word(ws[0]));
                    assert(cs[1].generates_word(ws[1]));
                    assert(ws.drop_first() =~= seq![ws[1]]);
                    assert(seq![ws[1]].drop_first() =~= e);
                    assert(seq![ws[1]].flatten() =~= ws[1]);
                    assert(self.generates_word(ws[0]) && other.generates_word(ws[1]) && w == ws[0] + ws[1]);
                }
                if exists|x: Seq<Seq<char>>, y: Seq<Seq<char>>| #[trigger] self.generates_word(x) && #[trigger] other.generates_word(y) && w == x + y {
                    let (x, y) = choose|x: Seq<Seq<char>>, y: Seq<Seq<char>>| #[trigger] self.generates_word(x) && #[trigger] other.generates_word(y) && w == x + y;
                    let ws = seq![x, y];
                    assert(ws.drop_first() =~= seq![y]);
                    assert(seq![y].drop_first() =~= e);
                    assert(seq![y].flatten() =~= y);
                    assert(ws.flatten() == w);
                    assert(concat_split(cs, w, ws));
                }
            }
        }
        r
    }
}

/// The grammars of a concatenation are in range.
pub proof fn lemma_concat_substitutions_ok(cfgs: Seq<&CFG>, n: nat, k: Seq<char>)
    requires
        n <= cfgs.len(),
        forall|i: int| 0 <= i < cfgs.len() ==> (#[trigger] cfgs[i]).wf(),
        concat_substitutions(cfgs, n).contains_key(k),
    ensures
        shape_ok(concat_substitutions(cfgs, n)[k]),
    decreases n,
{
    if n > 0 {
        if k != placeholder((n - 1) as nat) {
            lemma_concat_substitutions_ok(cfgs, (n - 1) as nat, k);
        } else {
            let c = *cfgs[n - 1];
            assert(cfgs[n - 1].wf());
            assert(word_of(c.terminals@).len() == c.terminals@.len());
        }
    }
}

} // verus!
