//! Building a grammar from productions written with the names of their symbols.
use crate::cfg::cfg::{grammar_of, grammar_ok, symbol_in, SymbolIndex, CFG};
use crate::cfg::production::{Production, Symbol};
use crate::cfg::terminal::Terminal;
use crate::cfg::variable::Variable;
use crate::collections::{TerminalMap, VariableIndexMap};
use crate::input_symbol::{epsilon_names, is_epsilon_name};
use crate::language::word_of;
use vstd::prelude::*;

verus! {

/// `names` with `x` appended, where it is not there yet.
pub open spec fn with_name(names: Seq<Seq<char>>, x: Seq<char>) -> Seq<Seq<char>> {
    if names.contains(x) {
        names
    } else {
        names.push(x)
    }
}

/// The variable names after meeting, in order, the variables of `body`.
pub open spec fn body_variables(names: Seq<Seq<char>>, body: Seq<Symbol>) -> Seq<Seq<char>>
    decreases body.len(),
{
    if body.len() == 0 {
        names
    } else {
        let prev = body_variables(names, body.drop_last());
        match body.last() {
            Symbol::V(v) => with_name(prev, v@),
            Symbol::T(_) => prev,
        }
    }
}

/// The terminal names after meeting, in order, the terminals of `body`
/// (those named like epsilon stand for nothing and are passed over).
pub open spec fn body_terminals(names: Seq<Seq<char>>, body: Seq<Symbol>) -> Seq<Seq<char>>
    decreases body.len(),
{
    if body.len() == 0 {
        names
    } else {
        let prev = body_terminals(names, body.drop_last());
        match body.last() {
            Symbol::T(t) => if epsilon_names().contains(t@) {
                prev
            } else {
                with_name(prev, t@)
            },
            Symbol::V(_) => prev,
        }
    }
}

/// The variables of `prods` in the order in which they first occur, the
/// head of each production before its body.
pub open spec fn production_variables(prods: Seq<Production>) -> Seq<Seq<char>>
    decreases prods.len(),
{
    if prods.len() == 0 {
        Seq::empty()
    } else {
        body_variables(with_name(production_variables(prods.drop_last()), prods.last().head@), prods.last().body@)
    }
}

/// The terminals of `prods` in the order in which they first occur.
pub open spec fn production_terminals(prods: Seq<Production>) -> Seq<Seq<char>>
    decreases prods.len(),
{
    if prods.len() == 0 {
        Seq::empty()
    } else {
        body_terminals(production_terminals(prods.drop_last()), prods.last().body@)
    }
}

/// The body `body` by numbers: each variable by its place in `vars`, each
/// terminal by its place in `terms`, terminals named like epsilon left out.
pub open spec fn encode_body(vars: Seq<Seq<char>>, terms: Seq<Seq<char>>, body: Seq<Symbol>) -> Seq<SymbolIndex>
    decreases body.len(),
{
    if body.len() == 0 {
        Seq::empty()
    } else {
        let prev = encode_body(vars, terms, body.drop_last());
        match body.last() {
            Symbol::V(v) => prev.push(SymbolIndex::VariableIndex(vars.index_of(v@) as usize)),
            Symbol::T(t) => if epsilon_names().contains(t@) {
                prev
            } else {
                prev.push(SymbolIndex::TerminalIndex(terms.index_of(t@) as usize))
            },
        }
    }
}

/// The bodies, by numbers and in order, of the productions of `prods` whose head is named `head`.
pub open spec fn bodies_of_head(prods: Seq<Production>, head: Seq<char>, vars: Seq<Seq<char>>, terms: Seq<Seq<char>>) -> Seq<Seq<SymbolIndex>>
    decreases prods.len(),
{
    if prods.len() == 0 {
        Seq::empty()
    } else {
        let prev = bodies_of_head(prods.drop_last(), head, vars, terms);
        if prods.last().head@ == head {
            prev.push(encode_body(vars, terms, prods.last().body@))
        } else {
            prev
        }
    }
}

/// The grammar that `prods` write: one variable per name, in order of first
/// occurrence, each with the bodies of its productions in order.
pub open spec fn productions_grammar(prods: Seq<Production>) -> Seq<Seq<Seq<SymbolIndex>>> {
    let vars = production_variables(prods);
    let terms = production_terminals(prods);
    Seq::new(vars.len(), |v: int| bodies_of_head(prods, vars[v], vars, terms))
}

/// The map from each of `names` to its place.
pub open spec fn name_numbers(names: Seq<Seq<char>>) -> Map<Seq<char>, usize> {
    Map::new(|k: Seq<char>| names.contains(k), |k: Seq<char>| names.index_of(k) as usize)
}

/// Whether `b` starts with `a`.
pub open spec fn extends(b: Seq<Seq<char>>, a: Seq<Seq<char>>) -> bool {
    a.len() <= b.len() && b.take(a.len() as int) == a
}

/// Whether every variable of `body` is in `vars` and every terminal not
/// named like epsilon is in `terms`.
pub open spec fn body_covered(vars: Seq<Seq<char>>, terms: Seq<Seq<char>>, body: Seq<Symbol>) -> bool {
    forall|k: int| 0 <= k < body.len() ==> match #[trigger] body[k] {
        Symbol::V(v) => vars.contains(v@),
        Symbol::T(t) => epsilon_names().contains(t@) || terms.contains(t@),
    }
}

/// Whether every head and body of `prods` is covered by `vars` and `terms`.
pub open spec fn prods_covered(vars: Seq<Seq<char>>, terms: Seq<Seq<char>>, prods: Seq<Production>) -> bool {
    forall|j: int| 0 <= j < prods.len() ==> vars.contains(#[trigger] prods[j].head@) && body_covered(vars, terms, prods[j].body@)
}

/// Appending a name keeps the names distinct and what they were.
pub proof fn lemma_with_name(names: Seq<Seq<char>>, x: Seq<char>)
    requires
        names.no_duplicates(),
    ensures
        with_name(names, x).no_duplicates(),
        extends(with_name(names, x), names),
        with_name(names, x).contains(x),
{
    if !names.contains(x) {
        assert(names.push(x)[names.len() as int] == x);
    }
    assert(with_name(names, x).take(names.len() as int) =~= names);
}

/// Meeting the symbols of a body keeps the names distinct, extends them and
/// covers the body.
pub proof fn lemma_body_names(vars: Seq<Seq<char>>, terms: Seq<Seq<char>>, body: Seq<Symbol>)
    requires
        vars.no_duplicates(),
        terms.no_duplicates(),
    ensures
        body_variables(vars, body).no_duplicates(),
        body_terminals(terms, body).no_duplicates(),
        extends(body_variables(vars, body), vars),
        extends(body_terminals(terms, body), terms),
        body_covered(body_variables(vars, body), body_terminals(terms, body), body),
    decreases body.len(),
{
    if body.len() > 0 {
        let rest = body.drop_last();
        lemma_body_names(vars, terms, rest);
        let pv = body_variables(vars, rest);
        let pt = body_terminals(terms, rest);
        let nv = body_variables(vars, body);
        let nt = body_terminals(terms, body);
        assert(pv.take(pv.len() as int) =~= pv);
        assert(pt.take(pt.len() as int) =~= pt);
        match body.last() {
            Symbol::V(v) => lemma_with_name(pv, v@),
            Symbol::T(t) => {
                if !epsilon_names().contains(t@) {
                    lemma_with_name(pt, t@);
                }
            },
        }
        assert(extends(nv, pv) && extends(nt, pt));
        lemma_extends_trans(nv, pv, vars);
        lemma_extends_trans(nt, pt, terms);
        assert forall|k: int| 0 <= k < body.len() implies match #[trigger] body[k] {
            Symbol::V(v) => nv.contains(v@),
            Symbol::T(t) => epsilon_names().contains(t@) || nt.contains(t@),
        } by {
            if k < rest.len() {
                assert(rest[k] == body[k]);
                match body[k] {
                    Symbol::V(v) => lemma_extends_contains(nv, pv, v@),
                    Symbol::T(t) => if !epsilon_names().contains(t@) {
                        lemma_extends_contains(nt, pt, t@);
                    },
                }
            }
        }
    } else {
        assert(vars.take(vars.len() as int) =~= vars);
        assert(terms.take(terms.len() as int) =~= terms);
    }
}

/// Extension is transitive.
pub proof fn lemma_extends_trans(c: Seq<Seq<char>>, b: Seq<Seq<char>>, a: Seq<Seq<char>>)
    requires
        extends(c, b),
        extends(b, a),
    ensures
        extends(c, a),
{
    assert(c.take(a.len() as int) =~= b.take(a.len() as int));
}

/// What a sequence holds, a longer one holds.
pub proof fn lemma_extends_contains(b: Seq<Seq<char>>, a: Seq<Seq<char>>, x: Seq<char>)
    requires
        extends(b, a),
        a.contains(x),
    ensures
        b.contains(x),
{
    let i = choose|i: int| 0 <= i < a.len() && a[i] == x;
    assert(b.take(a.len() as int)[i] == x);
}

/// In a longer sequence of distinct names, a name keeps its place.
pub proof fn lemma_extends_index(b: Seq<Seq<char>>, a: Seq<Seq<char>>, x: Seq<char>)
    requires
        extends(b, a),
        b.no_duplicates(),
        a.contains(x),
    ensures
        b.index_of(x) == a.index_of(x),
        0 <= a.index_of(x) < a.len(),
        a[a.index_of(x)] == x,
{
    let i = a.index_of(x);
    assert(b.take(a.len() as int)[i] == x);
    assert(b[i] == x);
    lemma_extends_contains(b, a, x);
    let j = b.index_of(x);
    assert(b[j] == x);
}

/// Covering is kept by longer names.
pub proof fn lemma_covered_extends(
    v2: Seq<Seq<char>>,
    v1: Seq<Seq<char>>,
    t2: Seq<Seq<char>>,
    t1: Seq<Seq<char>>,
    prods: Seq<Production>,
)
    requires
        extends(v2, v1),
        extends(t2, t1),
        prods_covered(v1, t1, prods),
    ensures
        prods_covered(v2, t2, prods),
{
    assert forall|j: int| 0 <= j < prods.len() implies v2.contains(#[trigger] prods[j].head@) && body_covered(v2, t2, prods[j].body@) by {
        lemma_extends_contains(v2, v1, prods[j].head@);
        let body = prods[j].body@;
        assert forall|k: int| 0 <= k < body.len() implies match #[trigger] body[k] {
            Symbol::V(v) => v2.contains(v@),
            Symbol::T(t) => epsilon_names().contains(t@) || t2.contains(t@),
        } by {
            match body[k] {
                Symbol::V(v) => lemma_extends_contains(v2, v1, v@),
                Symbol::T(t) => if !epsilon_names().contains(t@) {
                    lemma_extends_contains(t2, t1, t@);
                },
            }
        }
    }
}

/// A covered body is numbered alike by longer names.
pub proof fn lemma_encode_extends(
    v2: Seq<Seq<char>>,
    v1: Seq<Seq<char>>,
    t2: Seq<Seq<char>>,
    t1: Seq<Seq<char>>,
    body: Seq<Symbol>,
)
    requires
        extends(v2, v1),
        extends(t2, t1),
        v2.no_duplicates(),
        t2.no_duplicates(),
        body_covered(v1, t1, body),
    ensures
        encode_body(v2, t2, body) == encode_body(v1, t1, body),
    decreases body.len(),
{
    if body.len() > 0 {
        let rest = body.drop_last();
        assert forall|k: int| 0 <= k < rest.len() implies match #[trigger] rest[k] {
            Symbol::V(v) => v1.contains(v@),
            Symbol::T(t) => epsilon_names().contains(t@) || t1.contains(t@),
        } by {
            assert(rest[k] == body[k]);
        }
        lemma_encode_extends(v2, v1, t2, t1, rest);
        let k = body.len() - 1;
        assert(body[k] == body.last());
        match body.last() {
            Symbol::V(v) => lemma_extends_index(v2, v1, v@),
            Symbol::T(t) => if !epsilon_names().contains(t@) {
                lemma_extends_index(t2, t1, t@);
            },
        }
    }
}

/// The bodies of a head are numbered alike by longer names.
pub proof fn lemma_heads_extends(
    v2: Seq<Seq<char>>,
    v1: Seq<Seq<char>>,
    t2: Seq<Seq<char>>,
    t1: Seq<Seq<char>>,
    prods: Seq<Production>,
    head: Seq<char>,
)
    requires
        extends(v2, v1),
        extends(t2, t1),
        v2.no_duplicates(),
        t2.no_duplicates(),
        prods_covered(v1, t1, prods),
    ensures
        bodies_of_head(prods, head, v2, t2) == bodies_of_head(prods, head, v1, t1),
    decreases prods.len(),
{
    if prods.len() > 0 {
        let rest = prods.drop_last();
        assert forall|j: int| 0 <= j < rest.len() implies v1.contains(#[trigger] rest[j].head@) && body_covered(v1, t1, rest[j].body@) by {
            assert(rest[j] == prods[j]);
        }
        lemma_heads_extends(v2, v1, t2, t1, rest, head);
        let j = prods.len() - 1;
        assert(prods[j] == prods.last());
        assert(v1.contains(prods[j].head@));
        assert(body_covered(v1, t1, prods[j].body@));
        lemma_encode_extends(v2, v1, t2, t1, prods.last().body@);
    }
}

/// A name that heads none of the productions has no bodies.
pub proof fn lemma_heads_none(prods: Seq<Production>, head: Seq<char>, vars: Seq<Seq<char>>, terms: Seq<Seq<char>>)
    requires
        forall|j: int| 0 <= j < prods.len() ==> #[trigger] prods[j].head@ != head,
    ensures
        bodies_of_head(prods, head, vars, terms) == Seq::<Seq<SymbolIndex>>::empty(),
    decreases prods.len(),
{
    if prods.len() > 0 {
        let rest = prods.drop_last();
        assert forall|j: int| 0 <= j < rest.len() implies #[trigger] rest[j].head@ != head by {
            assert(rest[j] == prods[j]);
        }
        lemma_heads_none(rest, head, vars, terms);
        let j = prods.len() - 1;
        assert(prods[j] == prods.last());
    }
}

/// Whether symbol `s` is numbered within `nv` variables and `nt` terminals.
pub open spec fn numbered_within(s: SymbolIndex, nv: nat, nt: nat) -> bool {
    match s {
        SymbolIndex::VariableIndex(x) => x < nv,
        SymbolIndex::TerminalIndex(t) => t < nt,
    }
}

/// A covered body is numbered within the names.
pub proof fn lemma_encode_in_range(vars: Seq<Seq<char>>, terms: Seq<Seq<char>>, body: Seq<Symbol>)
    requires
        body_covered(vars, terms, body),
    ensures
        forall|k: int| 0 <= k < encode_body(vars, terms, body).len() ==> numbered_within(#[trigger] encode_body(vars, terms, body)[k], vars.len(), terms.len()),
    decreases body.len(),
{
    if body.len() > 0 {
        let rest = body.drop_last();
        assert forall|k: int| 0 <= k < rest.len() implies match #[trigger] rest[k] {
            Symbol::V(v) => vars.contains(v@),
            Symbol::T(t) => epsilon_names().contains(t@) || terms.contains(t@),
        } by {
            assert(rest[k] == body[k]);
        }
        lemma_encode_in_range(vars, terms, rest);
        let k = body.len() - 1;
        assert(body[k] == body.last());
        match body[k] {
            Symbol::V(v) => {
                assert(vars.contains(v@));
                assert(0 <= vars.index_of(v@) < vars.len());
            },
            Symbol::T(t) => {
                if !epsilon_names().contains(t@) {
                    assert(terms.contains(t@));
                    assert(0 <= terms.index_of(t@) < terms.len());
                }
            },
        }
        let e = encode_body(vars, terms, body);
        let p = encode_body(vars, terms, rest);
        assert forall|i: int| 0 <= i < e.len() implies numbered_within(#[trigger] e[i], vars.len(), terms.len()) by {
            if i < p.len() {
                assert(e[i] == p[i]);
            }
        }
    }
}

/// The bodies that productions covered by the names give are numbered within them.
pub proof fn lemma_bodies_in_range(prods: Seq<Production>, head: Seq<char>, vars: Seq<Seq<char>>, terms: Seq<Seq<char>>, j: int, k: int)
    requires
        prods_covered(vars, terms, prods),
        0 <= j < bodies_of_head(prods, head, vars, terms).len(),
        0 <= k < bodies_of_head(prods, head, vars, terms)[j].len(),
    ensures
        numbered_within(bodies_of_head(prods, head, vars, terms)[j][k], vars.len(), terms.len()),
    decreases prods.len(),
{
    let rest = prods.drop_last();
    assert forall|i: int| 0 <= i < rest.len() implies vars.contains(#[trigger] rest[i].head@) && body_covered(vars, terms, rest[i].body@) by {
        assert(rest[i] == prods[i]);
        assert(vars.contains(prods[i].head@));
    }
    let prev = bodies_of_head(rest, head, vars, terms);
    if j < prev.len() {
        lemma_bodies_in_range(rest, head, vars, terms, j, k);
    } else {
        let last = prods.len() - 1;
        assert(prods[last] == prods.last());
        assert(vars.contains(prods[last].head@));
        lemma_encode_in_range(vars, terms, prods.last().body@);
    }
}

/// The names of the variables `vs`.
pub open spec fn variable_names(vs: Seq<Variable>) -> Seq<Seq<char>> {
    vs.map_values(|v: Variable| v@)
}

/// Appending a new name numbers it by its place and keeps the other numbers.
pub proof fn lemma_name_numbers_push(names: Seq<Seq<char>>, x: Seq<char>)
    requires
        names.no_duplicates(),
    ensures
        name_numbers(with_name(names, x)) == (if names.contains(x) { name_numbers(names) } else { name_numbers(names).insert(x, names.len() as usize) }),
        0 <= with_name(names, x).index_of(x) < with_name(names, x).len(),
        with_name(names, x).index_of(x) == (if names.contains(x) { names.index_of(x) } else { names.len() as int }),
        with_name(names, x)[with_name(names, x).index_of(x)] == x,
{
    lemma_with_name(names, x);
    let n2 = with_name(names, x);
    assert(n2.take(n2.len() as int) =~= n2);
    lemma_extends_index(n2, n2, x);
    if !names.contains(x) {
        assert forall|k: Seq<char>| names.contains(k) implies #[trigger] n2.index_of(k) == names.index_of(k) by {
            lemma_extends_index(n2, names, k);
        }
        let j = n2.index_of(x);
        assert(n2[names.len() as int] == x);
        assert(j == names.len());
        assert(name_numbers(n2) =~= name_numbers(names).insert(x, names.len() as usize));
    }
}

/// The number of the variable `v`, added (with no bodies) where it is new.
fn intern_variable(map: &mut VariableIndexMap, vars: &mut Vec<Variable>, rows: &mut Vec<Vec<Vec<SymbolIndex>>>, v: &Variable) -> (x: usize)
    requires
        variable_names(old(vars)@).no_duplicates(),
        old(map)@ == name_numbers(variable_names(old(vars)@)),
        old(rows)@.len() == old(vars)@.len(),
    ensures
        variable_names(final(vars)@) == with_name(variable_names(old(vars)@), v@),
        variable_names(final(vars)@).no_duplicates(),
        final(map)@ == name_numbers(variable_names(final(vars)@)),
        final(rows)@.len() == final(vars)@.len(),
        forall|i: int| 0 <= i < old(rows)@.len() ==> #[trigger] final(rows)@[i] == old(rows)@[i],
        old(rows)@.len() < final(rows)@.len() ==> final(rows)@.last()@ == Seq::<Vec<SymbolIndex>>::empty(),
        x == variable_names(final(vars)@).index_of(v@),
        x < final(vars)@.len(),
        variable_names(final(vars)@)[x as int] == v@,
{
    let ghost names = variable_names(vars@);
    proof {
        lemma_name_numbers_push(names, v@);
        lemma_with_name(names, v@);
    }
    match map.get(v) {
        Some(x) => {
            assert(names.len() == vars.len());
            assert(names.contains(v@));
            x
        },
        None => {
            let x = vars.len();
            vars.push(v.clone());
            map.insert(v.clone(), x);
            rows.push(Vec::new());
            proof {
                assert(variable_names(vars@) =~= names.push(v@));
            }
            x
        },
    }
}

/// The number of the terminal `t`, added where it is new.
fn intern_terminal(map: &mut TerminalMap, terms: &mut Vec<Terminal>, t: &Terminal) -> (x: usize)
    requires
        word_of(old(terms)@).no_duplicates(),
        old(map)@ == name_numbers(word_of(old(terms)@)),
    ensures
        word_of(final(terms)@) == with_name(word_of(old(terms)@), t@),
        word_of(final(terms)@).no_duplicates(),
        final(map)@ == name_numbers(word_of(final(terms)@)),
        x == word_of(final(terms)@).index_of(t@),
        x < final(terms)@.len(),
        word_of(final(terms)@)[x as int] == t@,
{
    let ghost names = word_of(terms@);
    proof {
        lemma_name_numbers_push(names, t@);
        lemma_with_name(names, t@);
    }
    match map.get(t) {
        Some(x) => {
            assert(names.len() == terms.len());
            assert(names.contains(t@));
            x
        },
        None => {
            let x = terms.len();
            terms.push(t.clone());
            map.insert(t.clone(), x);
            proof {
                assert(word_of(terms@) =~= names.push(t@));
            }
            x
        },
    }
}

impl CFG {
    /// A grammar from a start variable and productions written with the
    /// names of their symbols: variables and terminals are numbered in the
    /// order in which they first occur (the head of a production before its
    /// body), terminals named like epsilon stand for nothing, and every
    /// variable gets the bodies of its productions in order. The start
    /// variable must occur in the productions.
    pub fn from_start_and_productions(start_variable: Variable, productions: Vec<Production>) -> (r: CFG)
        requires
            production_variables(productions@).contains(start_variable@),
        ensures
            r.wf(),
            word_of(r.terminals@) == production_terminals(productions@),
            r.terminal_map@ == name_numbers(production_terminals(productions@)),
            r.start_symbol == production_variables(productions@).index_of(start_variable@),
            r.g() == productions_grammar(productions@),
            r._is_cleaned is None,
            r._in_normal_form is None,
    {
        let ghost prods = productions@;
        let mut var_map = VariableIndexMap::new();
        let mut term_map = TerminalMap::new();
        let mut variables: Vec<Variable> = Vec::new();
        let mut terminals: Vec<Terminal> = Vec::new();
        let mut rows: Vec<Vec<Vec<SymbolIndex>>> = Vec::new();
        proof {
            assert(variable_names(variables@) =~= Seq::<Seq<char>>::empty());
            assert(word_of(terminals@) =~= Seq::<Seq<char>>::empty());
            assert(name_numbers(Seq::<Seq<char>>::empty()) =~= Map::<Seq<char>, usize>::empty());
            assert(prods.take(0) =~= Seq::<Production>::empty());
        }
        let mut i: usize = 0;
        while i < productions.len()
            invariant
                prods == productions@,
                i <= prods.len(),
                variable_names(variables@) == production_variables(prods.take(i as int)),
                word_of(terminals@) == production_terminals(prods.take(i as int)),
                variable_names(variables@).no_duplicates(),
                word_of(terminals@).no_duplicates(),
                var_map@ == name_numbers(variable_names(variables@)),
                term_map@ == name_numbers(word_of(terminals@)),
                rows@.len() == variables@.len(),
                forall|v: int| 0 <= v < rows@.len() ==> #[trigger] grammar_of(rows@)[v] == bodies_of_head(
                    prods.take(i as int),
                    variable_names(variables@)[v],
                    variable_names(variables@),
                    word_of(terminals@),
                ),
                prods_covered(variable_names(variables@), word_of(terminals@), prods.take(i as int)),
            decreases prods.len() - i,
        {
            let ghost v0 = variable_names(variables@);
            let ghost t0 = word_of(terminals@);
            let ghost rows0 = rows@;
            let head = &productions[i].head;
            let hx = intern_variable(&mut var_map, &mut variables, &mut rows, head);
            let ghost v1 = variable_names(variables@);
            proof {
                lemma_with_name(v0, head@);
                assert(t0.take(t0.len() as int) =~= t0);
                assert forall|v: int| 0 <= v < rows@.len() implies #[trigger] grammar_of(rows@)[v] == bodies_of_head(prods.take(i as int), v1[v], v1, t0) by {
                    if v < rows0.len() {
                        assert(rows@[v] == rows0[v]);
                        assert(grammar_of(rows0)[v] == bodies_of_head(prods.take(i as int), v0[v], v0, t0));
                        lemma_heads_extends(v1, v0, t0, t0, prods.take(i as int), v0[v]);
                        assert(v1.take(v0.len() as int)[v] == v0[v]);
                    } else {
                        assert forall|j: int| 0 <= j < prods.take(i as int).len() implies #[trigger] prods.take(i as int)[j].head@ != v1[v] by {
                            assert(v0.contains(prods.take(i as int)[j].head@));
                        }
                        lemma_heads_none(prods.take(i as int), v1[v], v1, t0);
                        assert(grammar_of(rows@)[v] =~= Seq::<Seq<SymbolIndex>>::empty());
                    }
                }
                lemma_covered_extends(v1, v0, t0, t0, prods.take(i as int));
            }
            let body = &productions[i].body;
            let mut cur: Vec<SymbolIndex> = Vec::new();
            proof {
                assert(v1.take(v1.len() as int) =~= v1);
                assert(body@.take(0) =~= Seq::<Symbol>::empty());
            }
            let mut k: usize = 0;
            while k < body.len()
                invariant
                    prods == productions@,
                    i < prods.len(),
                    body@ == prods[i as int].body@,
                    head@ == prods[i as int].head@,
                    k <= body@.len(),
                    v1 == with_name(v0, head@),
                    variable_names(variables@) == body_variables(v1, body@.take(k as int)),
                    word_of(terminals@) == body_terminals(t0, body@.take(k as int)),
                    v1.no_duplicates(),
                    t0.no_duplicates(),
                    variable_names(variables@).no_duplicates(),
                    word_of(terminals@).no_duplicates(),
                    extends(variable_names(variables@), v1),
                    extends(word_of(terminals@), t0),
                    var_map@ == name_numbers(variable_names(variables@)),
                    term_map@ == name_numbers(word_of(terminals@)),
                    rows@.len() == variables@.len(),
                    forall|v: int| 0 <= v < rows@.len() ==> #[trigger] grammar_of(rows@)[v] == bodies_of_head(
                        prods.take(i as int),
                        variable_names(variables@)[v],
                        variable_names(variables@),
                        word_of(terminals@),
                    ),
                    prods_covered(variable_names(variables@), word_of(terminals@), prods.take(i as int)),
                    hx == variable_names(variables@).index_of(head@),
                    hx < variables@.len(),
                    variable_names(variables@)[hx as int] == head@,
                    cur@ == encode_body(variable_names(variables@), word_of(terminals@), body@.take(k as int)),
                decreases body@.len() - k,
            {
                let ghost va = variable_names(variables@);
                let ghost ta = word_of(terminals@);
                let ghost rowsa = rows@;
                let ghost cura = cur@;
                proof {
                    lemma_body_names(v1, t0, body@.take(k as int));
                    assert(body@.take(k + 1).drop_last() =~= body@.take(k as int));
                    assert(body@.take(k + 1).last() == body@[k as int]);
                }
                match &body[k] {
                    Symbol::V(v) => {
                        let x = intern_variable(&mut var_map, &mut variables, &mut rows, v);
                        cur.push(SymbolIndex::VariableIndex(x));
                        proof {
                            lemma_with_name(va, v@);
                        }
                    },
                    Symbol::T(t) => {
                        if !is_epsilon_name(t.get_name()) {
                            let x = intern_terminal(&mut term_map, &mut terminals, t);
                            cur.push(SymbolIndex::TerminalIndex(x));
                            proof {
                                lemma_with_name(ta, t@);
                            }
                        } else {
                            proof {
                                assert(ta.take(ta.len() as int) =~= ta);
                            }
                        }
                    },
                }
                let ghost vb = variable_names(variables@);
                let ghost tb = word_of(terminals@);
                proof {
                    assert(va.take(va.len() as int) =~= va);
                    assert(ta.take(ta.len() as int) =~= ta);
                    assert(extends(vb, va));
                    assert(extends(tb, ta));
                    lemma_extends_trans(vb, va, v1);
                    lemma_extends_trans(tb, ta, t0);
                    lemma_encode_extends(vb, va, tb, ta, body@.take(k as int));
                    lemma_extends_index(vb, va, head@);
                    assert(vb.take(va.len() as int)[hx as int] == head@);
                    assert forall|v: int| 0 <= v < rows@.len() implies #[trigger] grammar_of(rows@)[v] == bodies_of_head(prods.take(i as int), vb[v], vb, tb) by {
                        if v < rowsa.len() {
                            assert(rows@[v] == rowsa[v]);
                            assert(grammar_of(rowsa)[v] == bodies_of_head(prods.take(i as int), va[v], va, ta));
                            lemma_heads_extends(vb, va, tb, ta, prods.take(i as int), va[v]);
                            assert(vb.take(va.len() as int)[v] == va[v]);
                        } else {
                            assert forall|j: int| 0 <= j < prods.take(i as int).len() implies #[trigger] prods.take(i as int)[j].head@ != vb[v] by {
                                assert(va.contains(prods.take(i as int)[j].head@));
                            }
                            lemma_heads_none(prods.take(i as int), vb[v], vb, tb);
                            assert(grammar_of(rows@)[v] =~= Seq::<Seq<SymbolIndex>>::empty());
                        }
                    }
                    lemma_covered_extends(vb, va, tb, ta, prods.take(i as int));
                    let bk = body@.take(k + 1);
                    match body@[k as int] {
                        Symbol::V(v) => {
                            assert(vb.take(vb.len() as int) =~= vb);
                            lemma_extends_index(vb, vb, v@);
                        },
                        Symbol::T(t) => {
                            if !epsilon_names().contains(t@) {
                                assert(tb.take(tb.len() as int) =~= tb);
                                lemma_extends_index(tb, tb, t@);
                            }
                        },
                    }
                    assert(cur@ =~= encode_body(vb, tb, bk));
                }
                k = k + 1;
            }
            let ghost vf = variable_names(variables@);
            let ghost tf = word_of(terminals@);
            let ghost rowsf = rows@;
            proof {
                assert(body@.take(k as int) =~= body@);
                assert(prods.take(i + 1).drop_last() =~= prods.take(i as int));
                assert(prods.take(i + 1).last() == prods[i as int]);
                lemma_body_names(v1, t0, body@);
            }
            rows[hx].push(cur);
            proof {
                assert forall|v: int| 0 <= v < rows@.len() implies #[trigger] grammar_of(rows@)[v] == bodies_of_head(prods.take(i + 1), vf[v], vf, tf) by {
                    assert(grammar_of(rowsf)[v] == bodies_of_head(prods.take(i as int), vf[v], vf, tf));
                    if v == hx {
                        assert(grammar_of(rows@)[v] =~= grammar_of(rowsf)[v].push(cur@));
                    } else {
                        assert(rows@[v] == rowsf[v]);
                        assert(vf[v] != head@);
                    }
                }
                assert forall|j: int| 0 <= j < prods.take(i + 1).len() implies vf.contains(#[trigger] prods.take(i + 1)[j].head@)
                    && body_covered(vf, tf, prods.take(i + 1)[j].body@) by {
                    if j < i {
                        assert(prods.take(i + 1)[j] == prods.take(i as int)[j]);
                    } else {
                        assert(vf[hx as int] == head@);
                    }
                }
            }
            i = i + 1;
        }
        proof {
            assert(prods.take(i as int) =~= prods);
        }
        let start = var_map.get(&start_variable).unwrap();
        let nvars = variables.len();
        let nterms = terminals.len();
        let r = CFG::new(Some(term_map), terminals, start, rows);
        proof {
            let vs = variable_names(variables@);
            let ts = word_of(r.terminals@);
            assert(r.g() =~= productions_grammar(prods)) by {
                assert forall|v: int| 0 <= v < r.g().len() implies #[trigger] r.g()[v] == productions_grammar(prods)[v] by {
                    assert(grammar_of(rows@)[v] == bodies_of_head(prods, vs[v], vs, ts));
                }
            }
            lemma_name_numbers_push(vs, start_variable@);
            assert(vs.len() == nvars);
            assert(ts.len() == nterms);
            assert(vs.contains(start_variable@));
            assert(0 <= vs.index_of(start_variable@) < vs.len());
            assert(r.terminal_map@ == name_numbers(ts));
            assert(grammar_ok(r.g(), r.nt())) by {
                assert forall|v: int, j: int, k: int| 0 <= v < r.g().len() && 0 <= j < r.g()[v].len() && 0 <= k < r.g()[v][j].len()
                    implies symbol_in(r.g(), r.nt(), #[trigger] r.g()[v][j][k]) by {
                    lemma_bodies_in_range(prods, vs[v], vs, ts, j, k);
                    assert(r.g()[v] == bodies_of_head(prods, vs[v], vs, ts));
                }
            }
            assert forall|x: Seq<char>| #[trigger] r.terminal_map@.contains_key(x) implies r.terminal_map@[x] < r.terminals@.len()
                && r.terminals@[r.terminal_map@[x] as int]@ == x by {
                lemma_name_numbers_push(ts, x);
                assert(ts.contains(x));
                assert(with_name(ts, x) == ts);
                assert(ts.len() == r.terminals@.len());
                let ix = ts.index_of(x);
                assert(ts[ix] == r.terminals@[ix]@);
            }
        }
        r
    }
}

} // verus!
