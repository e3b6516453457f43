//! Context-free grammars over numbered terminals and variables.
//!
//! A grammar holds, for every variable `v`, the list of bodies of the
//! productions `v -> body`; a body is a sequence of terminal and variable
//! numbers. Its language is defined by derivation trees of bounded height
//! (`derives`).
use crate::cfg::terminal::Terminal;
use crate::cfg::variable::Variable;
use crate::collections::TerminalMap;
use crate::input_symbol::InputSymbol;
use crate::text::name_with_number;
use vstd::prelude::*;

verus! {

/// A symbol of a grammar by number: a terminal or a variable.
#[derive(Debug, Clone, Copy, PartialEq, Eq, Hash, Structural)]
pub enum SymbolIndex {
    TerminalIndex(usize),
    VariableIndex(usize),
}

/// A symbol of the grammar of the intersection of a grammar with an automaton:
/// a terminal, or a variable `(p, v, q)` made of a state `p`, a variable `v`
/// and a state `q`.
#[derive(Debug, Clone, Copy, PartialEq, Eq, Hash)]
pub enum IntersectionSymbolIndex {
    TerminalIndex(usize),
    VariableIndex((usize, usize, usize)),
}

/// Appends `value` to the list at `index`, or, where there is no list at
/// `index`, appends a new list holding just `value`.
pub fn insert_or_append<T>(vec: &mut Vec<Vec<T>>, index: usize, value: T)
    ensures
        index < old(vec)@.len() ==> final(vec)@.len() == old(vec)@.len()
            && final(vec)@[index as int]@ == old(vec)@[index as int]@.push(value)
            && forall|j: int| 0 <= j < old(vec)@.len() && j != index ==> #[trigger] final(vec)@[j] == old(vec)@[j],
        index >= old(vec)@.len() ==> final(vec)@.len() == old(vec)@.len() + 1
            && final(vec)@.take(old(vec)@.len() as int) == old(vec)@
            && final(vec)@.last()@ == seq![value],
{
    if index < vec.len() {
        vec[index].push(value);
    } else {
        let ghost v0 = vec@;
        vec.push(vec![value]);
        assert(vec@.take(v0.len() as int) =~= v0);
    }
}

/// The productions of a grammar as a mathematical value: for every variable,
/// its list of bodies.
pub open spec fn grammar_of(p: Seq<Vec<Vec<SymbolIndex>>>) -> Seq<Seq<Seq<SymbolIndex>>> {
    p.map_values(|ps: Vec<Vec<SymbolIndex>>| ps@.map_values(|b: Vec<SymbolIndex>| b@))
}

/// Whether symbol `s` is in range for a grammar `g` with `nt` terminals.
pub open spec fn symbol_in(g: Seq<Seq<Seq<SymbolIndex>>>, nt: nat, s: SymbolIndex) -> bool {
    match s {
        SymbolIndex::TerminalIndex(t) => t < nt,
        SymbolIndex::VariableIndex(v) => v < g.len(),
    }
}

/// Whether every symbol of every body of `g` is in range.
pub open spec fn grammar_ok(g: Seq<Seq<Seq<SymbolIndex>>>, nt: nat) -> bool {
    forall|v: int, j: int, k: int|
        0 <= v < g.len() && 0 <= j < g[v].len() && 0 <= k < g[v][j].len() ==> symbol_in(g, nt, #[trigger] g[v][j][k])
}

/// A relation between symbols and the words they derive.
pub type Derivations = spec_fn(SymbolIndex, Seq<usize>) -> bool;

/// Whether the cut points `cuts` split `w` into one part per symbol of
/// `body`, each part derived from its symbol according to `prev`.
pub open spec fn split_ok(prev: Derivations, body: Seq<SymbolIndex>, w: Seq<usize>, cuts: Seq<int>) -> bool {
    &&& cuts.len() == body.len() + 1
    &&& cuts[0] == 0
    &&& cuts[body.len() as int] == w.len()
    &&& forall|k: int| 0 <= k < body.len() ==> #[trigger] cuts[k] <= cuts[k + 1]
    &&& forall|k: int| 0 <= k < body.len() ==> #[trigger] prev(body[k], w.subrange(cuts[k], cuts[k + 1]))
}

/// Whether `body` derives `w`, its symbols deriving consecutive parts of `w`
/// according to `prev`.
pub open spec fn body_derives(prev: Derivations, body: Seq<SymbolIndex>, w: Seq<usize>) -> bool {
    exists|cuts: Seq<int>| #[trigger] split_ok(prev, body, w, cuts)
}

/// One more level of derivation: a terminal derives itself, and a variable
/// derives what a body of one of its productions derives according to `prev`.
pub open spec fn derive_step(g: Seq<Seq<Seq<SymbolIndex>>>, prev: Derivations) -> Derivations {
    |s: SymbolIndex, w: Seq<usize>|
        match s {
            SymbolIndex::TerminalIndex(t) => w == seq![t],
            SymbolIndex::VariableIndex(v) => v < g.len() && exists|j: int|
                0 <= j < g[v as int].len() && #[trigger] body_derives(prev, g[v as int][j], w),
        }
}

/// The derivations by trees of height at most `n`.
pub open spec fn derivable(g: Seq<Seq<Seq<SymbolIndex>>>, n: nat) -> Derivations
    decreases n,
{
    if n == 0 {
        |s: SymbolIndex, w: Seq<usize>| false
    } else {
        derive_step(g, derivable(g, (n - 1) as nat))
    }
}

/// Whether symbol `s` derives the word of terminal numbers `w` by a
/// derivation tree of height at most `n`.
pub open spec fn derives(g: Seq<Seq<Seq<SymbolIndex>>>, n: nat, s: SymbolIndex, w: Seq<usize>) -> bool {
    derivable(g, n)(s, w)
}

/// Whether symbol `s` derives `w` by some derivation tree.
pub open spec fn generates(g: Seq<Seq<Seq<SymbolIndex>>>, s: SymbolIndex, w: Seq<usize>) -> bool {
    exists|n: nat| #[trigger] derives(g, n, s, w)
}

/// Whether symbol `s` derives some word.
pub open spec fn is_generating(g: Seq<Seq<Seq<SymbolIndex>>>, s: SymbolIndex) -> bool {
    exists|w: Seq<usize>| #[trigger] generates(g, s, w)
}

/// Whether every body of `g` has at most two symbols, a body of one symbol
/// being a terminal and a body of two symbols being two variables.
pub open spec fn normal_form(g: Seq<Seq<Seq<SymbolIndex>>>) -> bool {
    forall|v: int, j: int|
        0 <= v < g.len() && 0 <= j < g[v].len() ==> {
            let b = #[trigger] g[v][j];
            &&& b.len() <= 2
            &&& b.len() == 1 ==> b[0] is TerminalIndex
            &&& b.len() == 2 ==> b[0] is VariableIndex && b[1] is VariableIndex
        }
}

/// Whether every body of `g` has at most two symbols, a body of two
/// symbols being two variables (the normal form that the intersection with
/// an automaton works on).
pub open spec fn binary_form(g: Seq<Seq<Seq<SymbolIndex>>>) -> bool {
    forall|v: int, j: int|
        0 <= v < g.len() && 0 <= j < g[v].len() ==> {
            let b = #[trigger] g[v][j];
            &&& b.len() <= 2
            &&& b.len() == 2 ==> b[0] is VariableIndex && b[1] is VariableIndex
        }
}

/// A context-free grammar.
pub struct CFG {
    /// Maps terminal names to their numbers.
    pub terminal_map: TerminalMap,
    /// The terminals, by number.
    pub terminals: Vec<Terminal>,
    /// The number of the start variable.
    pub start_symbol: usize,
    /// For every variable, the bodies of its productions.
    pub productions: Vec<Vec<Vec<SymbolIndex>>>,
    /// Whether the grammar is known to be cleaned (set where it was made so).
    pub _is_cleaned: Option<bool>,
    /// Whether the grammar is known to be in normal form (set where it was made so).
    pub _in_normal_form: Option<bool>,
}

/// Whether the name map `m` points every name at a terminal of that name.
pub open spec fn names_terminals(m: Map<Seq<char>, usize>, terminals: Seq<InputSymbol>) -> bool {
    forall|s: Seq<char>| #[trigger]
        m.contains_key(s) ==> m[s] < terminals.len() && terminals[m[s] as int]@ == s
}

/// Whether the name map `m` has an entry for every terminal.
pub open spec fn maps_terminals(m: Map<Seq<char>, usize>, terminals: Seq<InputSymbol>) -> bool {
    forall|i: int| 0 <= i < terminals.len() ==> m.contains_key(#[trigger] terminals[i]@)
}

/// The names of the terminals numbered by `u`.
pub open spec fn terminal_names(terminals: Seq<InputSymbol>, u: Seq<usize>) -> Seq<Seq<char>> {
    u.map_values(|t: usize| terminals[t as int]@)
}

impl CFG {
    /// The productions as a mathematical value.
    pub open spec fn g(&self) -> Seq<Seq<Seq<SymbolIndex>>> {
        grammar_of(self.productions@)
    }

    /// The number of terminals.
    pub open spec fn nt(&self) -> nat {
        self.terminals@.len()
    }

    /// Well-formedness: every symbol of every body in range, the start
    /// variable in range, the name map pointing at terminals of that name,
    /// and the grammar in the normal form of two symbols per body where it is
    /// marked as cleaned or in normal form.
    pub open spec fn wf(&self) -> bool {
        &&& grammar_ok(self.g(), self.nt())
        &&& self.start_symbol < self.productions@.len()
        &&& names_terminals(self.terminal_map@, self.terminals@)
        &&& self._in_normal_form == Some(true) ==> binary_form(self.g())
    }

    /// The language of the grammar: the words of terminal names that the start
    /// variable derives.
    pub open spec fn generates_word(&self, w: Seq<Seq<char>>) -> bool {
        exists|u: Seq<usize>|
            #[trigger] generates(self.g(), SymbolIndex::VariableIndex(self.start_symbol), u)
                && terminal_names(self.terminals@, u) == w
    }

    /// Creates a grammar from its parts; where no name map is given, one is
    /// built from the terminals.
    pub fn new(
        terminal_map: Option<TerminalMap>,
        terminals: Vec<Terminal>,
        start_symbol: usize,
        productions: Vec<Vec<Vec<SymbolIndex>>>,
    ) -> (r: Self)
        ensures
            r.terminals@ == terminals@,
            r.start_symbol == start_symbol,
            r.productions@ == productions@,
            r.g() == grammar_of(productions@),
            r._is_cleaned is None,
            r._in_normal_form is None,
            terminal_map matches Some(m) ==> r.terminal_map@ == m@,
            terminal_map is None ==> names_terminals(r.terminal_map@, r.terminals@) && maps_terminals(
                r.terminal_map@,
                r.terminals@,
            ),
    {
        let terminal_map = match terminal_map {
            Some(map) => map,
            None => terminal_map_of(&terminals),
        };
        CFG { terminal_map, terminals, start_symbol, productions, _is_cleaned: None, _in_normal_form: None }
    }

    /// The empty grammar: one variable, the start, with no production.
    pub fn empty() -> (r: Self)
        ensures
            r.wf(),
            r.terminals@.len() == 0,
            r.start_symbol == 0,
            r.g() == seq![Seq::<Seq<SymbolIndex>>::empty()],
            r._is_cleaned == Some(true),
            r._in_normal_form == Some(true),
            binary_form(r.g()),
            normal_form(r.g()),
    {
        let productions: Vec<Vec<Vec<SymbolIndex>>> = vec![Vec::new()];
        let mut r = CFG::new(None, Vec::new(), 0, productions);
        r._is_cleaned = Some(true);
        r._in_normal_form = Some(true);
        assert(r.productions@[0]@.len() == 0);
        assert(r.g()[0] =~= Seq::<Seq<SymbolIndex>>::empty());
        assert(r.g() =~= seq![Seq::<Seq<SymbolIndex>>::empty()]);
        r
    }

    /// The variable numbered `index`, named `S_` followed by the number.
    pub fn get_variable_at(&self, index: usize) -> (v: Variable)
        ensures
            v@ == variable_name(index as nat),
    {
        let v = Variable::from_string(name_with_number("S_", index));
        proof {
            reveal_strlit("S_");
        }
        v
    }

    /// The start variable.
    pub fn get_start_symbol(&self) -> (v: Variable)
        ensures
            v@ == variable_name(self.start_symbol as nat),
    {
        self.get_variable_at(self.start_symbol)
    }

    /// The map from terminal names to terminal numbers.
    pub fn get_terminal_map(&self) -> (m: &TerminalMap)
        ensures
            m@ == self.terminal_map@,
    {
        &self.terminal_map
    }

    /// Whether the grammar is in normal form: as marked where it was made so,
    /// and otherwise whether every body has at most two symbols, one terminal
    /// or two variables (or none).
    pub fn is_normal_form(&self) -> (r: bool)
        ensures
            r == match self._in_normal_form {
                Some(b) => b,
                None => normal_form(self.g()),
            },
    {
        match self._in_normal_form {
            Some(b) => b,
            None => self._is_normal_form(),
        }
    }

    fn _is_normal_form(&self) -> (r: bool)
        ensures
            r == normal_form(self.g()),
    {
        let ghost g = self.g();
        let mut v: usize = 0;
        while v < self.productions.len()
            invariant
                g == self.g(),
                v <= self.productions@.len(),
                forall|x: int, j: int| 0 <= x < v && 0 <= j < g[x].len() ==> {
                    let b = #[trigger] g[x][j];
                    &&& b.len() <= 2
                    &&& b.len() == 1 ==> b[0] is TerminalIndex
                    &&& b.len() == 2 ==> b[0] is VariableIndex && b[1] is VariableIndex
                },
            decreases self.productions@.len() - v,
        {
            let productions = &self.productions[v];
            let mut j: usize = 0;
            while j < productions.len()
                invariant
                    g == self.g(),
                    v < self.productions@.len(),
                    productions@ == self.productions@[v as int]@,
                    j <= productions@.len(),
                    forall|x: int, i: int| 0 <= x < v && 0 <= i < g[x].len() ==> {
                        let b = #[trigger] g[x][i];
                        &&& b.len() <= 2
                        &&& b.len() == 1 ==> b[0] is TerminalIndex
                        &&& b.len() == 2 ==> b[0] is VariableIndex && b[1] is VariableIndex
                    },
                    forall|i: int| 0 <= i < j ==> {
                        let b = #[trigger] g[v as int][i];
                        &&& b.len() <= 2
                        &&& b.len() == 1 ==> b[0] is TerminalIndex
                        &&& b.len() == 2 ==> b[0] is VariableIndex && b[1] is VariableIndex
                    },
                decreases productions@.len() - j,
            {
                let production = &productions[j];
                assert(production@ == g[v as int][j as int]);
                if production.len() > 2 {
                    return false;
                }
                if production.len() == 1 {
                    match &production[0] {
                        SymbolIndex::TerminalIndex(_) => {},
                        SymbolIndex::VariableIndex(_) => {
                            return false;
                        },
                    }
                } else if production.len() == 2 {
                    match (&production[0], &production[1]) {
                        (SymbolIndex::VariableIndex(_), SymbolIndex::VariableIndex(_)) => {},
                        _ => {
                            return false;
                        },
                    }
                }
                j = j + 1;
            }
            v = v + 1;
        }
        true
    }
}

/// A copy of the productions of a grammar.
pub fn clone_productions(p: &Vec<Vec<Vec<SymbolIndex>>>) -> (r: Vec<Vec<Vec<SymbolIndex>>>)
    ensures
        r@.len() == p@.len(),
        grammar_of(r@) == grammar_of(p@),
{
    let mut r: Vec<Vec<Vec<SymbolIndex>>> = Vec::new();
    let mut v: usize = 0;
    while v < p.len()
        invariant
            v <= p@.len(),
            r@.len() == v,
            forall|x: int| 0 <= x < v ==> (#[trigger] r@[x])@.map_values(|b: Vec<SymbolIndex>| b@) == p@[x]@.map_values(
                |b: Vec<SymbolIndex>| b@,
            ),
        decreases p@.len() - v,
    {
        let bodies = &p[v];
        let mut c: Vec<Vec<SymbolIndex>> = Vec::new();
        let mut j: usize = 0;
        while j < bodies.len()
            invariant
                j <= bodies@.len(),
                c@.len() == j,
                forall|y: int| 0 <= y < j ==> (#[trigger] c@[y])@ == bodies@[y]@,
            decreases bodies@.len() - j,
        {
            c.push(clone_body(&bodies[j]));
            j = j + 1;
        }
        assert(c@.map_values(|b: Vec<SymbolIndex>| b@) =~= bodies@.map_values(|b: Vec<SymbolIndex>| b@));
        r.push(c);
        v = v + 1;
    }
    assert(grammar_of(r@) =~= grammar_of(p@));
    r
}

/// A copy of a body.
pub fn clone_body(b: &Vec<SymbolIndex>) -> (r: Vec<SymbolIndex>)
    ensures
        r@ == b@,
{
    let mut r: Vec<SymbolIndex> = Vec::new();
    let mut k: usize = 0;
    while k < b.len()
        invariant
            k <= b@.len(),
            r@ == b@.take(k as int),
        decreases b@.len() - k,
    {
        r.push(b[k]);
        assert(b@.take(k + 1) =~= b@.take(k as int).push(b@[k as int]));
        k = k + 1;
    }
    assert(b@.take(k as int) =~= b@);
    r
}

/// A copy of a list of terminals.
pub fn clone_terminals(t: &Vec<Terminal>) -> (r: Vec<Terminal>)
    ensures
        r@ == t@,
{
    let mut r: Vec<Terminal> = Vec::new();
    let mut k: usize = 0;
    while k < t.len()
        invariant
            k <= t@.len(),
            r@ == t@.take(k as int),
        decreases t@.len() - k,
    {
        r.push(t[k].clone());
        assert(t@.take(k + 1) =~= t@.take(k as int).push(t@[k as int]));
        k = k + 1;
    }
    assert(t@.take(k as int) =~= t@);
    r
}

impl Clone for CFG {
    fn clone(&self) -> (r: Self)
        ensures
            r.terminals@ == self.terminals@,
            r.start_symbol == self.start_symbol,
            r.g() == self.g(),
            r.productions@.len() == self.productions@.len(),
            r.terminal_map@ == self.terminal_map@,
            r._is_cleaned == self._is_cleaned,
            r._in_normal_form == self._in_normal_form,
    {
        CFG {
            terminal_map: self.terminal_map.clone(),
            terminals: clone_terminals(&self.terminals),
            start_symbol: self.start_symbol,
            productions: clone_productions(&self.productions),
            _is_cleaned: self._is_cleaned,
            _in_normal_form: self._in_normal_form,
        }
    }
}

/// The name of the variable numbered `i`: `S_` followed by the number.
pub open spec fn variable_name(i: nat) -> Seq<char> {
    seq!['S', '_'] + crate::text::decimal(i)
}

/// A map from the names of `terminals` to their numbers (the last number
/// where a name occurs twice).
pub fn terminal_map_of(terminals: &Vec<Terminal>) -> (m: TerminalMap)
    ensures
        names_terminals(m@, terminals@),
        maps_terminals(m@, terminals@),
{
    let mut m = TerminalMap::new();
    let mut i: usize = 0;
    while i < terminals.len()
        invariant
            i <= terminals@.len(),
            names_terminals(m@, terminals@),
            forall|k: int| 0 <= k < i ==> m@.contains_key(#[trigger] terminals@[k]@),
        decreases terminals@.len() - i,
    {
        m.insert(terminals[i].clone(), i);
        i = i + 1;
    }
    m
}

} // verus!
