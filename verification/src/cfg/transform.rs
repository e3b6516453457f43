//! Transformations of grammars: a new start variable, restriction to a set
//! of symbols, useful symbols only, one terminal per production body, and
//! bodies of at most two symbols.
use crate::cfg::cfg::{
    binary_form, body_derives, clone_body, clone_productions, clone_terminals, derivable, derive_step, derives, generates,
    grammar_of, grammar_ok, is_generating, split_ok, symbol_in, terminal_names, SymbolIndex, CFG,
};
use crate::cfg::generating::closure_target;
use crate::cfg::reduce_words::{lemma_reduction_distinct, lemma_reduction_language};
use crate::cfg::intersection_words::distinct_names;
use crate::collections::SymbolSet;
use crate::input_symbol::InputSymbol;
use vstd::prelude::*;

verus! {

/// Whether `b` is `a` restricted to the symbols of `set`: the variables and
/// terminals outside it are dropped, the others renumbered in order, and
/// every body with a dropped symbol dropped.
pub open spec fn is_reduction(a: CFG, set: Set<SymbolIndex>, b: CFG) -> bool {
    &&& b.wf()
    &&& b.productions@.len() == rank(keeps_variable(set), a.productions@.len() as int)
    &&& b.start_symbol == rank(keeps_variable(set), a.start_symbol as int)
    &&& b.terminals@.len() == rank(keeps_terminal(set), a.terminals@.len() as int)
    &&& forall|i: int| 0 <= i < a.terminals@.len() && keeps_terminal(set)(i) ==> #[trigger] b.terminals@[rank(keeps_terminal(set), i) as int] == a.terminals@[i]
    &&& forall|h: int| 0 <= h < a.productions@.len() && keeps_variable(set)(h) ==> #[trigger] b.g()[rank(keeps_variable(set), h) as int] == kept_bodies(set, a.g()[h])
}

/// The generating symbols of a grammar.
pub open spec fn generating_set(a: CFG) -> Set<SymbolIndex> {
    Set::new(|s: SymbolIndex| symbol_in(a.g(), a.nt(), s) && is_generating(a.g(), s))
}

/// The symbols reachable from the start variable of a grammar.
pub open spec fn reachable_set(a: CFG) -> Set<SymbolIndex> {
    Set::new(|s: SymbolIndex| reachable_from(a.g(), a.start_symbol, s))
}

/// The number of numbers below `i` that `keep` holds.
pub open spec fn rank(keep: spec_fn(int) -> bool, i: int) -> nat
    decreases i,
{
    if i <= 0 {
        0
    } else {
        rank(keep, i - 1) + if keep(i - 1) { 1nat } else { 0nat }
    }
}

/// Whether the set holds variable `i`.
pub open spec fn keeps_variable(set: Set<SymbolIndex>) -> spec_fn(int) -> bool {
    |i: int| set.contains(SymbolIndex::VariableIndex(i as usize))
}

/// Whether the set holds terminal `i`.
pub open spec fn keeps_terminal(set: Set<SymbolIndex>) -> spec_fn(int) -> bool {
    |i: int| set.contains(SymbolIndex::TerminalIndex(i as usize))
}

/// The symbol renumbered after dropping the symbols outside `set`.
pub open spec fn renumbered(set: Set<SymbolIndex>, s: SymbolIndex) -> SymbolIndex {
    match s {
        SymbolIndex::TerminalIndex(t) => SymbolIndex::TerminalIndex(rank(keeps_terminal(set), t as int) as usize),
        SymbolIndex::VariableIndex(v) => SymbolIndex::VariableIndex(rank(keeps_variable(set), v as int) as usize),
    }
}

/// The bodies of `bs` whose symbols `set` all holds, renumbered.
pub open spec fn kept_bodies(set: Set<SymbolIndex>, bs: Seq<Seq<SymbolIndex>>) -> Seq<Seq<SymbolIndex>>
    decreases bs.len(),
{
    if bs.len() == 0 {
        Seq::empty()
    } else {
        let rest = kept_bodies(set, bs.drop_last());
        let b = bs.last();
        if forall|k: int| 0 <= k < b.len() ==> set.contains(#[trigger] b[k]) {
            rest.push(b.map_values(|s: SymbolIndex| renumbered(set, s)))
        } else {
            rest
        }
    }
}

/// Ranks grow by one at every kept number.
pub proof fn lemma_rank_step(keep: spec_fn(int) -> bool, i: int)
    requires
        0 <= i,
    ensures
        rank(keep, i + 1) == rank(keep, i) + if keep(i) { 1nat } else { 0nat },
{
}

/// Ranks are at most the number itself, and smaller ranks belong to smaller kept numbers.
pub proof fn lemma_rank_bounds(keep: spec_fn(int) -> bool, i: int, j: int)
    requires
        0 <= i <= j,
    ensures
        rank(keep, i) <= rank(keep, j),
        rank(keep, j) <= j,
        i < j && keep(i) ==> rank(keep, i) < rank(keep, j),
    decreases j,
{
    if j > 0 {
        if i < j {
            lemma_rank_bounds(keep, i, j - 1);
        }
        lemma_rank_bounds(keep, j - 1, j - 1);
    }
}


/// Whether symbol `s` is one of the `n` variables or a terminal.
pub open spec fn symbol_below(s: SymbolIndex, n: nat) -> bool {
    s matches SymbolIndex::VariableIndex(v) ==> v < n
}

/// Adding a variable that no body names changes no derivation of the other symbols.
pub proof fn lemma_derivable_extend(g: Seq<Seq<Seq<SymbolIndex>>>, row: Seq<Seq<SymbolIndex>>, n: nat, s: SymbolIndex, w: Seq<usize>)
    requires
        forall|v: int, j: int, k: int| 0 <= v < g.len() && 0 <= j < g[v].len() && 0 <= k < g[v][j].len() ==> symbol_below(#[trigger] g[v][j][k], g.len()),
        symbol_below(s, g.len()),
    ensures
        derivable(g, n)(s, w) == derivable(g.push(row), n)(s, w),
    decreases n,
{
    if n > 0 {
        let g2 = g.push(row);
        let p1 = derivable(g, (n - 1) as nat);
        let p2 = derivable(g2, (n - 1) as nat);
        crate::cfg::generating::lemma_derivable_unfold(g, (n - 1) as nat);
        crate::cfg::generating::lemma_derivable_unfold(g2, (n - 1) as nat);
        if let SymbolIndex::VariableIndex(v) = s {
            assert(g2[v as int] == g[v as int]);
            assert forall|j: int| 0 <= j < g[v as int].len() implies #[trigger] body_derives(p1, g[v as int][j], w) == body_derives(p2, g[v as int][j], w) by {
                let body = g[v as int][j];
                assert forall|cuts: Seq<int>| #[trigger] split_ok(p1, body, w, cuts) == split_ok(p2, body, w, cuts) by {
                    assert forall|k: int| 0 <= k < body.len() implies #[trigger] p1(body[k], w.subrange(cuts[k], cuts[k + 1])) == p2(body[k], w.subrange(cuts[k], cuts[k + 1])) by {
                        assert(symbol_below(g[v as int][j][k], g.len()));
                        lemma_derivable_extend(g, row, (n - 1) as nat, body[k], w.subrange(cuts[k], cuts[k + 1]));
                    }
                    if split_ok(p1, body, w, cuts) {
                        assert forall|k: int| 0 <= k < body.len() implies #[trigger] p2(body[k], w.subrange(cuts[k], cuts[k + 1])) by {
                            assert(p1(body[k], w.subrange(cuts[k], cuts[k + 1])));
                        }
                    }
                    if split_ok(p2, body, w, cuts) {
                        assert forall|k: int| 0 <= k < body.len() implies #[trigger] p1(body[k], w.subrange(cuts[k], cuts[k + 1])) by {
                            assert(p2(body[k], w.subrange(cuts[k], cuts[k + 1])));
                        }
                    }
                }
                if body_derives(p1, body, w) {
                    let cuts = choose|cuts: Seq<int>| #[trigger] split_ok(p1, body, w, cuts);
                    assert(split_ok(p2, body, w, cuts));
                }
                if body_derives(p2, body, w) {
                    let cuts = choose|cuts: Seq<int>| #[trigger] split_ok(p2, body, w, cuts);
                    assert(split_ok(p1, body, w, cuts));
                }
            }
            if derivable(g, n)(s, w) {
                let j = choose|j: int| 0 <= j < g[v as int].len() && #[trigger] body_derives(p1, g[v as int][j], w);
                assert(body_derives(p2, g2[v as int][j], w));
            }
            if derivable(g2, n)(s, w) {
                let j = choose|j: int| 0 <= j < g2[v as int].len() && #[trigger] body_derives(p2, g2[v as int][j], w);
                assert(body_derives(p1, g[v as int][j], w));
            }
        }
    }
}

/// A new start variable whose only body is the old start variable derives
/// the words that the old one derives.
pub proof fn lemma_new_start_words(g: Seq<Seq<Seq<SymbolIndex>>>, start: usize, w: Seq<usize>)
    requires
        forall|v: int, j: int, k: int| 0 <= v < g.len() && 0 <= j < g[v].len() && 0 <= k < g[v][j].len() ==> symbol_below(#[trigger] g[v][j][k], g.len()),
        start < g.len(),
        g.len() < usize::MAX,
    ensures
        generates(g.push(seq![seq![SymbolIndex::VariableIndex(start)]]), SymbolIndex::VariableIndex(g.len() as usize), w)
            == generates(g, SymbolIndex::VariableIndex(start), w),
{
    let row = seq![seq![SymbolIndex::VariableIndex(start)]];
    let g2 = g.push(row);
    let s2 = SymbolIndex::VariableIndex(g.len() as usize);
    let s1 = SymbolIndex::VariableIndex(start);
    if generates(g, s1, w) {
        let m = choose|m: nat| #[trigger] derives(g, m, s1, w);
        lemma_derivable_extend(g, row, m, s1, w);
        assert(derives(g2, m, s1, w));
        assert(g2[g.len() as int][0][0] == s1);
        let ws = seq![w];
        assert(generates(g2, g2[g.len() as int][0][0], ws[0]));
        crate::cfg::intersection::lemma_head_from_words(g2, g.len() as int, 0, ws);
        crate::cfg::intersection::lemma_flatten_one(ws);
    }
    if generates(g2, s2, w) {
        let m = choose|m: nat| #[trigger] derives(g2, m, s2, w);
        assert(m > 0);
        let p2 = derivable(g2, (m - 1) as nat);
        crate::cfg::generating::lemma_derivable_unfold(g2, (m - 1) as nat);
        assert(derive_step(g2, p2)(s2, w));
        let j = choose|j: int| 0 <= j < g2[g.len() as int].len() && #[trigger] body_derives(p2, g2[g.len() as int][j], w);
        assert(j == 0);
        let body = g2[g.len() as int][0];
        let cuts = choose|cuts: Seq<int>| #[trigger] split_ok(p2, body, w, cuts);
        assert(p2(body[0], w.subrange(cuts[0], cuts[1])));
        assert(w.subrange(cuts[0], cuts[1]) =~= w);
        lemma_derivable_extend(g, row, (m - 1) as nat, s1, w);
        assert(derives(g, (m - 1) as nat, s1, w));
    }
}

impl CFG {
    /// The grammar with a new start variable, numbered after the others, whose
    /// only production has the old start variable as body; the new start
    /// variable stands in no body.
    pub fn with_new_start(self) -> (r: Self)
        requires
            self.wf(),
            self.productions@.len() < usize::MAX,
        ensures
            r.wf(),
            r.g() == self.g().push(seq![seq![SymbolIndex::VariableIndex(self.start_symbol)]]),
            r.terminals@ == self.terminals@,
            r.terminal_map@ == self.terminal_map@,
            r.start_symbol == self.productions@.len(),
            forall|w: Seq<Seq<char>>| #[trigger] r.generates_word(w) == self.generates_word(w),
            r._is_cleaned == self._is_cleaned,
            r._in_normal_form == self._in_normal_form,
    {
        let mut s = self;
        let ghost g0 = s.g();
        let ghost p0 = s.productions@;
        let old_start = s.start_symbol;
        let mut body: Vec<SymbolIndex> = Vec::new();
        body.push(SymbolIndex::VariableIndex(old_start));
        let mut bodies: Vec<Vec<SymbolIndex>> = Vec::new();
        bodies.push(body);
        let ghost nb = bodies;
        let new_start = s.productions.len();
        s.productions.push(bodies);
        s.start_symbol = new_start;
        proof {
            assert(body@ =~= seq![SymbolIndex::VariableIndex(old_start)]);
            assert(nb@.map_values(|b: Vec<SymbolIndex>| b@) =~= seq![seq![SymbolIndex::VariableIndex(old_start)]]);
            assert(s.productions@ == p0.push(nb));
            assert(s.g() =~= g0.push(seq![seq![SymbolIndex::VariableIndex(old_start)]]));
            let g = s.g();
            assert forall|v: int, j: int, k: int| 0 <= v < g.len() && 0 <= j < g[v].len() && 0 <= k < g[v][j].len() implies symbol_in(g, s.nt(), #[trigger] g[v][j][k]) by {
                if v < g0.len() {
                    assert(symbol_in(g0, s.nt(), g0[v][j][k]));
                }
            }
            assert forall|v: int, j: int, k: int| 0 <= v < g0.len() && 0 <= j < g0[v].len() && 0 <= k < g0[v][j].len()
                implies symbol_below(#[trigger] g0[v][j][k], g0.len()) by {
                assert(symbol_in(g0, s.nt(), g0[v][j][k]));
            }
            assert forall|w: Seq<Seq<char>>| #[trigger] s.generates_word(w) == self.generates_word(w) by {
                if s.generates_word(w) {
                    let u = choose|u: Seq<usize>| #[trigger] generates(s.g(), SymbolIndex::VariableIndex(s.start_symbol), u)
                        && terminal_names(s.terminals@, u) == w;
                    lemma_new_start_words(g0, old_start, u);
                }
                if self.generates_word(w) {
                    let u = choose|u: Seq<usize>| #[trigger] generates(self.g(), SymbolIndex::VariableIndex(self.start_symbol), u)
                        && terminal_names(self.terminals@, u) == w;
                    lemma_new_start_words(g0, old_start, u);
                    assert(generates(s.g(), SymbolIndex::VariableIndex(s.start_symbol), u));
                }
            }
        }
        s
    }
}

} // verus!

verus! {

/// For every number below `len`, how many numbers before it `keep` drops
/// (where `keep` holds it), and how many it keeps below `len`.
fn drop_counts(len: usize, Ghost(keep): Ghost<spec_fn(int) -> bool>, set: &SymbolSet, variables: bool) -> (r: (Vec<usize>, usize))
    requires
        variables ==> keep == keeps_variable(set@),
        !variables ==> keep == keeps_terminal(set@),
    ensures
        r.0@.len() == len,
        r.1 == rank(keep, len as int),
        forall|i: int| 0 <= i < len && keep(i) ==> #[trigger] r.0@[i] == i - rank(keep, i),
{
    let mut diff: Vec<usize> = Vec::new();
    let mut running_diff: usize = 0;
    let mut kept: usize = 0;
    let mut i: usize = 0;
    while i < len
        invariant
            variables ==> keep == keeps_variable(set@),
            !variables ==> keep == keeps_terminal(set@),
            i <= len,
            diff@.len() == i,
            kept == rank(keep, i as int),
            running_diff == i - rank(keep, i as int),
            forall|x: int| 0 <= x < i && keep(x) ==> #[trigger] diff@[x] == x - rank(keep, x),
        decreases len - i,
    {
        proof {
            lemma_rank_step(keep, i as int);
            lemma_rank_bounds(keep, i as int, i as int);
        }
        let present = if variables {
            set.contains(SymbolIndex::VariableIndex(i))
        } else {
            set.contains(SymbolIndex::TerminalIndex(i))
        };
        assert(present == keep(i as int));
        if !present {
            diff.push(0);
            running_diff = running_diff + 1;
        } else {
            diff.push(running_diff);
            kept = kept + 1;
        }
        i = i + 1;
    }
    (diff, kept)
}

impl CFG {
    /// The grammar restricted to the symbols in `symbols`: the variables and
    /// terminals outside it are dropped with every body that uses one, and
    /// the rest renumbered in order.
    pub fn reduced_to_symbols(&self, symbols: &SymbolSet) -> (r: Self)
        requires
            self.wf(),
            symbols@.contains(SymbolIndex::VariableIndex(self.start_symbol)),
        ensures
            is_reduction(*self, symbols@, r),
            r._is_cleaned is None,
            r._in_normal_form is None,
    {
        let ghost g = self.g();
        let ghost set = symbols@;
        let ghost kv = keeps_variable(set);
        let ghost kt = keeps_terminal(set);
        let (non_term_diff, non_terminals) = drop_counts(self.productions.len(), Ghost(kv), symbols, true);
        let (term_diff, _n_terminals) = drop_counts(self.terminals.len(), Ghost(kt), symbols, false);
        let mut terminals: Vec<InputSymbol> = Vec::new();
        let mut i: usize = 0;
        while i < self.terminals.len()
            invariant
                kt == keeps_terminal(set),
                set == symbols@,
                i <= self.terminals@.len(),
                terminals@.len() == rank(kt, i as int),
                forall|x: int| 0 <= x < i && kt(x) ==> #[trigger] terminals@[rank(kt, x) as int] == self.terminals@[x],
            decreases self.terminals@.len() - i,
        {
            proof {
                lemma_rank_step(kt, i as int);
            }
            let ghost t0 = terminals@;
            if symbols.contains(SymbolIndex::TerminalIndex(i)) {
                terminals.push(self.terminals[i].clone());
            }
            proof {
                assert forall|x: int| 0 <= x < i + 1 && kt(x) implies #[trigger] terminals@[rank(kt, x) as int] == self.terminals@[x] by {
                    if x < i {
                        lemma_rank_bounds(kt, x, i as int);
                        assert(terminals@[rank(kt, x) as int] == t0[rank(kt, x) as int]);
                    }
                }
            }
            i = i + 1;
        }
        let mut productions_list: Vec<Vec<Vec<SymbolIndex>>> = Vec::new();
        let mut head: usize = 0;
        while head < self.productions.len()
            invariant
                self.wf(),
                g == self.g(),
                set == symbols@,
                kv == keeps_variable(set),
                kt == keeps_terminal(set),
                head <= self.productions@.len(),
                non_term_diff@.len() == self.productions@.len(),
                term_diff@.len() == self.terminals@.len(),
                forall|x: int| 0 <= x < self.productions@.len() && kv(x) ==> #[trigger] non_term_diff@[x] == x - rank(kv, x),
                forall|x: int| 0 <= x < self.terminals@.len() && kt(x) ==> #[trigger] term_diff@[x] == x - rank(kt, x),
                productions_list@.len() == rank(kv, head as int),
                forall|h: int| 0 <= h < head && kv(h) ==> #[trigger] grammar_of(productions_list@)[rank(kv, h) as int] == kept_bodies(set, g[h]),
            decreases self.productions@.len() - head,
        {
            proof {
                lemma_rank_step(kv, head as int);
            }
            if !symbols.contains(SymbolIndex::VariableIndex(head)) {
                head = head + 1;
                continue;
            }
            let productions = &self.productions[head];
            let mut new_productions: Vec<Vec<SymbolIndex>> = Vec::new();
            let mut j: usize = 0;
            while j < productions.len()
                invariant
                    self.wf(),
                    g == self.g(),
                    set == symbols@,
                    kv == keeps_variable(set),
                    kt == keeps_terminal(set),
                    head < self.productions@.len(),
                    productions@ == self.productions@[head as int]@,
                    j <= productions@.len(),
                    non_term_diff@.len() == self.productions@.len(),
                    term_diff@.len() == self.terminals@.len(),
                    forall|x: int| 0 <= x < self.productions@.len() && kv(x) ==> #[trigger] non_term_diff@[x] == x - rank(kv, x),
                    forall|x: int| 0 <= x < self.terminals@.len() && kt(x) ==> #[trigger] term_diff@[x] == x - rank(kt, x),
                    new_productions@.map_values(|b: Vec<SymbolIndex>| b@) == kept_bodies(set, g[head as int].take(j as int)),
                decreases productions@.len() - j,
            {
                let production = &productions[j];
                assert(production@ == g[head as int][j as int]);
                let mut all_generating = true;
                let mut k: usize = 0;
                while k < production.len()
                    invariant
                        k <= production@.len(),
                        set == symbols@,
                        all_generating == forall|x: int| 0 <= x < k ==> set.contains(#[trigger] production@[x]),
                    decreases production@.len() - k,
                {
                    if !symbols.contains(production[k]) {
                        all_generating = false;
                    }
                    k = k + 1;
                }
                let ghost np0 = new_productions@.map_values(|b: Vec<SymbolIndex>| b@);
                proof {
                    assert(g[head as int].take(j + 1).drop_last() =~= g[head as int].take(j as int));
                    assert(g[head as int].take(j + 1).last() == production@);
                }
                if all_generating {
                    let mut new_production: Vec<SymbolIndex> = Vec::new();
                    let mut k: usize = 0;
                    while k < production.len()
                        invariant
                            self.wf(),
                            g == self.g(),
                            set == symbols@,
                            kv == keeps_variable(set),
                            kt == keeps_terminal(set),
                            head < self.productions@.len(),
                            j < g[head as int].len(),
                            production@ == g[head as int][j as int],
                            forall|x: int| 0 <= x < production@.len() ==> set.contains(#[trigger] production@[x]),
                            k <= production@.len(),
                            non_term_diff@.len() == self.productions@.len(),
                            term_diff@.len() == self.terminals@.len(),
                            forall|x: int| 0 <= x < self.productions@.len() && kv(x) ==> #[trigger] non_term_diff@[x] == x - rank(kv, x),
                            forall|x: int| 0 <= x < self.terminals@.len() && kt(x) ==> #[trigger] term_diff@[x] == x - rank(kt, x),
                            new_production@ == production@.take(k as int).map_values(|s: SymbolIndex| renumbered(set, s)),
                        decreases production@.len() - k,
                    {
                        assert(symbol_in(g, self.nt(), g[head as int][j as int][k as int]));
                        assert(set.contains(production@[k as int]));
                        let s = match production[k] {
                            SymbolIndex::TerminalIndex(index) => {
                                proof {
                                    lemma_rank_bounds(kt, index as int, index as int);
                                    assert(kt(index as int));
                                }
                                SymbolIndex::TerminalIndex(index - term_diff[index])
                            },
                            SymbolIndex::VariableIndex(index) => {
                                proof {
                                    lemma_rank_bounds(kv, index as int, index as int);
                                    assert(kv(index as int));
                                }
                                SymbolIndex::VariableIndex(index - non_term_diff[index])
                            },
                        };
                        new_production.push(s);
                        proof {
                            assert(production@.take(k + 1) =~= production@.take(k as int).push(production@[k as int]));
                        }
                        k = k + 1;
                    }
                    proof {
                        assert(production@.take(k as int) =~= production@);
                    }
                    new_productions.push(new_production);
                    proof {
                        assert(new_productions@.map_values(|b: Vec<SymbolIndex>| b@) =~= np0.push(production@.map_values(|s: SymbolIndex| renumbered(set, s))));
                    }
                } else {
                    proof {
                        assert(!(forall|x: int| 0 <= x < production@.len() ==> set.contains(#[trigger] production@[x])));
                    }
                }
                j = j + 1;
            }
            proof {
                assert(g[head as int].take(j as int) =~= g[head as int]);
            }
            let ghost pl0 = productions_list@;
            productions_list.push(new_productions);
            proof {
                assert forall|h: int| 0 <= h < head + 1 && kv(h) implies #[trigger] grammar_of(productions_list@)[rank(kv, h) as int] == kept_bodies(set, g[h]) by {
                    if h < head {
                        lemma_rank_bounds(kv, h, head as int);
                        assert(productions_list@[rank(kv, h) as int] == pl0[rank(kv, h) as int]);
                        assert(grammar_of(productions_list@)[rank(kv, h) as int] == grammar_of(pl0)[rank(kv, h) as int]);
                    } else {
                        assert(rank(kv, h) == pl0.len());
                        assert(grammar_of(productions_list@)[rank(kv, h) as int] == new_productions@.map_values(|b: Vec<SymbolIndex>| b@));
                    }
                }
            }
            head = head + 1;
        }
        proof {
            lemma_rank_bounds(kv, self.start_symbol as int, self.productions@.len() as int);
            assert(kv(self.start_symbol as int));
        }
        let start = self.start_symbol - non_term_diff[self.start_symbol];
        let r = CFG::new(None, terminals, start, productions_list);
        proof {
            let rg = r.g();
            assert forall|v: int, j: int, k: int| 0 <= v < rg.len() && 0 <= j < rg[v].len() && 0 <= k < rg[v][j].len() implies symbol_in(rg, r.nt(), #[trigger] rg[v][j][k]) by {
                lemma_kept_symbols_in_range(g, self.nt(), set, rg, v, j, k, self.productions@.len() as int);
            }
        }
        r
    }
}

/// The symbols of the restricted grammar are in range.
proof fn lemma_kept_symbols_in_range(g: Seq<Seq<Seq<SymbolIndex>>>, nt: nat, set: Set<SymbolIndex>, rg: Seq<Seq<Seq<SymbolIndex>>>, v: int, j: int, k: int, nv: int)
    requires
        grammar_ok(g, nt),
        nv == g.len(),
        rg.len() == rank(keeps_variable(set), nv),
        forall|h: int| 0 <= h < nv && keeps_variable(set)(h) ==> #[trigger] rg[rank(keeps_variable(set), h) as int] == kept_bodies(set, g[h]),
        0 <= v < rg.len(),
        0 <= j < rg[v].len(),
        0 <= k < rg[v][j].len(),
    ensures
        symbol_in(rg, rank(keeps_terminal(set), nt as int), rg[v][j][k]),
{
    let kv = keeps_variable(set);
    let kt = keeps_terminal(set);
    lemma_rank_preimage(kv, nv, v);
    let h = choose|h: int| 0 <= h < nv && kv(h) && rank(kv, h) == v;
    assert(rg[v] == kept_bodies(set, g[h]));
    lemma_kept_body(set, g[h], j);
    let jj = choose|jj: int| 0 <= jj < g[h].len() && (forall|x: int| 0 <= x < g[h][jj].len() ==> set.contains(#[trigger] g[h][jj][x]))
        && kept_bodies(set, g[h])[j] == g[h][jj].map_values(|s: SymbolIndex| renumbered(set, s));
    let b = g[h][jj];
    assert(rg[v][j][k] == renumbered(set, b[k]));
    assert(symbol_in(g, nt, g[h][jj][k]));
    assert(set.contains(b[k]));
    match b[k] {
        SymbolIndex::TerminalIndex(t) => {
            lemma_rank_bounds(kt, t as int, nt as int);
        },
        SymbolIndex::VariableIndex(x) => {
            lemma_rank_bounds(kv, x as int, nv);
        },
    }
}

/// Every body of a restricted grammar is a body of the grammar, renumbered.
pub proof fn lemma_reduction_body(a: CFG, set: Set<SymbolIndex>, b: CFG, v: int, j: int)
    requires
        is_reduction(a, set, b),
        0 <= v < b.g().len(),
        0 <= j < b.g()[v].len(),
    ensures
        exists|h: int, jj: int| 0 <= h < a.g().len() && 0 <= jj < a.g()[h].len()
            && #[trigger] b.g()[v][j] == a.g()[h][jj].map_values(|s: SymbolIndex| renumbered(set, s)),
{
    let kv = keeps_variable(set);
    lemma_rank_preimage(kv, a.productions@.len() as int, v);
    let h = choose|h: int| 0 <= h < a.productions@.len() && kv(h) && rank(kv, h) == v;
    assert(b.g()[v] == kept_bodies(set, a.g()[h]));
    lemma_kept_body(set, a.g()[h], j);
    let jj = choose|jj: int| 0 <= jj < a.g()[h].len() && (forall|x: int| 0 <= x < a.g()[h][jj].len() ==> set.contains(#[trigger] a.g()[h][jj][x]))
        && kept_bodies(set, a.g()[h])[j] == a.g()[h][jj].map_values(|s: SymbolIndex| renumbered(set, s));
}

/// Restricting a grammar keeps bodies of two or more symbols made of
/// variables, and keeps the binary form.
pub proof fn lemma_reduction_forms(a: CFG, set: Set<SymbolIndex>, b: CFG)
    requires
        is_reduction(a, set, b),
    ensures
        long_bodies_variables(a.g()) ==> long_bodies_variables(b.g()),
        binary_form(a.g()) ==> binary_form(b.g()),
{
    assert forall|v: int, j: int| 0 <= v < b.g().len() && 0 <= j < b.g()[v].len() implies {
        let c = #[trigger] b.g()[v][j];
        &&& long_bodies_variables(a.g()) && c.len() >= 2 ==> forall|k: int| 0 <= k < c.len() ==> (#[trigger] c[k]) is VariableIndex
        &&& binary_form(a.g()) ==> c.len() <= 2 && (c.len() == 2 ==> c[0] is VariableIndex && c[1] is VariableIndex)
    } by {
        lemma_reduction_body(a, set, b, v, j);
        let (h, jj) = choose|h: int, jj: int| 0 <= h < a.g().len() && 0 <= jj < a.g()[h].len()
            && #[trigger] b.g()[v][j] == a.g()[h][jj].map_values(|s: SymbolIndex| renumbered(set, s));
        let c = b.g()[v][j];
        let o = a.g()[h][jj];
        assert(c.len() == o.len());
        assert forall|k: int| 0 <= k < c.len() implies (c[k] is VariableIndex <==> o[k] is VariableIndex) by {
            assert(c[k] == renumbered(set, o[k]));
        }
        if binary_form(a.g()) {
            assert(o.len() <= 2);
        }
        if long_bodies_variables(a.g()) && c.len() >= 2 {
            assert forall|k: int| 0 <= k < c.len() implies (#[trigger] c[k]) is VariableIndex by {
                assert(o[k] is VariableIndex);
            }
        }
    }
}

/// Every rank below that of `n` is the rank of a kept number below `n`.
pub proof fn lemma_rank_preimage(keep: spec_fn(int) -> bool, n: int, v: int)
    requires
        0 <= v < rank(keep, n),
    ensures
        exists|h: int| 0 <= h < n && keep(h) && rank(keep, h) == v,
    decreases n,
{
    if n > 0 {
        if v < rank(keep, n - 1) {
            lemma_rank_preimage(keep, n - 1, v);
            let h = choose|h: int| 0 <= h < n - 1 && keep(h) && rank(keep, h) == v;
            assert(0 <= h < n && keep(h) && rank(keep, h) == v);
        } else {
            assert(keep(n - 1) && rank(keep, n - 1) == v);
        }
    }
}

/// Every kept body is a body whose symbols the set holds, renumbered.
pub proof fn lemma_kept_body(set: Set<SymbolIndex>, bs: Seq<Seq<SymbolIndex>>, j: int)
    requires
        0 <= j < kept_bodies(set, bs).len(),
    ensures
        exists|jj: int| 0 <= jj < bs.len() && (forall|x: int| 0 <= x < bs[jj].len() ==> set.contains(#[trigger] bs[jj][x]))
            && kept_bodies(set, bs)[j] == bs[jj].map_values(|s: SymbolIndex| renumbered(set, s)),
    decreases bs.len(),
{
    let rest = kept_bodies(set, bs.drop_last());
    if j < rest.len() {
        lemma_kept_body(set, bs.drop_last(), j);
        let jj = choose|jj: int| 0 <= jj < bs.drop_last().len() && (forall|x: int| 0 <= x < bs.drop_last()[jj].len() ==> set.contains(#[trigger] bs.drop_last()[jj][x]))
            && rest[j] == bs.drop_last()[jj].map_values(|s: SymbolIndex| renumbered(set, s));
        assert(bs[jj] == bs.drop_last()[jj]);
        assert(kept_bodies(set, bs)[j] == rest[j]);
    } else {
        let jj = bs.len() - 1;
        assert(bs[jj] == bs.last());
    }
}

} // verus!

verus! {

/// Whether symbol `s` occurs in a body of variable `h`.
pub open spec fn occurs_in(g: Seq<Seq<Seq<SymbolIndex>>>, h: int, s: SymbolIndex) -> bool {
    0 <= h < g.len() && exists|j: int, k: int| 0 <= j < g[h].len() && 0 <= k < g[h][j].len() && #[trigger] g[h][j][k] == s
}

/// Whether `path` is a chain of variables, each occurring in a body of the one before.
pub open spec fn variable_path(g: Seq<Seq<Seq<SymbolIndex>>>, path: Seq<usize>) -> bool {
    &&& path.len() >= 1
    &&& forall|i: int| 0 <= i < path.len() - 1 ==> occurs_in(g, #[trigger] path[i] as int, SymbolIndex::VariableIndex(path[i + 1]))
}

/// Whether `s` is reachable from variable `start`: it is the end of a chain of
/// variables from `start`, or occurs in a body of the end of one.
pub open spec fn reachable_from(g: Seq<Seq<Seq<SymbolIndex>>>, start: usize, s: SymbolIndex) -> bool {
    exists|path: Seq<usize>| #[trigger] variable_path(g, path) && path[0] == start && (s == SymbolIndex::VariableIndex(path.last())
        || occurs_in(g, path.last() as int, s))
}

/// A set that holds `start` and every symbol occurring in the bodies of the
/// variables it holds holds every symbol reachable from `start`.
pub proof fn lemma_closed_reach(g: Seq<Seq<Seq<SymbolIndex>>>, set: Set<SymbolIndex>, start: usize, path: Seq<usize>, i: int)
    requires
        set.contains(SymbolIndex::VariableIndex(start)),
        forall|h: usize, s: SymbolIndex| h < g.len() && set.contains(SymbolIndex::VariableIndex(h)) && #[trigger] occurs_in(g, h as int, s) ==> set.contains(s),
        variable_path(g, path),
        path[0] == start,
        0 <= i < path.len(),
        forall|x: int| 0 <= x < path.len() ==> #[trigger] path[x] < g.len(),
    ensures
        set.contains(SymbolIndex::VariableIndex(path[i])),
    decreases i,
{
    if i > 0 {
        lemma_closed_reach(g, set, start, path, i - 1);
        assert(occurs_in(g, path[i - 1] as int, SymbolIndex::VariableIndex(path[i])));
    }
}

impl CFG {
    /// The symbols reachable from the start variable.
    #[verifier::rlimit(60)]
    pub fn get_reachable_symbols(&self) -> (r: SymbolSet)
        requires
            self.wf(),
        ensures
            forall|s: SymbolIndex| #[trigger] r@.contains(s) <==> reachable_from(self.g(), self.start_symbol, s),
    {
        let ghost g = self.g();
        let nv = self.productions.len();
        // for every variable, the symbols in its bodies
        let mut reachable_transitions: Vec<SymbolSet> = Vec::new();
        let mut head: usize = 0;
        while head < nv
            invariant
                g == self.g(),
                nv == g.len(),
                head <= nv,
                reachable_transitions@.len() == head,
                forall|h: int, s: SymbolIndex| 0 <= h < head ==> (#[trigger] reachable_transitions@[h]@.contains(s) <==> occurs_in(g, h, s)),
            decreases nv - head,
        {
            let productions = &self.productions[head];
            let mut temp = SymbolSet::new();
            let mut j: usize = 0;
            while j < productions.len()
                invariant
                    g == self.g(),
                    head < nv,
                    nv == g.len(),
                    productions@ == self.productions@[head as int]@,
                    j <= productions@.len(),
                    forall|s: SymbolIndex| #[trigger] temp@.contains(s) <==> exists|j2: int, k: int| 0 <= j2 < j && 0 <= k < g[head as int][j2].len() && #[trigger] g[head as int][j2][k] == s,
                decreases productions@.len() - j,
            {
                let production = &productions[j];
                assert(production@ == g[head as int][j as int]);
                let mut k: usize = 0;
                while k < production.len()
                    invariant
                        g == self.g(),
                        head < nv,
                        nv == g.len(),
                        j < g[head as int].len(),
                        production@ == g[head as int][j as int],
                        k <= production@.len(),
                        forall|s: SymbolIndex| #[trigger] temp@.contains(s) <==> (exists|j2: int, k2: int| 0 <= j2 < j && 0 <= k2 < g[head as int][j2].len() && #[trigger] g[head as int][j2][k2] == s)
                            || exists|k2: int| 0 <= k2 < k && #[trigger] g[head as int][j as int][k2] == s,
                    decreases production@.len() - k,
                {
                    temp.insert(production[k]);
                    proof {
                        assert(g[head as int][j as int][k as int] == production@[k as int]);
                    }
                    k = k + 1;
                }
                proof {
                    assert forall|s: SymbolIndex| #[trigger] temp@.contains(s) implies exists|j2: int, k2: int| 0 <= j2 < j + 1 && 0 <= k2 < g[head as int][j2].len() && #[trigger] g[head as int][j2][k2] == s by {
                        if exists|k2: int| 0 <= k2 < k && #[trigger] g[head as int][j as int][k2] == s {
                            let k2 = choose|k2: int| 0 <= k2 < k && #[trigger] g[head as int][j as int][k2] == s;
                            assert(g[head as int][j as int][k2] == s);
                        }
                    }
                    assert forall|s: SymbolIndex| (exists|j2: int, k2: int| 0 <= j2 < j + 1 && 0 <= k2 < g[head as int][j2].len() && #[trigger] g[head as int][j2][k2] == s) implies #[trigger] temp@.contains(s) by {
                        let (j2, k2) = choose|j2: int, k2: int| 0 <= j2 < j + 1 && 0 <= k2 < g[head as int][j2].len() && #[trigger] g[head as int][j2][k2] == s;
                        if j2 == j {
                            assert(g[head as int][j as int][k2] == s);
                        }
                    }
                }
                j = j + 1;
            }
            reachable_transitions.push(temp);
            proof {
                assert forall|h: int, s: SymbolIndex| 0 <= h < head + 1 implies (#[trigger] reachable_transitions@[h]@.contains(s) <==> occurs_in(g, h, s)) by {
                    if h == head {
                        if occurs_in(g, h, s) {
                            let (j2, k2) = choose|j2: int, k2: int| 0 <= j2 < g[h].len() && 0 <= k2 < g[h][j2].len() && #[trigger] g[h][j2][k2] == s;
                            assert(g[head as int][j2][k2] == s);
                        }
                    }
                }
            }
            head = head + 1;
        }
        let mut reachable_symbols = SymbolSet::new();
        reachable_symbols.insert(SymbolIndex::VariableIndex(self.start_symbol));
        let mut to_process: Vec<usize> = Vec::new();
        to_process.push(self.start_symbol);
        let ghost mut done: Set<usize> = Set::empty();
        proof {
            let path = seq![self.start_symbol];
            assert(variable_path(g, path));
            assert(reachable_from(g, self.start_symbol, SymbolIndex::VariableIndex(self.start_symbol)));
            crate::cfg::generating::lemma_symbol_set_bounded(g, self.nt(), reachable_symbols@);
        }
        while to_process.len() > 0
            invariant
                self.wf(),
                g == self.g(),
                nv == g.len(),
                reachable_transitions@.len() == nv,
                forall|h: int, s: SymbolIndex| 0 <= h < nv ==> (#[trigger] reachable_transitions@[h]@.contains(s) <==> occurs_in(g, h, s)),
                reachable_symbols@.contains(SymbolIndex::VariableIndex(self.start_symbol)),
                forall|s: SymbolIndex| #[trigger] reachable_symbols@.contains(s) ==> reachable_from(g, self.start_symbol, s) && symbol_in(g, self.nt(), s),
                forall|i: int| 0 <= i < to_process@.len() ==> #[trigger] to_process@[i] < nv && reachable_symbols@.contains(SymbolIndex::VariableIndex(to_process@[i])),
                forall|h: usize| h < nv && #[trigger] reachable_symbols@.contains(SymbolIndex::VariableIndex(h)) ==> done.contains(h) || to_process@.contains(h),
                forall|h: usize, s: SymbolIndex| #![trigger done.contains(h), occurs_in(g, h as int, s)] done.contains(h) && occurs_in(g, h as int, s) ==> reachable_symbols@.contains(s),
                forall|h: usize| #[trigger] done.contains(h) ==> h < nv,
                reachable_symbols@.finite(),
            decreases nv + self.nt() - reachable_symbols@.len(), to_process@.len(),
        {
            proof {
                crate::cfg::generating::lemma_symbol_set_bounded(g, self.nt(), reachable_symbols@);
            }
            let ghost stack0 = to_process@;
            let ghost len0 = reachable_symbols@.len();
            let symbol = to_process.pop().unwrap();
            proof {
                assert(stack0 == to_process@.push(symbol));
                assert(stack0[stack0.len() - 1] == symbol);
            }
            let nexts = reachable_transitions[symbol].to_vec();
            proof {
                assert forall|t: int| 0 <= t < nexts@.len() implies reachable_from(g, self.start_symbol, #[trigger] nexts@[t]) && symbol_in(g, self.nt(), nexts@[t]) by {
                    assert(nexts@.to_set().contains(nexts@[t]));
                    assert(occurs_in(g, symbol as int, nexts@[t]));
                    lemma_reach_extends(g, self.nt(), self.start_symbol, symbol, nexts@[t]);
                }
            }
            let ghost set0 = reachable_symbols@;
            let ghost stack1 = to_process@;
            add_symbols(&mut reachable_symbols, &mut to_process, &nexts);
            proof {
                assert forall|i: int| 0 <= i < to_process@.len() implies #[trigger] to_process@[i] < nv && reachable_symbols@.contains(SymbolIndex::VariableIndex(to_process@[i])) by {
                    if i < stack1.len() {
                        assert(to_process@[i] == stack1[i]);
                    } else {
                        let x = to_process@[i];
                        assert(nexts@.to_set().contains(SymbolIndex::VariableIndex(x)));
                        let t = choose|t: int| 0 <= t < nexts@.len() && nexts@[t] == SymbolIndex::VariableIndex(x);
                        assert(symbol_in(g, self.nt(), nexts@[t]));
                    }
                }
                assert forall|h: usize| h < nv && #[trigger] reachable_symbols@.contains(SymbolIndex::VariableIndex(h)) implies done.contains(h) || to_process@.contains(h) || h == symbol by {
                    if set0.contains(SymbolIndex::VariableIndex(h)) {
                        if stack1.contains(h) {
                            let i = choose|i: int| 0 <= i < stack1.len() && stack1[i] == h;
                            assert(to_process@[i] == h);
                        }
                    }
                }
                assert forall|s2: SymbolIndex| #[trigger] reachable_symbols@.contains(s2) implies reachable_from(g, self.start_symbol, s2) && symbol_in(g, self.nt(), s2) by {
                    if !set0.contains(s2) {
                        let t = choose|t: int| 0 <= t < nexts@.len() && nexts@[t] == s2;
                    }
                }
            }
            proof {
                done = done.insert(symbol);
                assert forall|s: SymbolIndex| occurs_in(g, symbol as int, s) implies reachable_symbols@.contains(s) by {
                    assert(reachable_transitions@[symbol as int]@.contains(s));
                    assert(nexts@.to_set().contains(s));
                }
                crate::cfg::generating::lemma_symbol_set_bounded(g, self.nt(), reachable_symbols@);
            }
        }
        proof {
            assert forall|s: SymbolIndex| reachable_from(g, self.start_symbol, s) implies #[trigger] reachable_symbols@.contains(s) by {
                let path = choose|path: Seq<usize>| #[trigger] variable_path(g, path) && path[0] == self.start_symbol && (s == SymbolIndex::VariableIndex(path.last())
                    || occurs_in(g, path.last() as int, s));
                assert forall|x: int| 0 <= x < path.len() implies #[trigger] path[x] < g.len() by {
                    if x == 0 {
                    } else {
                        assert(occurs_in(g, path[x - 1] as int, SymbolIndex::VariableIndex(path[x])));
                        lemma_path_in_range(g, self.nt(), path, x);
                    }
                }
                lemma_closed_reach(g, reachable_symbols@, self.start_symbol, path, path.len() - 1);
            }
        }
        reachable_symbols
    }
}

/// Adds the symbols of `nexts` to the set, and pushes every variable among
/// them that the set lacked.
fn add_symbols(set: &mut SymbolSet, stack: &mut Vec<usize>, nexts: &Vec<SymbolIndex>)
    requires
        old(set)@.finite(),
    ensures
        final(set)@ == old(set)@.union(nexts@.to_set()),
        final(stack)@.len() >= old(stack)@.len(),
        forall|i: int| 0 <= i < old(stack)@.len() ==> #[trigger] final(stack)@[i] == old(stack)@[i],
        forall|i: int| old(stack)@.len() <= i < final(stack)@.len() ==> nexts@.to_set().contains(SymbolIndex::VariableIndex(#[trigger] final(stack)@[i])),
        forall|x: usize| nexts@.to_set().contains(SymbolIndex::VariableIndex(x)) && !old(set)@.contains(SymbolIndex::VariableIndex(x)) ==> #[trigger] final(stack)@.contains(x),
        final(set)@.finite(),
        final(set)@.len() >= old(set)@.len(),
        final(set)@.len() == old(set)@.len() ==> final(stack)@.len() == old(stack)@.len(),
{
    let ghost set0 = set@;
    let ghost stack0 = stack@;
    let mut k: usize = 0;
    while k < nexts.len()
        invariant
            k <= nexts@.len(),
            set@ == set0.union(nexts@.take(k as int).to_set()),
            set@.finite(),
            stack@.len() >= stack0.len(),
            forall|i: int| 0 <= i < stack0.len() ==> #[trigger] stack@[i] == stack0[i],
            forall|i: int| stack0.len() <= i < stack@.len() ==> nexts@.to_set().contains(SymbolIndex::VariableIndex(#[trigger] stack@[i])),
            forall|x: usize| nexts@.take(k as int).to_set().contains(SymbolIndex::VariableIndex(x)) && !set0.contains(SymbolIndex::VariableIndex(x)) ==> #[trigger] stack@.contains(x),
            set@.len() >= set0.len(),
            set@.len() == set0.len() ==> stack@.len() == stack0.len(),
        decreases nexts@.len() - k,
    {
        let next_symbol = nexts[k];
        let ghost s1 = set@;
        let ghost st1 = stack@;
        proof {
            assert(nexts@.take(k + 1) =~= nexts@.take(k as int).push(next_symbol));
            nexts@.take(k as int).lemma_push_to_set_commute(next_symbol);
            assert(nexts@.take(k + 1).to_set() =~= nexts@.take(k as int).to_set().insert(next_symbol));
            assert(nexts@.to_set().contains(nexts@[k as int]));
        }
        if set.insert(next_symbol) {
            match next_symbol {
                SymbolIndex::VariableIndex(index) => {
                    stack.push(index);
                    proof {
                        assert(stack@[st1.len() as int] == index);
                    }
                },
                SymbolIndex::TerminalIndex(_) => {},
            }
        }
        proof {
            assert(set@ =~= set0.union(nexts@.take(k + 1).to_set()));
            assert forall|x: usize| nexts@.take(k + 1).to_set().contains(SymbolIndex::VariableIndex(x)) && !set0.contains(SymbolIndex::VariableIndex(x)) implies #[trigger] stack@.contains(x) by {
                if st1.contains(x) {
                    let i = choose|i: int| 0 <= i < st1.len() && st1[i] == x;
                    assert(stack@[i] == x);
                }
            }
        }
        k = k + 1;
    }
    proof {
        assert(nexts@.take(k as int) =~= nexts@);
    }
}

/// What occurs in a body of a reachable variable is reachable, and in range.
proof fn lemma_reach_extends(g: Seq<Seq<Seq<SymbolIndex>>>, nt: nat, start: usize, symbol: usize, next_symbol: SymbolIndex)
    requires
        grammar_ok(g, nt),
        reachable_from(g, start, SymbolIndex::VariableIndex(symbol)),
        occurs_in(g, symbol as int, next_symbol),
    ensures
        reachable_from(g, start, next_symbol),
        symbol_in(g, nt, next_symbol),
{
    let (j2, k2) = choose|j2: int, k2: int| 0 <= j2 < g[symbol as int].len() && 0 <= k2 < g[symbol as int][j2].len() && #[trigger] g[symbol as int][j2][k2] == next_symbol;
    assert(symbol_in(g, nt, g[symbol as int][j2][k2]));
    let path = choose|path: Seq<usize>| #[trigger] variable_path(g, path) && path[0] == start && (SymbolIndex::VariableIndex(symbol) == SymbolIndex::VariableIndex(path.last())
        || occurs_in(g, path.last() as int, SymbolIndex::VariableIndex(symbol)));
    if SymbolIndex::VariableIndex(symbol) == SymbolIndex::VariableIndex(path.last()) {
        assert(reachable_from(g, start, next_symbol));
    } else {
        let path2 = path.push(symbol);
        assert(path2.last() == symbol);
        assert forall|i: int| 0 <= i < path2.len() - 1 implies occurs_in(g, #[trigger] path2[i] as int, SymbolIndex::VariableIndex(path2[i + 1])) by {
            if i < path.len() - 1 {
                assert(path2[i] == path[i] && path2[i + 1] == path[i + 1]);
            }
        }
        assert(variable_path(g, path2));
        assert(reachable_from(g, start, next_symbol));
    }
}

/// The variables of a chain from a variable in range are in range.
proof fn lemma_path_in_range(g: Seq<Seq<Seq<SymbolIndex>>>, nt: nat, path: Seq<usize>, x: int)
    requires
        grammar_ok(g, nt),
        variable_path(g, path),
        0 < x < path.len(),
    ensures
        path[x] < g.len(),
{
    assert(occurs_in(g, path[x - 1] as int, SymbolIndex::VariableIndex(path[x])));
    let (j, k) = choose|j: int, k: int| 0 <= j < g[path[x - 1] as int].len() && 0 <= k < g[path[x - 1] as int][j].len() && #[trigger] g[path[x - 1] as int][j][k] == SymbolIndex::VariableIndex(path[x]);
    assert(symbol_in(g, nt, g[path[x - 1] as int][j][k]));
}

} // verus!

verus! {

impl CFG {
    /// The grammar without useless symbols: first restricted to its generating
    /// symbols, then to the symbols reachable from its start variable.
    pub fn without_useless_symbols(&self) -> (r: Self)
        requires
            self.wf(),
            is_generating(self.g(), SymbolIndex::VariableIndex(self.start_symbol)),
        ensures
            r.wf(),
            exists|mid: CFG| #[trigger] is_reduction(*self, generating_set(*self), mid) && is_reduction(mid, reachable_set(mid), r),
            long_bodies_variables(self.g()) ==> long_bodies_variables(r.g()),
            binary_form(self.g()) ==> binary_form(r.g()),
            forall|w: Seq<Seq<char>>| #[trigger] r.generates_word(w) == self.generates_word(w),
            distinct_names(self.terminals@) ==> distinct_names(r.terminals@),
            r._is_cleaned is None,
            r._in_normal_form is None,
    {
        let generating_symbols = self.get_generating_symbols();
        proof {
            assert(generating_symbols@ =~= generating_set(*self));
        }
        let cfg_temp = self.reduced_to_symbols(&generating_symbols);
        let reachable_symbols = cfg_temp.get_reachable_symbols();
        proof {
            assert(reachable_symbols@ =~= reachable_set(cfg_temp));
            let path = seq![cfg_temp.start_symbol];
            assert(variable_path(cfg_temp.g(), path));
            assert(reachable_from(cfg_temp.g(), cfg_temp.start_symbol, SymbolIndex::VariableIndex(cfg_temp.start_symbol)));
        }
        let r = cfg_temp.reduced_to_symbols(&reachable_symbols);
        proof {
            assert(is_reduction(*self, generating_set(*self), cfg_temp) && is_reduction(cfg_temp, reachable_set(cfg_temp), r));
            lemma_reduction_forms(*self, generating_set(*self), cfg_temp);
            lemma_reduction_forms(cfg_temp, reachable_set(cfg_temp), r);
            let g = self.g();
            assert forall|v: int, j: int, k: int|
                0 <= v < g.len() && 0 <= j < g[v].len() && 0 <= k < g[v][j].len() && generating_set(*self).contains(SymbolIndex::VariableIndex(v as usize))
                    && is_generating(g, g[v][j][k]) implies generating_set(*self).contains(#[trigger] g[v][j][k]) by {
                assert(symbol_in(g, self.nt(), g[v][j][k]));
            }
            assert(generating_set(*self).contains(SymbolIndex::VariableIndex(self.start_symbol)));
            lemma_reduction_language(*self, generating_set(*self), cfg_temp);
            let tg = cfg_temp.g();
            assert forall|v: int, j: int, k: int|
                0 <= v < tg.len() && 0 <= j < tg[v].len() && 0 <= k < tg[v][j].len() && reachable_set(cfg_temp).contains(SymbolIndex::VariableIndex(v as usize))
                    && is_generating(tg, tg[v][j][k]) implies reachable_set(cfg_temp).contains(#[trigger] tg[v][j][k]) by {
                assert(occurs_in(tg, (v as usize) as int, tg[v][j][k]));
                lemma_reach_extends(tg, cfg_temp.nt(), cfg_temp.start_symbol, v as usize, tg[v][j][k]);
            }
            lemma_reduction_language(cfg_temp, reachable_set(cfg_temp), r);
            if distinct_names(self.terminals@) {
                lemma_reduction_distinct(*self, generating_set(*self), cfg_temp);
                lemma_reduction_distinct(cfg_temp, reachable_set(cfg_temp), r);
            }
        }
        r
    }
}

/// Whether every body of two or more symbols is made of variables only.
pub open spec fn long_bodies_variables(g: Seq<Seq<Seq<SymbolIndex>>>) -> bool {
    forall|v: int, j: int, k: int|
        0 <= v < g.len() && 0 <= j < g[v].len() && g[v][j].len() >= 2 && 0 <= k < g[v][j].len() ==> (#[trigger] g[v][j][k]) is VariableIndex
}

/// Whether a variable's bodies are exactly one body made of one terminal.
pub open spec fn single_terminal_rule(bodies: Seq<Seq<SymbolIndex>>, nt: nat) -> bool {
    exists|t: usize| t < nt && bodies == seq![seq![SymbolIndex::TerminalIndex(t)]]
}

/// Whether every body has at most two symbols.
pub open spec fn short_bodies(g: Seq<Seq<Seq<SymbolIndex>>>) -> bool {
    forall|v: int, j: int| 0 <= v < g.len() && 0 <= j < g[v].len() ==> (#[trigger] g[v][j]).len() <= 2
}

impl CFG {
    /// The grammar in which every body of other than one symbol has each
    /// terminal `t` replaced by a new variable whose only body is `t` (one new
    /// variable per terminal, numbered after the old ones in order of first use).
    pub fn with_only_single_terminal_productions(&self) -> (r: Self)
        requires
            self.wf(),
            self.productions@.len() + self.terminals@.len() <= usize::MAX,
        ensures
            r.wf(),
            r.terminals@ == self.terminals@,
            r.start_symbol == self.start_symbol,
            r.productions@.len() >= self.productions@.len(),
            long_bodies_variables(r.g()),
            forall|h: int| 0 <= h < self.productions@.len() ==> (#[trigger] r.g()[h]).len() == self.g()[h].len(),
            forall|h: int, j: int| 0 <= h < self.productions@.len() && 0 <= j < self.g()[h].len() ==> {
                let b = #[trigger] self.g()[h][j];
                let c = r.g()[h][j];
                &&& c.len() == b.len()
                &&& b.len() == 1 ==> c == b
                &&& b.len() != 1 ==> forall|k: int| 0 <= k < b.len() ==> {
                    &&& b[k] is VariableIndex ==> #[trigger] c[k] == b[k]
                    &&& b[k] is TerminalIndex ==> c[k] is VariableIndex && c[k]->VariableIndex_0 >= self.productions@.len()
                        && r.g()[c[k]->VariableIndex_0 as int] == seq![seq![b[k]]]
                }
            },
            forall|x: int| self.productions@.len() <= x < r.productions@.len() ==> single_terminal_rule(#[trigger] r.g()[x], self.nt()),
            forall|w: Seq<Seq<char>>| #[trigger] r.generates_word(w) == self.generates_word(w),
            r._is_cleaned is None,
            r._in_normal_form is None,
    {
        let ghost g = self.g();
        let nv = self.productions.len();
        let nt = self.terminals.len();
        let mut added_non_terminals: Vec<Option<usize>> = Vec::new();
        let mut i: usize = 0;
        while i < nt
            invariant
                i <= nt,
                added_non_terminals@.len() == i,
                forall|k: int| 0 <= k < i ==> (#[trigger] added_non_terminals@[k]) is None,
                crate::cfg::example::nones(added_non_terminals@) == i,
            decreases nt - i,
        {
            let ghost a0 = added_non_terminals@;
            added_non_terminals.push(None);
            proof {
                assert(added_non_terminals@.drop_last() =~= a0);
            }
            i = i + 1;
        }
        let mut new_productions: Vec<Vec<Vec<SymbolIndex>>> = Vec::new();
        let mut productions_list: Vec<Vec<Vec<SymbolIndex>>> = Vec::new();
        let mut h: usize = 0;
        while h < nv
            invariant
                self.wf(),
                g == self.g(),
                nv == g.len(),
                nt == self.nt(),
                nv + nt <= usize::MAX,
                h <= nv,
                productions_list@.len() == h,
                added_non_terminals@.len() == nt,
                forall|t: int| 0 <= t < nt && (#[trigger] added_non_terminals@[t]) is Some ==> {
                    let x = added_non_terminals@[t]->Some_0;
                    &&& nv <= x < nv + new_productions@.len()
                    &&& grammar_of(new_productions@)[x - nv] == seq![seq![SymbolIndex::TerminalIndex(t as usize)]]
                },
                forall|y: int| 0 <= y < new_productions@.len() ==> exists|t: usize| t < nt && #[trigger] grammar_of(new_productions@)[y] == seq![seq![SymbolIndex::TerminalIndex(t)]] && added_non_terminals@[t as int] == Some((nv + y) as usize),
                crate::cfg::example::nones(added_non_terminals@) + new_productions@.len() == nt,
                forall|h2: int| 0 <= h2 < h ==> (#[trigger] grammar_of(productions_list@)[h2]).len() == g[h2].len(),
                forall|h2: int, j: int| 0 <= h2 < h && 0 <= j < g[h2].len() ==> {
                    let b = #[trigger] g[h2][j];
                    let c = grammar_of(productions_list@)[h2][j];
                    &&& c.len() == b.len()
                    &&& b.len() == 1 ==> c == b
                    &&& b.len() != 1 ==> forall|k: int| 0 <= k < b.len() ==> {
                        &&& b[k] is VariableIndex ==> #[trigger] c[k] == b[k]
                        &&& b[k] is TerminalIndex ==> c[k] is VariableIndex && added_non_terminals@[b[k]->TerminalIndex_0 as int] == Some(c[k]->VariableIndex_0)
                    }
                },
            decreases nv - h,
        {
            let productions = &self.productions[h];
            let ghost a_h = added_non_terminals@;
            let mut productions_list_head: Vec<Vec<SymbolIndex>> = Vec::new();
            let mut j: usize = 0;
            while j < productions.len()
                invariant
                    self.wf(),
                    a_h.len() == nt,
                    forall|t: int| 0 <= t < nt && (#[trigger] a_h[t]) is Some ==> added_non_terminals@[t] == a_h[t],
                    g == self.g(),
                    nv == g.len(),
                    nt == self.nt(),
                    nv + nt <= usize::MAX,
                    h < nv,
                    productions@ == self.productions@[h as int]@,
                    j <= productions@.len(),
                    productions_list_head@.len() == j,
                    added_non_terminals@.len() == nt,
                    forall|t: int| 0 <= t < nt && (#[trigger] added_non_terminals@[t]) is Some ==> {
                        let x = added_non_terminals@[t]->Some_0;
                        &&& nv <= x < nv + new_productions@.len()
                        &&& grammar_of(new_productions@)[x - nv] == seq![seq![SymbolIndex::TerminalIndex(t as usize)]]
                    },
                    forall|y: int| 0 <= y < new_productions@.len() ==> exists|t: usize| t < nt && #[trigger] grammar_of(new_productions@)[y] == seq![seq![SymbolIndex::TerminalIndex(t)]] && added_non_terminals@[t as int] == Some((nv + y) as usize),
                    crate::cfg::example::nones(added_non_terminals@) + new_productions@.len() == nt,
                    forall|j2: int| 0 <= j2 < j ==> {
                        let b = #[trigger] g[h as int][j2];
                        let c = productions_list_head@[j2]@;
                        &&& c.len() == b.len()
                        &&& b.len() == 1 ==> c == b
                        &&& b.len() != 1 ==> forall|k: int| 0 <= k < b.len() ==> {
                            &&& b[k] is VariableIndex ==> #[trigger] c[k] == b[k]
                            &&& b[k] is TerminalIndex ==> c[k] is VariableIndex && added_non_terminals@[b[k]->TerminalIndex_0 as int] == Some(c[k]->VariableIndex_0)
                        }
                    },
                decreases productions@.len() - j,
            {
                let production = &productions[j];
                assert(production@ == g[h as int][j as int]);
                if production.len() == 1 {
                    productions_list_head.push(clone_body(production));
                    j = j + 1;
                    continue;
                }
                let mut new_production: Vec<SymbolIndex> = Vec::new();
                let mut k: usize = 0;
                while k < production.len()
                    invariant
                        self.wf(),
                        a_h.len() == nt,
                        forall|t: int| 0 <= t < nt && (#[trigger] a_h[t]) is Some ==> added_non_terminals@[t] == a_h[t],
                        g == self.g(),
                        nv == g.len(),
                        nt == self.nt(),
                        nv + nt <= usize::MAX,
                        h < nv,
                        j < g[h as int].len(),
                        production@ == g[h as int][j as int],
                        k <= production@.len(),
                        new_production@.len() == k,
                        added_non_terminals@.len() == nt,
                        forall|t: int| 0 <= t < nt && (#[trigger] added_non_terminals@[t]) is Some ==> {
                            let x = added_non_terminals@[t]->Some_0;
                            &&& nv <= x < nv + new_productions@.len()
                            &&& grammar_of(new_productions@)[x - nv] == seq![seq![SymbolIndex::TerminalIndex(t as usize)]]
                        },
                        forall|y: int| 0 <= y < new_productions@.len() ==> exists|t: usize| t < nt && #[trigger] grammar_of(new_productions@)[y] == seq![seq![SymbolIndex::TerminalIndex(t)]] && added_non_terminals@[t as int] == Some((nv + y) as usize),
                        crate::cfg::example::nones(added_non_terminals@) + new_productions@.len() == nt,
                        forall|x: int| 0 <= x < k ==> {
                            &&& production@[x] is VariableIndex ==> #[trigger] new_production@[x] == production@[x]
                            &&& production@[x] is TerminalIndex ==> new_production@[x] is VariableIndex && added_non_terminals@[production@[x]->TerminalIndex_0 as int] == Some(new_production@[x]->VariableIndex_0)
                        },
                        forall|j2: int| 0 <= j2 < j ==> {
                            let b = #[trigger] g[h as int][j2];
                            let c = productions_list_head@[j2]@;
                            &&& c.len() == b.len()
                            &&& b.len() == 1 ==> c == b
                            &&& b.len() != 1 ==> forall|k2: int| 0 <= k2 < b.len() ==> {
                                &&& b[k2] is VariableIndex ==> #[trigger] c[k2] == b[k2]
                                &&& b[k2] is TerminalIndex ==> c[k2] is VariableIndex && added_non_terminals@[b[k2]->TerminalIndex_0 as int] == Some(c[k2]->VariableIndex_0)
                            }
                        },
                    decreases production@.len() - k,
                {
                    assert(symbol_in(g, nt as nat, g[h as int][j as int][k as int]));
                    let s = match production[k] {
                        SymbolIndex::TerminalIndex(index) => {
                            match added_non_terminals[index] {
                                Some(new_index) => SymbolIndex::VariableIndex(new_index),
                                None => {
                                    proof {
                                        crate::cfg::example::lemma_nones_update(added_non_terminals@, index as int, (nv + new_productions@.len()) as usize);
                                    }
                                    let new_index = nv + new_productions.len();
                                    let ghost a0 = added_non_terminals@;
                                    let ghost n0 = new_productions@;
                                    added_non_terminals.set(index, Some(new_index));
                                    let mut single: Vec<Vec<SymbolIndex>> = Vec::new();
                                    single.push(crate::cfg::intersection::body_of_one(SymbolIndex::TerminalIndex(index)));
                                    new_productions.push(single);
                                    proof {
                                        assert(grammar_of(new_productions@)[n0.len() as int] =~= seq![seq![SymbolIndex::TerminalIndex(index)]]);
                                        assert forall|t: int| 0 <= t < nt && (#[trigger] added_non_terminals@[t]) is Some implies {
                                            let x = added_non_terminals@[t]->Some_0;
                                            &&& nv <= x < nv + new_productions@.len()
                                            &&& grammar_of(new_productions@)[x - nv] == seq![seq![SymbolIndex::TerminalIndex(t as usize)]]
                                        } by {
                                            if t != index {
                                                assert(a0[t] == added_non_terminals@[t]);
                                                let x = a0[t]->Some_0;
                                                assert(grammar_of(new_productions@)[x - nv] == grammar_of(n0)[x - nv]);
                                            }
                                        }
                                        assert forall|y: int| 0 <= y < new_productions@.len() implies exists|t: usize| t < nt && #[trigger] grammar_of(new_productions@)[y] == seq![seq![SymbolIndex::TerminalIndex(t)]] && added_non_terminals@[t as int] == Some((nv + y) as usize) by {
                                            if y < n0.len() {
                                                let t = choose|t: usize| t < nt && #[trigger] grammar_of(n0)[y] == seq![seq![SymbolIndex::TerminalIndex(t)]] && a0[t as int] == Some((nv + y) as usize);
                                                assert(t != index);
                                                assert(new_productions@[y] == n0[y]);
                                                assert(grammar_of(new_productions@)[y] == grammar_of(n0)[y]);
                                                assert(added_non_terminals@[t as int] == a0[t as int]);
                                                assert(t < nt && grammar_of(new_productions@)[y] == seq![seq![SymbolIndex::TerminalIndex(t)]] && added_non_terminals@[t as int] == Some((nv + y) as usize));
                                            } else {
                                                assert(y == n0.len());
                                                assert(grammar_of(new_productions@)[y] == seq![seq![SymbolIndex::TerminalIndex(index)]]);
                                                assert(added_non_terminals@[index as int] == Some((nv + y) as usize));
                                                assert(index < nt && grammar_of(new_productions@)[y] == seq![seq![SymbolIndex::TerminalIndex(index)]] && added_non_terminals@[index as int] == Some((nv + y) as usize));
                                            }
                                        }
                                        assert forall|j2: int| 0 <= j2 < j implies {
                                            let b = #[trigger] g[h as int][j2];
                                            let c = productions_list_head@[j2]@;
                                            &&& c.len() == b.len()
                                            &&& b.len() == 1 ==> c == b
                                            &&& b.len() != 1 ==> forall|k2: int| 0 <= k2 < b.len() ==> {
                                                &&& b[k2] is VariableIndex ==> #[trigger] c[k2] == b[k2]
                                                &&& b[k2] is TerminalIndex ==> c[k2] is VariableIndex && added_non_terminals@[b[k2]->TerminalIndex_0 as int] == Some(c[k2]->VariableIndex_0)
                                            }
                                        } by {
                                            let b = g[h as int][j2];
                                            let c = productions_list_head@[j2]@;
                                            if b.len() != 1 {
                                                assert forall|k2: int| 0 <= k2 < b.len() && b[k2] is TerminalIndex implies added_non_terminals@[b[k2]->TerminalIndex_0 as int] == Some(c[k2]->VariableIndex_0) by {
                                                    assert(a0[b[k2]->TerminalIndex_0 as int] == Some(c[k2]->VariableIndex_0));
                                                }
                                            }
                                        }
                                        assert forall|x: int| 0 <= x < k && production@[x] is TerminalIndex implies added_non_terminals@[production@[x]->TerminalIndex_0 as int] == Some(new_production@[x]->VariableIndex_0) by {
                                            assert(a0[production@[x]->TerminalIndex_0 as int] == Some(new_production@[x]->VariableIndex_0));
                                        }
                                    }
                                    SymbolIndex::VariableIndex(new_index)
                                },
                            }
                        },
                        SymbolIndex::VariableIndex(v) => SymbolIndex::VariableIndex(v),
                    };
                    new_production.push(s);
                    k = k + 1;
                }
                productions_list_head.push(new_production);
                j = j + 1;
            }
            let ghost pl0 = productions_list@;
            productions_list.push(productions_list_head);
            proof {
                assert forall|h2: int, j2: int| 0 <= h2 < h + 1 && 0 <= j2 < g[h2].len() implies {
                    let b = #[trigger] g[h2][j2];
                    let c = grammar_of(productions_list@)[h2][j2];
                    &&& c.len() == b.len()
                    &&& b.len() == 1 ==> c == b
                    &&& b.len() != 1 ==> forall|k: int| 0 <= k < b.len() ==> {
                        &&& b[k] is VariableIndex ==> #[trigger] c[k] == b[k]
                        &&& b[k] is TerminalIndex ==> c[k] is VariableIndex && added_non_terminals@[b[k]->TerminalIndex_0 as int] == Some(c[k]->VariableIndex_0)
                    }
                } by {
                    if h2 < h {
                        assert(productions_list@[h2] == pl0[h2]);
                        assert(grammar_of(productions_list@)[h2] == grammar_of(pl0)[h2]);
                        let b = g[h2][j2];
                        let c = grammar_of(productions_list@)[h2][j2];
                        if b.len() != 1 {
                            assert forall|k: int| 0 <= k < b.len() && b[k] is TerminalIndex implies added_non_terminals@[b[k]->TerminalIndex_0 as int] == Some(c[k]->VariableIndex_0) by {
                                assert(symbol_in(g, nt as nat, g[h2][j2][k]));
                                assert(a_h[b[k]->TerminalIndex_0 as int] == Some(c[k]->VariableIndex_0));
                            }
                        }
                    } else {
                        assert(grammar_of(productions_list@)[h2][j2] == productions_list_head@[j2]@);
                    }
                }
                assert forall|h2: int| 0 <= h2 < h + 1 implies (#[trigger] grammar_of(productions_list@)[h2]).len() == g[h2].len() by {
                    if h2 < h {
                        assert(productions_list@[h2] == pl0[h2]);
                        assert(grammar_of(productions_list@)[h2] == grammar_of(pl0)[h2]);
                    } else {
                        assert(productions_list@[h2] == productions_list_head);
                    }
                }
            }
            h = h + 1;
        }
        let ghost pl = productions_list@;
        let ghost np = new_productions@;
        productions_list.append(&mut new_productions);
        let r = CFG::new(Some(self.terminal_map.clone()), clone_terminals(&self.terminals), self.start_symbol, productions_list);
        proof {
            let rg = r.g();
            assert(r.productions@ == pl + np);
            assert forall|x: int| 0 <= x < pl.len() implies #[trigger] rg[x] == grammar_of(pl)[x] by {}
            assert forall|y: int| 0 <= y < np.len() implies #[trigger] rg[nv + y] == grammar_of(np)[y] by {
                assert(r.productions@[nv + y] == np[y]);
            }
            assert forall|h2: int, j: int| 0 <= h2 < nv && 0 <= j < g[h2].len() implies {
                let b = #[trigger] g[h2][j];
                let c = rg[h2][j];
                &&& c.len() == b.len()
                &&& b.len() == 1 ==> c == b
                &&& b.len() != 1 ==> forall|k: int| 0 <= k < b.len() ==> {
                    &&& b[k] is VariableIndex ==> #[trigger] c[k] == b[k]
                    &&& b[k] is TerminalIndex ==> c[k] is VariableIndex && c[k]->VariableIndex_0 >= nv
                        && rg[c[k]->VariableIndex_0 as int] == seq![seq![b[k]]]
                }
            } by {
                assert(rg[h2] == grammar_of(pl)[h2]);
                let b = g[h2][j];
                let c = rg[h2][j];
                if b.len() != 1 {
                    assert forall|k: int| 0 <= k < b.len() && b[k] is TerminalIndex implies c[k] is VariableIndex && c[k]->VariableIndex_0 >= nv
                        && rg[c[k]->VariableIndex_0 as int] == seq![seq![b[k]]] by {
                        assert(symbol_in(g, nt as nat, g[h2][j][k]));
                        let t = b[k]->TerminalIndex_0;
                        let x = c[k]->VariableIndex_0;
                        assert(added_non_terminals@[t as int] == Some(x));
                        assert(rg[nv + (x - nv)] == grammar_of(np)[x - nv]);
                    }
                }
            }
            assert forall|x: int| self.productions@.len() <= x < r.productions@.len() implies single_terminal_rule(#[trigger] r.g()[x], self.nt()) by {
                assert(rg[nv + (x - nv)] == grammar_of(np)[x - nv]);
                let t = choose|t: usize| t < nt && #[trigger] grammar_of(np)[x - nv] == seq![seq![SymbolIndex::TerminalIndex(t)]] && added_non_terminals@[t as int] == Some((nv + (x - nv)) as usize);
                assert(r.g()[x] == seq![seq![SymbolIndex::TerminalIndex(t)]]);
            }
            assert forall|v: int, j: int, k: int| 0 <= v < rg.len() && 0 <= j < rg[v].len() && 0 <= k < rg[v][j].len() implies symbol_in(rg, r.nt(), #[trigger] rg[v][j][k]) by {
                if v < nv {
                    assert(rg[v] == grammar_of(pl)[v]);
                    let b = g[v][j];
                    assert(symbol_in(g, nt as nat, g[v][j][k]));
                    if b.len() != 1 && b[k] is TerminalIndex {
                        let t = b[k]->TerminalIndex_0;
                        let c = grammar_of(pl)[v][j];
                        assert(c[k] == rg[v][j][k]);
                        assert(added_non_terminals@[t as int] is Some);
                    }
                } else {
                    assert(single_terminal_rule(rg[v], self.nt()));
                    let t = choose|t: usize| t < self.nt() && rg[v] == seq![seq![SymbolIndex::TerminalIndex(t)]];
                }
            }
            assert forall|v: int, j: int, k: int| 0 <= v < rg.len() && 0 <= j < rg[v].len() && rg[v][j].len() >= 2 && 0 <= k < rg[v][j].len() implies (#[trigger] rg[v][j][k]) is VariableIndex by {
                if v < nv {
                    assert(rg[v] == grammar_of(pl)[v]);
                    assert(symbol_in(g, nt as nat, g[v][j][k]));
                } else {
                    assert(single_terminal_rule(rg[v], self.nt()));
                    let t = choose|t: usize| t < self.nt() && rg[v] == seq![seq![SymbolIndex::TerminalIndex(t)]];
                }
            }
            assert(grammar_ok(rg, r.nt()));
            assert(crate::cfg::terminal_words::lifts_terminals(g, rg, nt as nat));
            crate::cfg::terminal_words::lemma_lifted_language(*self, r);
        }
        r
    }
}

} // verus!
