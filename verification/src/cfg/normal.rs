//! Cleaning a grammar and bringing it into the normal form that the
//! intersection with an automaton works on.
use crate::cfg::cfg::{binary_form, derives, generates, grammar_ok, is_generating, normal_form, symbol_in, terminal_names, SymbolIndex, CFG};
use crate::cfg::intersection_words::{distinct_names, lemma_empty_grammar_derives_nothing};
use crate::cfg::decompose::{body_decomposed, lemma_spelled_row_binary, spells, spells_a_suffix};
use crate::cfg::generating::is_nullable;
use crate::cfg::transform::{generating_set, long_bodies_variables, reachable_set, single_terminal_rule};
use crate::cfg::units::unit_pair;
use vstd::prelude::*;

verus! {

/// The nullable symbols of a grammar.
pub open spec fn nullable_set(a: CFG) -> Set<SymbolIndex> {
    Set::new(|s: SymbolIndex| symbol_in(a.g(), a.nt(), s) && is_nullable(a.g(), s))
}

/// The pairs of variables that chains of unit productions connect.
pub open spec fn unit_pair_set(a: CFG) -> Set<(usize, usize)> {
    Set::new(|p: (usize, usize)| unit_pair(a.g(), p.0, p.1))
}

/// Whether a grammar counts as clean: no nullable symbol, no unit pair but
/// the pairs of a variable with itself, and every symbol reachable and
/// generating (counted).
pub open spec fn cleaned_conditions(a: CFG) -> bool {
    &&& nullable_set(a).len() == 0
    &&& unit_pair_set(a).len() == a.productions@.len()
    &&& reachable_set(a).len() == a.productions@.len() + a.nt()
    &&& generating_set(a).len() == a.productions@.len() + a.nt()
}

/// Whether a grammar is clean: as its flag says, or else as counted.
pub open spec fn cleaned_spec(a: CFG) -> bool {
    match a._is_cleaned {
        Some(b) => b,
        None => cleaned_conditions(a),
    }
}

/// Whether a grammar is in normal form: as its flag says, or else as checked.
pub open spec fn in_normal_form(a: CFG) -> bool {
    match a._in_normal_form {
        Some(b) => b,
        None => normal_form(a.g()),
    }
}

/// Whether every body of one symbol is a terminal.
pub open spec fn units_terminal(g: Seq<Seq<Seq<SymbolIndex>>>) -> bool {
    forall|v: int, j: int| 0 <= v < g.len() && 0 <= j < g[v].len() && (#[trigger] g[v][j]).len() == 1 ==> g[v][j][0] is TerminalIndex
}

/// Whether bringing the grammar into normal form ends: it is in normal form,
/// or not yet clean, or its bodies of one symbol are terminals. (A clean
/// grammar with a body made of one variable keeps that body through the
/// transformations, and normalizing it again never ends.)
pub open spec fn normalizable(a: CFG) -> bool {
    in_normal_form(a) || !cleaned_spec(a) || units_terminal(a.g())
}

/// The result of the empty grammar: one variable and no body.
pub open spec fn is_empty_grammar(r: CFG) -> bool {
    &&& r.terminals@.len() == 0
    &&& r.start_symbol == 0
    &&& r.g() == seq![Seq::<Seq<SymbolIndex>>::empty()]
}

impl CFG {
    /// Whether the grammar counts as clean: no nullable symbol, only the
    /// trivial unit pairs, and every symbol reachable and generating.
    pub fn _is_cleaned(&self) -> (r: bool)
        requires
            self.wf(),
        ensures
            r == cleaned_conditions(*self),
    {
        let nullables = self.get_nullable_symbols();
        let unit_pairs = self.get_unit_pairs();
        let generating_symbols = self.get_generating_symbols();
        let reachable_symbols = self.get_reachable_symbols();
        proof {
            assert(nullables@ =~= nullable_set(*self));
            assert(unit_pairs@ =~= unit_pair_set(*self));
            assert(generating_symbols@ =~= generating_set(*self));
            assert(reachable_symbols@ =~= reachable_set(*self));
        }
        let nv = self.productions.len();
        let nt = self.terminals.len();
        let all = nv as u128 + nt as u128;
        nullables.len() == 0 && unit_pairs.len() == nv && reachable_symbols.len() as u128 == all && generating_symbols.len() as u128 == all
    }

    /// Whether the grammar is clean: its flag where set, else as counted.
    pub fn is_cleaned(&self) -> (r: bool)
        requires
            self.wf(),
        ensures
            r == cleaned_spec(*self),
    {
        match self._is_cleaned {
            Some(b) => b,
            None => self._is_cleaned(),
        }
    }
}

/// A grammar whose bodies of one symbol are terminals becomes a grammar in
/// normal form by one terminal per long body and then by decomposition.
pub proof fn lemma_normal_after_transforms(a: CFG, t: CFG, d: CFG)
    requires
        a.wf(),
        units_terminal(a.g()),
        t.productions@.len() >= a.productions@.len(),
        long_bodies_variables(t.g()),
        forall|h: int| 0 <= h < a.productions@.len() ==> (#[trigger] t.g()[h]).len() == a.g()[h].len(),
        forall|h: int, j: int| 0 <= h < a.productions@.len() && 0 <= j < a.g()[h].len() ==> {
            let b = #[trigger] a.g()[h][j];
            let c = t.g()[h][j];
            &&& c.len() == b.len()
            &&& b.len() == 1 ==> c == b
        },
        forall|x: int| a.productions@.len() <= x < t.productions@.len() ==> single_terminal_rule(#[trigger] t.g()[x], a.nt()),
        d.productions@.len() >= t.productions@.len(),
        forall|h: int| 0 <= h < t.productions@.len() ==> (#[trigger] d.g()[h]).len() == t.g()[h].len(),
        forall|h: int, j: int| 0 <= h < t.productions@.len() && 0 <= j < t.g()[h].len()
            ==> body_decomposed(d.g(), t.productions@.len(), #[trigger] t.g()[h][j], d.g()[h][j]),
        forall|x: int| t.productions@.len() <= x < d.productions@.len() ==> #[trigger] spells_a_suffix(d.g(), t.g(), t.productions@.len(), x),
    ensures
        normal_form(d.g()),
{
    assert(units_terminal(t.g())) by {
        assert forall|v: int, j: int| 0 <= v < t.g().len() && 0 <= j < t.g()[v].len() && (#[trigger] t.g()[v][j]).len() == 1 implies t.g()[v][j][0] is TerminalIndex by {
            if v < a.productions@.len() {
                assert(a.g()[v][j].len() == 1);
            } else {
                assert(single_terminal_rule(t.g()[v], a.nt()));
                let tt = choose|tt: usize| tt < a.nt() && t.g()[v] == seq![seq![SymbolIndex::TerminalIndex(tt)]];
            }
        }
    }
    assert forall|v: int, j: int| 0 <= v < d.g().len() && 0 <= j < d.g()[v].len() implies {
        let b = #[trigger] d.g()[v][j];
        &&& b.len() <= 2
        &&& b.len() == 1 ==> b[0] is TerminalIndex
        &&& b.len() == 2 ==> b[0] is VariableIndex && b[1] is VariableIndex
    } by {
        if v < t.productions@.len() {
            let b = t.g()[v][j];
            assert(body_decomposed(d.g(), t.productions@.len(), b, d.g()[v][j]));
            if b.len() >= 2 {
                assert(b[0] is VariableIndex);
            }
            if b.len() == 2 {
                assert(b[1] is VariableIndex);
            }
        } else {
            assert(spells_a_suffix(d.g(), t.g(), t.productions@.len(), v));
            lemma_spelled_row_binary(d.g(), t.g(), t.productions@.len(), v);
        }
    }
}

/// A grammar whose start variable derives no word has the words of the
/// empty grammar: none.
proof fn lemma_no_words(a: CFG, r: CFG)
    requires
        !is_generating(a.g(), SymbolIndex::VariableIndex(a.start_symbol)),
        is_empty_grammar(r),
    ensures
        forall|w: Seq<Seq<char>>| #[trigger] r.generates_word(w) == a.generates_word(w),
{
    assert forall|w: Seq<Seq<char>>| #[trigger] r.generates_word(w) == a.generates_word(w) by {
        if r.generates_word(w) {
            let u = choose|u: Seq<usize>| #[trigger] generates(r.g(), SymbolIndex::VariableIndex(r.start_symbol), u)
                && terminal_names(r.terminals@, u) == w;
            let h = choose|h: nat| #[trigger] derives(r.g(), h, SymbolIndex::VariableIndex(0), u);
            lemma_empty_grammar_derives_nothing(h, u);
        }
        if a.generates_word(w) {
            let u = choose|u: Seq<usize>| #[trigger] generates(a.g(), SymbolIndex::VariableIndex(a.start_symbol), u)
                && terminal_names(a.terminals@, u) == w;
        }
    }
}

/// A well-formed grammar in normal form has bodies of at most two symbols,
/// the bodies of two being made of variables.
pub proof fn lemma_normal_binary(a: CFG)
    requires
        a.wf(),
        in_normal_form(a),
    ensures
        binary_form(a.g()),
{
    if a._in_normal_form is None {
        let g = a.g();
        assert forall|v: int, j: int| 0 <= v < g.len() && 0 <= j < g[v].len() implies {
            let b = #[trigger] g[v][j];
            &&& b.len() <= 2
            &&& b.len() == 2 ==> b[0] is VariableIndex && b[1] is VariableIndex
        } by {
            assert(g[v][j].len() <= 2);
        }
    }
}

/// The empty grammar generates no word.
pub proof fn lemma_empty_grammar_no_words(r: CFG)
    requires
        is_empty_grammar(r),
    ensures
        forall|w: Seq<Seq<char>>| !#[trigger] r.generates_word(w),
{
    assert forall|w: Seq<Seq<char>>| !#[trigger] r.generates_word(w) by {
        if r.generates_word(w) {
            let u = choose|u: Seq<usize>| #[trigger] generates(r.g(), SymbolIndex::VariableIndex(r.start_symbol), u)
                && terminal_names(r.terminals@, u) == w;
            let h = choose|h: nat| #[trigger] derives(r.g(), h, SymbolIndex::VariableIndex(0), u);
            lemma_empty_grammar_derives_nothing(h, u);
        }
    }
}

impl CFG {
    /// The grammar cleaned and in normal form: a grammar already clean is
    /// returned as it is, one with an empty language becomes the empty
    /// grammar; otherwise useless symbols are removed around inlining
    /// variables used once, left-factoring, sharing repeated pairs, one terminal per long body and decomposition
    /// into bodies of two symbols. The words stay the same. Should a step
    /// leave the start variable without any word, the empty grammar is
    /// returned; should the grammar grow too large to number a new variable
    /// per terminal, it is returned as it stands then, unmarked.
    pub fn cleaned(&self) -> (r: Self)
        requires
            self.wf(),
        ensures
            r.wf(),
            cleaned_spec(*self) ==> r.g() == self.g() && r.terminals@ == self.terminals@ && r.start_symbol == self.start_symbol
                && r._is_cleaned == self._is_cleaned && r._in_normal_form == self._in_normal_form,
            !cleaned_spec(*self) ==> (r._is_cleaned == Some(true) && r._in_normal_form == Some(true) && binary_form(r.g()))
                || (r._is_cleaned is None && r._in_normal_form is None && r.productions@.len() + r.terminals@.len() > usize::MAX),
            !cleaned_spec(*self) && !is_generating(self.g(), SymbolIndex::VariableIndex(self.start_symbol)) ==> is_empty_grammar(r),
            forall|w: Seq<Seq<char>>| #[trigger] r.generates_word(w) == self.generates_word(w),
            distinct_names(self.terminals@) ==> distinct_names(r.terminals@),
    {
        if self.is_cleaned() {
            let r = self.clone();
            proof {
                assert forall|w: Seq<Seq<char>>| #[trigger] r.generates_word(w) == self.generates_word(w) by {}
            }
            return r;
        }
        if self.is_empty() {
            let r = CFG::empty();
            proof {
                lemma_no_words(*self, r);
            }
            return r;
        }
        // A new start variable above the old one would be unreachable from
        // the start and dropped by the removal of useless symbols below, which
        // keeps the numbers of the other variables; it is not added.
        let mut cfg_clean = self.clone();
        cfg_clean = cfg_clean.without_useless_symbols();
        cfg_clean = cfg_clean.inline_single_use_symbols();
        if cfg_clean.is_empty() {
            let r = CFG::empty();
            proof {
                lemma_no_words(cfg_clean, r);
            }
            return r;
        }
        cfg_clean = cfg_clean.without_useless_symbols();
        let (factored, _) = cfg_clean.eliminate_common_prefix();
        cfg_clean = factored;
        if cfg_clean.is_empty() {
            let r = CFG::empty();
            proof {
                lemma_no_words(cfg_clean, r);
            }
            return r;
        }
        cfg_clean = cfg_clean.without_useless_symbols();
        cfg_clean = cfg_clean.eliminate_shared_2_grams();
        if cfg_clean.is_empty() {
            let r = CFG::empty();
            proof {
                lemma_no_words(cfg_clean, r);
            }
            return r;
        }
        cfg_clean = cfg_clean.without_useless_symbols();
        if cfg_clean.productions.len() > usize::MAX - cfg_clean.terminals.len() {
            return cfg_clean;
        }
        cfg_clean = cfg_clean.with_only_single_terminal_productions();
        if cfg_clean.is_empty() {
            let r = CFG::empty();
            proof {
                lemma_no_words(cfg_clean, r);
            }
            return r;
        }
        cfg_clean = cfg_clean.without_useless_symbols();
        cfg_clean = cfg_clean.with_decomposed_productions();
        if cfg_clean.is_empty() {
            let r = CFG::empty();
            proof {
                lemma_no_words(cfg_clean, r);
            }
            return r;
        }
        cfg_clean = cfg_clean.without_useless_symbols();
        let ghost unmarked = cfg_clean;
        cfg_clean._is_cleaned = Some(true);
        cfg_clean._in_normal_form = Some(true);
        proof {
            assert(cfg_clean.g() == unmarked.g());
            assert(cfg_clean.terminals@ == unmarked.terminals@);
            assert(cfg_clean.start_symbol == unmarked.start_symbol);
            assert forall|w: Seq<Seq<char>>| #[trigger] cfg_clean.generates_word(w) == unmarked.generates_word(w) by {
                if cfg_clean.generates_word(w) {
                    let u = choose|u: Seq<usize>| #[trigger] generates(cfg_clean.g(), SymbolIndex::VariableIndex(cfg_clean.start_symbol), u)
                        && terminal_names(cfg_clean.terminals@, u) == w;
                    assert(generates(unmarked.g(), SymbolIndex::VariableIndex(unmarked.start_symbol), u));
                }
                if unmarked.generates_word(w) {
                    let u = choose|u: Seq<usize>| #[trigger] generates(unmarked.g(), SymbolIndex::VariableIndex(unmarked.start_symbol), u)
                        && terminal_names(unmarked.terminals@, u) == w;
                    assert(generates(cfg_clean.g(), SymbolIndex::VariableIndex(cfg_clean.start_symbol), u));
                }
            }
        }
        cfg_clean
    }

    /// The grammar in normal form: as it is where it already is; cleaned
    /// (which brings it into normal form) where it is not clean; else with
    /// one terminal per long body and decomposed into bodies of two symbols.
    /// The words stay the same. A grammar too large to number a new variable
    /// per terminal is returned as cleaning left it.
    pub fn to_normal_form(&self) -> (r: Self)
        requires
            self.wf(),
        ensures
            r.wf(),
            binary_form(r.g()) || r.productions@.len() + r.terminals@.len() > usize::MAX,
            in_normal_form(*self) ==> r.g() == self.g() && r.terminals@ == self.terminals@ && r.start_symbol == self.start_symbol,
            normalizable(*self) ==> in_normal_form(r) || r.productions@.len() + r.terminals@.len() > usize::MAX,
            forall|w: Seq<Seq<char>>| #[trigger] r.generates_word(w) == self.generates_word(w),
            distinct_names(self.terminals@) ==> distinct_names(r.terminals@),
        decreases
            if in_normal_form(*self) { 0int } else { 1int },
    {
        if self.is_normal_form() {
            proof {
                if self._in_normal_form is None {
                    assert(normal_form(self.g()));
                    let g = self.g();
                    assert forall|v: int, j: int| 0 <= v < g.len() && 0 <= j < g[v].len() implies {
                        let b = #[trigger] g[v][j];
                        &&& b.len() <= 2
                        &&& b.len() == 2 ==> b[0] is VariableIndex && b[1] is VariableIndex
                    } by {
                        assert(g[v][j].len() <= 2);
                    }
                }
            }
            let r = self.clone();
            proof {
                assert forall|w: Seq<Seq<char>>| #[trigger] r.generates_word(w) == self.generates_word(w) by {}
            }
            return r;
        }
        if !self.is_cleaned() {
            let c = self.cleaned();
            if !c.is_normal_form() {
                return c;
            }
            return c.to_normal_form();
        }
        if self.productions.len() > usize::MAX - self.terminals.len() {
            let r = self.clone();
            proof {
                assert forall|w: Seq<Seq<char>>| #[trigger] r.generates_word(w) == self.generates_word(w) by {}
            }
            return r;
        }
        let no_terminal_cfg = self.with_only_single_terminal_productions();
        let decomposed_cfg = no_terminal_cfg.with_decomposed_productions();
        proof {
            if units_terminal(self.g()) {
                lemma_normal_after_transforms(*self, no_terminal_cfg, decomposed_cfg);
            }
        }
        decomposed_cfg
    }
}

} // verus!
