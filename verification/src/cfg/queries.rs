//! Questions about a grammar together with an automaton: the grammar of the
//! intersection, whether it is empty, and an example word.
use crate::cfg::cfg::{binary_form, derives, generates, terminal_names, SymbolIndex, CFG};
use crate::cfg::generating::is_nullable;
use crate::cfg::intersection::{generating_triples, inter_start_bodies, lemma_generating_triples_bound};
use crate::cfg::intersection_words::{
    distinct_names, intersection_rows, lemma_derived_in_range, lemma_empty_grammar_derives_nothing, lemma_intersection_words,
    lemma_names_accepted,
};
use crate::cfg::example::{expansion_fails, in_both, map_ok, start_recorded};
use crate::cfg::normal::{in_normal_form, is_empty_grammar, lemma_empty_grammar_no_words, lemma_normal_binary, normalizable};
use crate::fa::dfa::DFA;
use crate::input_symbol::{same_symbol, InputSymbol};
use crate::language::word_of;
use vstd::prelude::*;

verus! {

/// Whether `w` is the word of names of a word that grammar `a` derives from
/// its start variable and that the automaton accepts.
pub open spec fn in_intersection(a: CFG, dfa: DFA, w: Seq<Seq<char>>) -> bool {
    exists|u: Seq<usize>| #[trigger] in_both(a.g(), dfa, a.start_symbol, u) && terminal_names(a.terminals@, u) == w
}

/// Over an automaton whose alphabet has the names of the terminals in order,
/// the words of both languages by number are those of both languages by name.
pub proof fn lemma_intersection_by_name(a: CFG, dfa: DFA, w: Seq<Seq<char>>)
    requires
        a.wf(),
        dfa.wf(),
        dfa.symbols_mapped(),
        same_names(dfa.alphabet@, a.terminals@),
        distinct_names(a.terminals@),
    ensures
        in_intersection(a, dfa, w) <==> a.generates_word(w) && dfa.accepts_word(w),
{
    let st = SymbolIndex::VariableIndex(a.start_symbol);
    if in_intersection(a, dfa, w) {
        let u = choose|u: Seq<usize>| #[trigger] in_both(a.g(), dfa, a.start_symbol, u) && terminal_names(a.terminals@, u) == w;
        let h = choose|h: nat| #[trigger] derives(a.g(), h, st, u);
        lemma_derived_in_range(a.g(), a.nt(), h, st, u);
        lemma_names_accepted(a.terminals@, dfa, u);
        assert(generates(a.g(), st, u));
    }
    if a.generates_word(w) && dfa.accepts_word(w) {
        let u = choose|u: Seq<usize>| #[trigger] generates(a.g(), st, u) && terminal_names(a.terminals@, u) == w;
        let h = choose|h: nat| #[trigger] derives(a.g(), h, st, u);
        lemma_derived_in_range(a.g(), a.nt(), h, st, u);
        lemma_names_accepted(a.terminals@, dfa, u);
        assert(in_both(a.g(), dfa, a.start_symbol, u));
    }
}

/// Whether some word of grammar `a` is accepted by the automaton.
pub open spec fn languages_meet(a: CFG, dfa: DFA) -> bool {
    exists|w: Seq<Seq<char>>| #[trigger] a.generates_word(w) && dfa.accepts_word(w)
}

/// Whether grammars `a` and `b` generate the same words.
pub open spec fn same_words(a: CFG, b: CFG) -> bool {
    forall|w: Seq<Seq<char>>| #[trigger] a.generates_word(w) == b.generates_word(w)
}

/// Whether the work on some grammar with the words of `a`, together with an
/// automaton of `n` states, runs past a size limit: the grammar's variables
/// and terminals together do not fit in a `usize`, or its variables times the
/// square of `n` exceed `limit`.
pub open spec fn outgrows(a: CFG, n: nat, limit: int) -> bool {
    exists|nf: CFG| #[trigger] same_words(nf, a) && nf.wf()
        && (nf.productions@.len() + nf.terminals@.len() > usize::MAX || n * n * nf.productions@.len() > limit)
}

/// A limit that a grammar runs past is run past by every grammar with the
/// same words.
pub proof fn lemma_outgrows_same_words(a: CFG, b: CFG, n: nat, limit: int)
    requires
        same_words(a, b),
        outgrows(b, n, limit),
    ensures
        outgrows(a, n, limit),
{
    let nf = choose|nf: CFG| #[trigger] same_words(nf, b) && nf.wf()
        && (nf.productions@.len() + nf.terminals@.len() > usize::MAX || n * n * nf.productions@.len() > limit);
    assert(same_words(nf, a));
}

/// Whether `d2` has as many states as `dfa`, the names of `terms` as its
/// alphabet, and accepts only words that `dfa` accepts.
pub open spec fn relabels(dfa: DFA, terms: Seq<InputSymbol>, d2: DFA) -> bool {
    &&& d2.wf()
    &&& d2.n() == dfa.n()
    &&& same_names(d2.alphabet@, terms)
    &&& forall|w: Seq<Seq<char>>| #[trigger] d2.accepts_word(w) ==> dfa.accepts_word(w)
}

/// Whether, for some grammar with the words of `a` and some automaton over
/// its terminals that accepts only words that `dfa` accepts, writing out an
/// example word from recorded bodies runs past its bounds.
pub open spec fn expansion_outgrows(a: CFG, dfa: DFA) -> bool {
    exists|nf: CFG, d2: DFA| #[trigger] same_words(nf, a) && #[trigger] relabels(dfa, nf.terminals@, d2) && nf.wf()
        && expansion_fails(nf.g(), d2, nf.nt(), nf.start_symbol)
}

/// A grammar with the same words, or an automaton accepting more words, keeps
/// an expansion that runs past its bounds.
pub proof fn lemma_expansion_outgrows_widen(a: CFG, b: CFG, dfa: DFA, dfa_b: DFA)
    requires
        same_words(a, b),
        dfa_b.n() == dfa.n(),
        forall|w: Seq<Seq<char>>| #[trigger] dfa_b.accepts_word(w) ==> dfa.accepts_word(w),
        expansion_outgrows(b, dfa_b),
    ensures
        expansion_outgrows(a, dfa),
{
    let (nf, d2) = choose|nf: CFG, d2: DFA| #[trigger] same_words(nf, b) && #[trigger] relabels(dfa_b, nf.terminals@, d2) && nf.wf()
        && expansion_fails(nf.g(), d2, nf.nt(), nf.start_symbol);
    assert(same_words(nf, a));
    assert(relabels(dfa, nf.terminals@, d2));
}

/// Whether, for some grammar with the words of `a` and some automaton over
/// its terminals that accepts only words that `dfa` accepts, more than
/// 64 000 000 intersection variables derive a word: the search for them
/// runs past its step bound.
pub open spec fn search_outgrows(a: CFG, dfa: DFA) -> bool {
    exists|nf: CFG, d2: DFA| #[trigger] same_words(nf, a) && #[trigger] relabels(dfa, nf.terminals@, d2) && nf.wf()
        && generating_triples(nf.g(), d2, d2.n(), nf.productions@.len() as nat) > 64_000_000
}

/// A grammar with the same words, or an automaton accepting more words,
/// keeps a search that runs past its step bound.
pub proof fn lemma_search_outgrows_widen(a: CFG, b: CFG, dfa: DFA, dfa_b: DFA)
    requires
        same_words(a, b),
        dfa_b.n() == dfa.n(),
        forall|w: Seq<Seq<char>>| #[trigger] dfa_b.accepts_word(w) ==> dfa.accepts_word(w),
        search_outgrows(b, dfa_b),
    ensures
        search_outgrows(a, dfa),
{
    let (nf, d2) = choose|nf: CFG, d2: DFA| #[trigger] same_words(nf, b) && #[trigger] relabels(dfa_b, nf.terminals@, d2) && nf.wf()
        && generating_triples(nf.g(), d2, d2.n(), nf.productions@.len() as nat) > 64_000_000;
    assert(same_words(nf, a));
    assert(relabels(dfa, nf.terminals@, d2));
}

/// A grammar past a size limit runs past it itself.
pub proof fn lemma_outgrows_itself(a: CFG, n: nat, limit: int)
    requires
        a.wf(),
        a.productions@.len() + a.terminals@.len() > usize::MAX || n * n * a.productions@.len() > limit,
    ensures
        outgrows(a, n, limit),
{
    assert(same_words(a, a));
}

/// Over an automaton whose alphabet has the names of the terminals in order,
/// the languages meet exactly where some word by number is in both.
pub proof fn lemma_meet_by_name(a: CFG, dfa: DFA)
    requires
        a.wf(),
        dfa.wf(),
        dfa.symbols_mapped(),
        same_names(dfa.alphabet@, a.terminals@),
        distinct_names(a.terminals@),
    ensures
        languages_meet(a, dfa) <==> crate::cfg::intersection::intersection_nonempty(a.g(), a.start_symbol, dfa),
{
    if languages_meet(a, dfa) {
        let w = choose|w: Seq<Seq<char>>| #[trigger] a.generates_word(w) && dfa.accepts_word(w);
        lemma_intersection_by_name(a, dfa, w);
        let u = choose|u: Seq<usize>| #[trigger] in_both(a.g(), dfa, a.start_symbol, u) && terminal_names(a.terminals@, u) == w;
        assert(in_both(a.g(), dfa, a.start_symbol, u));
    }
    if crate::cfg::intersection::intersection_nonempty(a.g(), a.start_symbol, dfa) {
        let u = choose|u: Seq<usize>| #[trigger] generates(a.g(), SymbolIndex::VariableIndex(a.start_symbol), u) && dfa.accepts_indices(u);
        let w = terminal_names(a.terminals@, u);
        assert(in_both(a.g(), dfa, a.start_symbol, u));
        lemma_intersection_by_name(a, dfa, w);
    }
}

/// The renamed automaton of `with_alphabet` over the terminals of a grammar
/// meets the grammar exactly where the automaton itself does.
pub proof fn lemma_meet_renamed(a: CFG, dfa: DFA, renamed: DFA)
    requires
        a.wf(),
        dfa.symbols_mapped(),
        forall|nm: Seq<char>| #[trigger] renamed.alphabet_index_map@.contains_key(nm) <==> DFA::names_contain(a.terminals@, nm),
        forall|w: Seq<Seq<char>>| #[trigger] renamed.accepts_word(w) <==> dfa.accepts_word(w) && renamed.over_alphabet(w),
    ensures
        forall|w: Seq<Seq<char>>| a.generates_word(w) ==> (#[trigger] renamed.accepts_word(w) <==> dfa.accepts_word(w)),
        languages_meet(a, renamed) <==> languages_meet(a, dfa),
{
    assert forall|w: Seq<Seq<char>>| a.generates_word(w) implies (#[trigger] renamed.accepts_word(w) <==> dfa.accepts_word(w)) by {
        let st = SymbolIndex::VariableIndex(a.start_symbol);
        let u = choose|u: Seq<usize>| #[trigger] generates(a.g(), st, u) && terminal_names(a.terminals@, u) == w;
        let h = choose|h: nat| #[trigger] derives(a.g(), h, st, u);
        lemma_derived_in_range(a.g(), a.nt(), h, st, u);
        assert forall|i: int| 0 <= i < w.len() implies renamed.alphabet_index_map@.contains_key(#[trigger] w[i]) by {
            assert(a.terminals@[u[i] as int]@ == w[i]);
            assert(DFA::names_contain(a.terminals@, w[i]));
        }
        assert(renamed.over_alphabet(w));
    }
    if languages_meet(a, renamed) {
        let w = choose|w: Seq<Seq<char>>| #[trigger] a.generates_word(w) && renamed.accepts_word(w);
        assert(a.generates_word(w) && dfa.accepts_word(w));
    }
    if languages_meet(a, dfa) {
        let w = choose|w: Seq<Seq<char>>| #[trigger] a.generates_word(w) && dfa.accepts_word(w);
        assert(a.generates_word(w) && renamed.accepts_word(w));
    }
}

/// Whether two alphabets have the same names in the same order.
pub open spec fn same_names(a: Seq<InputSymbol>, b: Seq<InputSymbol>) -> bool {
    a.len() == b.len() && forall|i: int| 0 <= i < a.len() ==> (#[trigger] a[i])@ == b[i]@
}

/// Whether two alphabets have the same names in the same order.
pub(crate) fn same_alphabet(a: &Vec<InputSymbol>, b: &Vec<InputSymbol>) -> (r: bool)
    ensures
        r == same_names(a@, b@),
{
    if a.len() != b.len() {
        return false;
    }
    let mut i: usize = 0;
    while i < a.len()
        invariant
            a@.len() == b@.len(),
            i <= a@.len(),
            forall|k: int| 0 <= k < i ==> (#[trigger] a@[k])@ == b@[k]@,
        decreases a@.len() - i,
    {
        if !same_symbol(&a[i], &b[i]) {
            return false;
        }
        i = i + 1;
    }
    true
}

/// `a * b * c`, where it fits below `usize::MAX`.
fn product_below_max(a: usize, b: usize, c: usize) -> (r: Option<usize>)
    ensures
        match r {
            Some(x) => x == a * b * c && a * b * c < usize::MAX,
            None => a * b * c >= usize::MAX,
        },
{
    match a.checked_mul(b) {
        Some(ab) => match ab.checked_mul(c) {
            Some(abc) => {
                if abc < usize::MAX {
                    Some(abc)
                } else {
                    None
                }
            },
            None => None,
        },
        None => {
            proof {
                if c > 0 {
                    assert(a * b * c >= a * b) by (nonlinear_arith)
                        requires
                            c > 0,
                            a * b >= 0,
                    ;
                }
            }
            if c == 0 {
                assert(a * b * c == 0) by (nonlinear_arith)
                    requires
                        c == 0,
                ;
                Some(0)
            } else {
                None
            }
        },
    }
}

impl CFG {
    /// The grammar of the words of this grammar that the automaton accepts:
    /// the empty grammar where the automaton accepts nothing; otherwise built
    /// from the grammar in normal form and the automaton over the terminals
    /// of the grammar. Where the number of variables of the result, or of the
    /// grammar in normal form, would not fit in a `usize`, the empty grammar
    /// is returned.
    pub fn intersection(&self, other: &DFA) -> (r: Self)
        requires
            self.wf(),
            other.wf(),
            normalizable(*self),
        ensures
            r.wf(),
            !other.leads_to_accept(other.start_state) ==> is_empty_grammar(r),
            in_normal_form(*self) && binary_form(self.g()) && same_names(other.alphabet@, self.terminals@)
                && other.n() * other.n() * self.productions@.len() < usize::MAX
                ==> forall|w: Seq<Seq<char>>| #[trigger] r.generates_word(w) <==> in_intersection(*self, *other, w),
            in_normal_form(*self) && binary_form(self.g()) && distinct_names(self.terminals@) && other.symbols_mapped()
                && other.n() * other.n() * self.productions@.len() < usize::MAX
                ==> forall|w: Seq<Seq<char>>| #[trigger] r.generates_word(w) <==> self.generates_word(w) && other.accepts_word(w),
            distinct_names(self.terminals@) && other.symbols_mapped()
                ==> forall|w: Seq<Seq<char>>| #[trigger] r.generates_word(w) ==> self.generates_word(w) && other.accepts_word(w),
            distinct_names(self.terminals@) && other.symbols_mapped()
                ==> (forall|w: Seq<Seq<char>>| #[trigger] r.generates_word(w) <==> self.generates_word(w) && other.accepts_word(w))
                || outgrows(*self, other.n(), usize::MAX - 1),
        decreases
            if in_normal_form(*self) { 0int } else { 1int }, if same_names(other.alphabet@, self.terminals@) { 0int } else { 1int },
    {
        if other.is_empty() {
            let r = CFG::empty();
            proof {
                lemma_empty_grammar_no_words(r);
                assert forall|w: Seq<Seq<char>>| #[trigger] r.generates_word(w) <==> in_intersection(*self, *other, w) by {
                    if r.generates_word(w) {
                        let u = choose|u: Seq<usize>| #[trigger] generates(r.g(), SymbolIndex::VariableIndex(r.start_symbol), u)
                            && terminal_names(r.terminals@, u) == w;
                        let h = choose|h: nat| #[trigger] derives(r.g(), h, SymbolIndex::VariableIndex(0), u);
                        lemma_empty_grammar_derives_nothing(h, u);
                    }
                    if in_intersection(*self, *other, w) {
                        let u = choose|u: Seq<usize>| #[trigger] in_both(self.g(), *other, self.start_symbol, u)
                            && terminal_names(self.terminals@, u) == w;
                        assert(other.run(other.start_state, u) matches Some(f) && other.accept_states@.contains(f));
                    }
                }
                assert forall|w: Seq<Seq<char>>| !#[trigger] other.accepts_word(w) by {
                    if other.accepts_word(w) {
                        let u = other.symbol_indices(w);
                        assert(other.run(other.start_state, u) matches Some(f) && other.accept_states@.contains(f));
                    }
                }
            }
            return r;
        }
        if !self.is_normal_form() {
            let nf = self.to_normal_form();
            proof {
                assert(same_words(nf, *self));
            }
            if !nf.is_normal_form() {
                let r = CFG::empty();
                proof {
                    lemma_empty_grammar_no_words(r);
                    lemma_outgrows_itself(nf, other.n(), usize::MAX - 1);
                    lemma_outgrows_same_words(*self, nf, other.n(), usize::MAX - 1);
                }
                return r;
            }
            let r = nf.intersection(other);
            proof {
                if distinct_names(self.terminals@) && other.symbols_mapped() {
                    if outgrows(nf, other.n(), usize::MAX - 1) {
                        lemma_outgrows_same_words(*self, nf, other.n(), usize::MAX - 1);
                    } else {
                        assert forall|w: Seq<Seq<char>>| #[trigger] r.generates_word(w) <==> self.generates_word(w) && other.accepts_word(w) by {
                            assert(nf.generates_word(w) == self.generates_word(w));
                        }
                    }
                }
            }
            return r;
        }
        if !same_alphabet(&other.alphabet, &self.terminals) {
            let renamed = other.with_alphabet(&self.terminals);
            proof {
                assert(same_names(renamed.alphabet@, self.terminals@));
            }
            let r = self.intersection(&renamed);
            proof {
                if distinct_names(self.terminals@) && other.symbols_mapped() {
                    lemma_meet_renamed(*self, *other, renamed);
                    if !outgrows(*self, other.n(), usize::MAX - 1) {
                        assert(renamed.n() == other.n());
                        assert forall|w: Seq<Seq<char>>| #[trigger] r.generates_word(w) <==> self.generates_word(w) && other.accepts_word(w) by {
                            if self.generates_word(w) {
                                assert(renamed.accepts_word(w) <==> other.accepts_word(w));
                            }
                        }
                    }
                }
                if in_normal_form(*self) && binary_form(self.g()) && distinct_names(self.terminals@) && other.symbols_mapped()
                    && other.n() * other.n() * self.productions@.len() < usize::MAX {
                    lemma_meet_renamed(*self, *other, renamed);
                    assert forall|w: Seq<Seq<char>>| #[trigger] r.generates_word(w) <==> self.generates_word(w) && other.accepts_word(w) by {
                        if self.generates_word(w) {
                            assert(renamed.accepts_word(w) <==> other.accepts_word(w));
                        }
                    }
                }
            }
            return r;
        }
        match product_below_max(other.states.len(), other.states.len(), self.productions.len()) {
            Some(_) => {
                let r = self._compute_intersection(other);
                proof {
                    let n = other.n();
                    let g = self.g();
                    let big = n * n * g.len();
                    let acc = choose|acc: Seq<usize>|
                        acc.no_duplicates() && acc.to_set() == other.accept_states@ && #[trigger] r.g()[big as int]
                            == inter_start_bodies(
                            n,
                            g.len(),
                            *other,
                            self.start_symbol,
                            acc,
                            is_nullable(g, SymbolIndex::VariableIndex(self.start_symbol)) && other.accept_states@.contains(other.start_state),
                        );
                    assert(intersection_rows(r.g(), g, *other));
                    assert forall|w: Seq<Seq<char>>| #[trigger] r.generates_word(w) <==> in_intersection(*self, *other, w) by {
                        if r.generates_word(w) {
                            let u = choose|u: Seq<usize>| #[trigger] generates(r.g(), SymbolIndex::VariableIndex(r.start_symbol), u)
                                && terminal_names(r.terminals@, u) == w;
                            lemma_intersection_words(r.g(), g, *other, self.nt(), self.start_symbol, acc, u);
                            assert(in_both(g, *other, self.start_symbol, u));
                        }
                        if in_intersection(*self, *other, w) {
                            let u = choose|u: Seq<usize>| #[trigger] in_both(g, *other, self.start_symbol, u)
                                && terminal_names(self.terminals@, u) == w;
                            lemma_intersection_words(r.g(), g, *other, self.nt(), self.start_symbol, acc, u);
                            assert(generates(r.g(), SymbolIndex::VariableIndex(r.start_symbol), u));
                        }
                    }
                    if distinct_names(self.terminals@) && other.symbols_mapped() {
                        assert forall|w: Seq<Seq<char>>| #[trigger] r.generates_word(w) <==> self.generates_word(w) && other.accepts_word(w) by {
                            lemma_intersection_by_name(*self, *other, w);
                        }
                    }
                }
                r
            },
            None => {
                let r = CFG::empty();
                proof {
                    lemma_empty_grammar_no_words(r);
                    lemma_outgrows_itself(*self, other.n(), usize::MAX - 1);
                }
                r
            },
        }
    }

    /// Whether no word of this grammar is accepted by the automaton: true
    /// where the automaton accepts nothing; otherwise decided on the grammar
    /// in normal form and the automaton over the terminals of the grammar.
    /// Past the timeout, after more than 64 000 000 steps of the search, or
    /// where the number of variables to mark would not fit in a `usize`, the
    /// answer is true.
    pub fn is_intersection_empty(&self, dfa: &DFA, timeout: Option<core::time::Duration>) -> (r: bool)
        requires
            self.wf(),
            dfa.wf(),
            normalizable(*self),
        ensures
            !dfa.leads_to_accept(dfa.start_state) ==> r,
            in_normal_form(*self) && binary_form(self.g()) && same_names(dfa.alphabet@, self.terminals@) && !r
                ==> crate::cfg::intersection::intersection_nonempty(self.g(), self.start_symbol, *dfa),
            in_normal_form(*self) && binary_form(self.g()) && same_names(dfa.alphabet@, self.terminals@) && timeout is None
                && dfa.n() * dfa.n() * self.productions@.len() < usize::MAX
                && generating_triples(self.g(), *dfa, dfa.n(), self.productions@.len() as nat) <= 64_000_000
                ==> (r <==> !crate::cfg::intersection::intersection_nonempty(self.g(), self.start_symbol, *dfa)),
            in_normal_form(*self) && binary_form(self.g()) && distinct_names(self.terminals@) && dfa.symbols_mapped() && !r
                ==> languages_meet(*self, *dfa),
            in_normal_form(*self) && binary_form(self.g()) && distinct_names(self.terminals@) && dfa.symbols_mapped()
                && timeout is None && dfa.n() * dfa.n() * self.productions@.len() <= 64_000_000
                ==> (r <==> !languages_meet(*self, *dfa)),
            distinct_names(self.terminals@) && dfa.symbols_mapped() && !r ==> languages_meet(*self, *dfa),
            distinct_names(self.terminals@) && dfa.symbols_mapped() && timeout is None
                ==> (r <==> !languages_meet(*self, *dfa)) || outgrows(*self, dfa.n(), usize::MAX - 1) || search_outgrows(*self, *dfa),
        decreases
            if in_normal_form(*self) { 0int } else { 1int }, if same_names(dfa.alphabet@, self.terminals@) { 0int } else { 1int },
    {
        if dfa.is_empty() {
            proof {
                crate::cfg::intersection::lemma_no_accept_empty(self.g(), self.start_symbol, *dfa);
                assert forall|w: Seq<Seq<char>>| !#[trigger] dfa.accepts_word(w) by {
                    if dfa.accepts_word(w) {
                        let u = dfa.symbol_indices(w);
                        assert(dfa.run(dfa.start_state, u) matches Some(f) && dfa.accept_states@.contains(f));
                    }
                }
            }
            return true;
        }
        if !self.is_normal_form() {
            let nf = self.to_normal_form();
            proof {
                assert(same_words(nf, *self));
            }
            if !nf.is_normal_form() {
                proof {
                    lemma_outgrows_itself(nf, dfa.n(), usize::MAX - 1);
                    lemma_outgrows_same_words(*self, nf, dfa.n(), usize::MAX - 1);
                }
                return true;
            }
            let r = nf.is_intersection_empty(dfa, timeout);
            proof {
                if distinct_names(self.terminals@) && dfa.symbols_mapped() && !r {
                    let w = choose|w: Seq<Seq<char>>| #[trigger] nf.generates_word(w) && dfa.accepts_word(w);
                    assert(self.generates_word(w));
                }
                if distinct_names(self.terminals@) && dfa.symbols_mapped() && timeout is None {
                    if outgrows(nf, dfa.n(), usize::MAX - 1) {
                        lemma_outgrows_same_words(*self, nf, dfa.n(), usize::MAX - 1);
                    }
                    if search_outgrows(nf, *dfa) {
                        lemma_search_outgrows_widen(*self, nf, *dfa, *dfa);
                    } else if languages_meet(*self, *dfa) {
                        let w = choose|w: Seq<Seq<char>>| #[trigger] self.generates_word(w) && dfa.accepts_word(w);
                        assert(nf.generates_word(w));
                    }
                }
            }
            return r;
        }
        if !same_alphabet(&dfa.alphabet, &self.terminals) {
            let renamed = dfa.with_alphabet(&self.terminals);
            proof {
                assert(same_names(renamed.alphabet@, self.terminals@));
            }
            let r = self.is_intersection_empty(&renamed, timeout);
            proof {
                if dfa.symbols_mapped() {
                    lemma_meet_renamed(*self, *dfa, renamed);
                }
                assert(renamed.n() == dfa.n());
                if dfa.symbols_mapped() && search_outgrows(*self, renamed) {
                    assert(same_words(*self, *self));
                    lemma_search_outgrows_widen(*self, *self, *dfa, renamed);
                }
            }
            return r;
        }
        proof {
            if distinct_names(self.terminals@) && dfa.symbols_mapped() {
                lemma_meet_by_name(*self, *dfa);
            }
            lemma_normal_binary(*self);
            if generating_triples(self.g(), *dfa, dfa.n(), self.productions@.len() as nat) > 64_000_000 {
                assert(same_words(*self, *self));
                assert(relabels(*dfa, self.terminals@, *dfa));
                assert(search_outgrows(*self, *dfa));
            }
        }
        match product_below_max(dfa.states.len(), dfa.states.len(), self.productions.len()) {
            Some(_) => {
                proof {
                    lemma_generating_triples_bound(self.g(), *dfa, dfa.n(), self.productions@.len() as nat);
                }
                self._is_intersection_empty(dfa, timeout).0
            },
            None => {
                proof {
                    lemma_outgrows_itself(*self, dfa.n(), usize::MAX - 1);
                }
                true
            },
        }
    }

    /// An example word of this grammar that the automaton accepts, found on
    /// the grammar in normal form and the automaton over the terminals of the
    /// grammar: none where the automaton accepts nothing, where the
    /// intersection is empty, past the timeout, where the number of
    /// variables would not fit in a `usize`, or where the search or the
    /// expansion of the recorded bodies runs past its bounds.
    pub fn example_word(&self, dfa: &DFA, timeout: Option<core::time::Duration>) -> (r: Option<Vec<InputSymbol>>)
        requires
            self.wf(),
            dfa.wf(),
            normalizable(*self),
        ensures
            !dfa.leads_to_accept(dfa.start_state) ==> r is None,
            in_normal_form(*self) && binary_form(self.g()) && same_names(dfa.alphabet@, self.terminals@) ==> (r matches Some(v)
                ==> exists|u: Seq<usize>| #[trigger] in_both(self.g(), *dfa, self.start_symbol, u) && word_of(v@) == terminal_names(self.terminals@, u)),
            in_normal_form(*self) && binary_form(self.g()) && same_names(dfa.alphabet@, self.terminals@) && timeout is None
                && dfa.n() * dfa.n() * self.productions@.len() < usize::MAX
                && generating_triples(self.g(), *dfa, dfa.n(), self.productions@.len() as nat) <= 64_000_000
                && crate::cfg::intersection::intersection_nonempty(self.g(), self.start_symbol, *dfa)
                && !expansion_fails(self.g(), *dfa, self.nt(), self.start_symbol) ==> r is Some,
            in_normal_form(*self) && binary_form(self.g()) && distinct_names(self.terminals@) && dfa.symbols_mapped()
                ==> (r matches Some(v) ==> self.generates_word(word_of(v@)) && dfa.accepts_word(word_of(v@))),
            distinct_names(self.terminals@) && dfa.symbols_mapped()
                ==> (r matches Some(v) ==> self.generates_word(word_of(v@)) && dfa.accepts_word(word_of(v@))),
            distinct_names(self.terminals@) && dfa.symbols_mapped() && timeout is None && languages_meet(*self, *dfa)
                ==> r is Some || outgrows(*self, dfa.n(), usize::MAX - 1) || search_outgrows(*self, *dfa) || expansion_outgrows(*self, *dfa),
        decreases
            if in_normal_form(*self) { 0int } else { 1int }, if same_names(dfa.alphabet@, self.terminals@) { 0int } else { 1int },
    {
        if dfa.is_empty() {
            proof {
                crate::cfg::intersection::lemma_no_accept_empty(self.g(), self.start_symbol, *dfa);
                assert forall|w: Seq<Seq<char>>| !#[trigger] dfa.accepts_word(w) by {
                    if dfa.accepts_word(w) {
                        let u = dfa.symbol_indices(w);
                        assert(dfa.run(dfa.start_state, u) matches Some(f) && dfa.accept_states@.contains(f));
                    }
                }
            }
            return None;
        }
        if !self.is_normal_form() {
            let nf = self.to_normal_form();
            proof {
                assert(same_words(nf, *self));
            }
            if !nf.is_normal_form() {
                proof {
                    lemma_outgrows_itself(nf, dfa.n(), usize::MAX - 1);
                    lemma_outgrows_same_words(*self, nf, dfa.n(), usize::MAX - 1);
                }
                return None;
            }
            let r = nf.example_word(dfa, timeout);
            proof {
                if distinct_names(self.terminals@) && dfa.symbols_mapped() && r is Some {
                    assert(nf.generates_word(word_of(r->Some_0@)));
                }
                if distinct_names(self.terminals@) && dfa.symbols_mapped() && timeout is None && languages_meet(*self, *dfa) {
                    let w = choose|w: Seq<Seq<char>>| #[trigger] self.generates_word(w) && dfa.accepts_word(w);
                    assert(nf.generates_word(w));
                    if outgrows(nf, dfa.n(), usize::MAX - 1) {
                        lemma_outgrows_same_words(*self, nf, dfa.n(), usize::MAX - 1);
                    }
                    if search_outgrows(nf, *dfa) {
                        lemma_search_outgrows_widen(*self, nf, *dfa, *dfa);
                    }
                    if expansion_outgrows(nf, *dfa) {
                        lemma_expansion_outgrows_widen(*self, nf, *dfa, *dfa);
                    }
                }
            }
            return r;
        }
        if !same_alphabet(&dfa.alphabet, &self.terminals) {
            let renamed = dfa.with_alphabet(&self.terminals);
            proof {
                assert(same_names(renamed.alphabet@, self.terminals@));
            }
            let r = self.example_word(&renamed, timeout);
            proof {
                if dfa.symbols_mapped() {
                    lemma_meet_renamed(*self, *dfa, renamed);
                    assert(renamed.n() == dfa.n());
                    if expansion_outgrows(*self, renamed) {
                        assert(same_words(*self, *self));
                        lemma_expansion_outgrows_widen(*self, *self, *dfa, renamed);
                    }
                    if search_outgrows(*self, renamed) {
                        assert(same_words(*self, *self));
                        lemma_search_outgrows_widen(*self, *self, *dfa, renamed);
                    }
                }
            }
            return r;
        }
        if product_below_max(dfa.states.len(), dfa.states.len(), self.productions.len()).is_none() {
            proof {
                lemma_outgrows_itself(*self, dfa.n(), usize::MAX - 1);
            }
            return None;
        }
        proof {
            if distinct_names(self.terminals@) && dfa.symbols_mapped() && timeout is None && languages_meet(*self, *dfa) {
                lemma_meet_by_name(*self, *dfa);
                lemma_normal_binary(*self);
                lemma_generating_triples_bound(self.g(), *dfa, dfa.n(), self.productions@.len() as nat);
                if generating_triples(self.g(), *dfa, dfa.n(), self.productions@.len() as nat) > 64_000_000 {
                    assert(same_words(*self, *self));
                    assert(relabels(*dfa, self.terminals@, *dfa));
                    assert(search_outgrows(*self, *dfa));
                }
                if expansion_fails(self.g(), *dfa, self.nt(), self.start_symbol) {
                    assert(same_words(*self, *self));
                    assert(relabels(*dfa, self.terminals@, *dfa));
                    assert(expansion_outgrows(*self, *dfa));
                }
            }
            if distinct_names(self.terminals@) && dfa.symbols_mapped() {
                assert forall|w: Seq<Seq<char>>| #[trigger] in_intersection(*self, *dfa, w) ==> self.generates_word(w) && dfa.accepts_word(w) by {
                    lemma_intersection_by_name(*self, *dfa, w);
                }
            }
        }
        let start_time = crate::clock::now();
        let (is_empty, generating_map) = self._find_generating_word(dfa, timeout);
        if is_empty {
            return None;
        }
        // A generating variable for the start variable from the start state to an accepting state.
        let finals = dfa.accept_states.to_vec();
        let mut generating_start: Option<(usize, usize, usize)> = None;
        let mut i: usize = 0;
        while i < finals.len()
            invariant_except_break
                generating_start is None,
            invariant
                i <= finals@.len(),
                finals@.to_set() == dfa.accept_states@,
                forall|k: int| 0 <= k < i ==> !generating_map@.contains_key((dfa.start_state, self.start_symbol, #[trigger] finals@[k])),
            ensures
                generating_start matches Some(s) ==> generating_map@.contains_key(s) && s.0 == dfa.start_state && s.1 == self.start_symbol
                    && dfa.accept_states@.contains(s.2),
                generating_start is None ==> forall|k: int| 0 <= k < finals@.len() ==> !generating_map@.contains_key(
                    (dfa.start_state, self.start_symbol, #[trigger] finals@[k]),
                ),
            decreases finals@.len() - i,
        {
            let state_index = (dfa.start_state, self.start_symbol, finals[i]);
            if generating_map.contains_key(state_index) {
                proof {
                    assert(finals@.to_set().contains(finals@[i as int]));
                }
                generating_start = Some(state_index);
                break;
            }
            i = i + 1;
        }
        match generating_start {
            Some(start) => {
                let r = self.expand_example(dfa, &generating_map, start, timeout, &start_time);
                proof {
                    if r is Some && distinct_names(self.terminals@) && dfa.symbols_mapped() {
                        let v = r->0;
                        let u = choose|u: Seq<usize>| #[trigger] in_both(self.g(), *dfa, self.start_symbol, u) && word_of(v@) == terminal_names(self.terminals@, u);
                        assert(in_intersection(*self, *dfa, word_of(v@)));
                    }
                    if r is None && timeout is None {
                        assert(map_ok(generating_map@, self.g(), *dfa, self.nt()));
                        assert(generating_map@.contains_key((dfa.start_state, self.start_symbol, start.2)));
                        assert(!(exists|d: nat| #[trigger] crate::cfg::example::expansion_ends(generating_map@, (dfa.start_state, self.start_symbol, start.2), d)));
                        assert(expansion_fails(self.g(), *dfa, self.nt(), self.start_symbol));
                    }
                }
                r
            },
            None => {
                proof {
                    let f = choose|f: usize| dfa.accept_states@.contains(f) && #[trigger] generating_map@.contains_key((dfa.start_state, self.start_symbol, f));
                    assert(finals@.to_set().contains(f));
                    let k = choose|k: int| 0 <= k < finals@.len() && finals@[k] == f;
                }
                None
            },
        }
    }
}

} // verus!
