//! Whether a grammar generates a given word: the word is read by an
//! automaton of one path, and the grammar's intersection with it is tested
//! for emptiness, within a minute.
use crate::cfg::cfg::{generates, terminal_names, SymbolIndex, CFG};
use crate::cfg::intersection_words::distinct_names;
use crate::input_symbol::bytes_word;
use crate::cfg::generating::is_nullable;
use crate::cfg::normal::normalizable;
use crate::fa::dfa::DFA;
use crate::fa::state::State;
use crate::input_symbol::InputSymbol;
use crate::language::{bytes_to_symbols, word_of};
use crate::text::{decimal, lemma_decimal_injective, lemma_decimal_len};
use vstd::prelude::*;

verus! {

/// `core::time::Duration::from_secs`: the duration of `secs` seconds. Nothing
/// of the duration is used in a contract, so nothing is claimed of it.
#[verifier::external_body]
fn seconds(secs: u64) -> (d: core::time::Duration) {
    core::time::Duration::from_secs(secs)
}

/// The name of the state reached after `k + 1` symbols of the word.
pub open spec fn path_name(k: int) -> Seq<char> {
    "state_"@ + decimal(k as nat)
}

/// The moves of state `p` of the automaton of `input` built for its first
/// `i` symbols: state `p` (for `1 <= p <= i`) moves on symbol `p - 1` to `p + 1`.
pub open spec fn path_row(m: Map<Seq<char>, usize>, input: Seq<InputSymbol>, i: int, p: int) -> Map<usize, usize> {
    if 1 <= p <= i {
        map![m[input[p - 1]@] => (p + 1) as usize]
    } else {
        Map::empty()
    }
}

/// Whether every state's name maps to its number.
pub open spec fn states_mapped(d: DFA) -> bool {
    forall|j: int| 0 <= j < d.states@.len() ==> d.state_index_map@.contains_key(#[trigger] d.states@[j]@)
        && d.state_index_map@[d.states@[j]@] == j
}

/// Adding a transition on a symbol keeps every name of the alphabet mapped
/// to its own entry, and the numbers of the names already there.
proof fn lemma_alphabet_kept(o: DFA, f: DFA, symbol: InputSymbol)
    requires
        o.wf(),
        f.wf(),
        o.alphabet_mapped(),
        o.alphabet_index_map@.contains_key(symbol@) ==> f.alphabet@ == o.alphabet@,
        !o.alphabet_index_map@.contains_key(symbol@) ==> f.alphabet@ == o.alphabet@.push(symbol),
        f.alphabet_index_map@ == o.alphabet_index_map@.insert(symbol@, f.alphabet_index_map@[symbol@]),
    ensures
        f.alphabet_mapped(),
        forall|s: Seq<char>| #[trigger] o.alphabet_index_map@.contains_key(s) ==> f.alphabet_index_map@[s] == o.alphabet_index_map@[s],
{
    let om = o.alphabet_index_map@;
    let fm = f.alphabet_index_map@;
    let k = fm[symbol@];
    assert(fm.contains_key(symbol@));
    assert(f.alphabet@[k as int]@ == symbol@);
    if om.contains_key(symbol@) {
        assert(o.alphabet@[k as int]@ == symbol@);
        assert(om[o.alphabet@[k as int]@] == k);
    } else {
        if k < o.alphabet@.len() {
            assert(o.alphabet@[k as int]@ == symbol@);
            assert(om.contains_key(o.alphabet@[k as int]@));
        }
    }
    assert forall|i: int| 0 <= i < f.alphabet@.len() implies fm.contains_key(#[trigger] f.alphabet@[i]@) && fm[f.alphabet@[i]@] == i by {
        if i < o.alphabet@.len() {
            assert(f.alphabet@[i] == o.alphabet@[i]);
            assert(om.contains_key(o.alphabet@[i]@) && om[o.alphabet@[i]@] == i);
        }
    }
}

/// The run of the automaton of a word from its start: it follows the word's
/// symbols one state further each, and gets stuck off the word.
proof fn lemma_path_run(d: DFA, input: Seq<InputSymbol>, u: Seq<usize>)
    requires
        input.len() + 1 <= usize::MAX,
        d.transitions@.len() == input.len() + 2,
        forall|p: int| 0 <= p < input.len() + 2 ==> #[trigger] d.row(p) == path_row(d.alphabet_index_map@, input, input.len() as int, p),
    ensures
        d.run(1, u) == if u.len() <= input.len() && forall|j: int| 0 <= j < u.len() ==> #[trigger] u[j] == d.alphabet_index_map@[input[j]@] {
            Some((u.len() + 1) as usize)
        } else {
            None
        },
    decreases u.len(),
{
    let m = d.alphabet_index_map@;
    if u.len() > 0 {
        let v = u.drop_last();
        lemma_path_run(d, input, v);
        let on = u.len() <= input.len() && forall|j: int| 0 <= j < u.len() ==> #[trigger] u[j] == m[input[j]@];
        let von = v.len() <= input.len() && forall|j: int| 0 <= j < v.len() ==> #[trigger] v[j] == m[input[j]@];
        if von {
            let p = v.len() + 1int;
            assert(d.run(1, v) == Some(p as usize));
            assert(d.run(1, u) == d.step(p as usize, u.last()));
            assert(d.row(p) == path_row(m, input, input.len() as int, p));
            if p <= input.len() {
                assert(d.row(p) == map![m[input[p - 1]@] => (p + 1) as usize]);
            } else {
                assert(d.row(p) == Map::<usize, usize>::empty());
            }
            if on {
                assert(u.last() == m[input[v.len() as int]@]);
            } else {
                if u.len() <= input.len() {
                    let j = choose|j: int| 0 <= j < u.len() && !(#[trigger] u[j] == m[input[j]@]);
                    if j < v.len() {
                        assert(v[j] == u[j]);
                    }
                }
            }
        } else {
            if on {
                assert forall|j: int| 0 <= j < v.len() implies #[trigger] v[j] == m[input[j]@] by {
                    assert(u[j] == m[input[j]@]);
                }
            }
        }
    }
}

impl CFG {
    /// The automaton that accepts the word `input` alone: states `start`,
    /// then `state_0`, `state_1`, ..., one per symbol, the last accepting.
    pub fn word_automaton(input: &Vec<InputSymbol>) -> (r: DFA)
        ensures
            r.wf(),
            r.symbols_mapped(),
            forall|w: Seq<Seq<char>>| #[trigger] r.accepts_word(w) <==> w == word_of(input@),
    {
        proof {
            reveal_strlit("start");
            reveal_strlit("state_");
            reveal_strlit("0");
        }
        let mut dfa = DFA::empty();
        let start = State::new("start");
        let ghost e = dfa;
        assert(!e.state_index_map@.contains_key(start@)) by {
            assert(start@.len() == 5);
        }
        dfa.set_start_state(State::new("start"));
        let ghost sn = start@;
        proof {
            let added = seq![sn];
            assert(dfa.states_appended(&e, added));
            assert(e.states@.len() == 1);
            assert(dfa.states@[1]@ == added[0]);
            assert(dfa.states@[1]@ == sn);
            assert forall|j: int| 0 <= j < dfa.states@.len() implies dfa.state_index_map@.contains_key(#[trigger] dfa.states@[j]@)
                && dfa.state_index_map@[dfa.states@[j]@] == j by {
                if j == 0 {
                    assert(e.states@[0]@ == seq!['0']);
                }
            }
            assert forall|p: int| 0 <= p < 2 implies #[trigger] dfa.row(p) == path_row(dfa.alphabet_index_map@, input@, 0, p) by {
                if p == 0 {
                    assert(dfa.transitions@[0] == e.transitions@[0]);
                }
            }
        }
        let mut prev = start;
        let mut i: usize = 0;
        while i < input.len()
            invariant
                dfa.wf(),
                dfa.alphabet_mapped(),
                states_mapped(dfa),
                i <= input@.len(),
                sn == "start"@,
                dfa.n() == i + 2,
                dfa.start_state == 1,
                dfa.accept_states@ == Set::<usize>::empty(),
                forall|s: Seq<char>| #[trigger] dfa.state_index_map@.contains_key(s)
                    ==> s == seq!['0'] || s == sn || exists|k: int| 0 <= k < i && s == path_name(k),
                prev@ == (if i == 0 { sn } else { path_name(i - 1) }),
                dfa.state_index_map@.contains_key(prev@),
                dfa.state_index_map@[prev@] == i + 1,
                forall|k: int| 0 <= k < i ==> dfa.alphabet_index_map@.contains_key(#[trigger] input@[k]@),
                forall|p: int| 0 <= p < i + 2 ==> #[trigger] dfa.row(p) == path_row(dfa.alphabet_index_map@, input@, i as int, p),
            decreases input@.len() - i,
        {
            let state = State::from_string(crate::text::name_with_number("state_", i));
            let ghost o = dfa;
            proof {
                reveal_strlit("state_");
                reveal_strlit("start");
                assert(sn.len() == 5);
                assert(state@ == path_name(i as int));
                lemma_decimal_len(i as nat);
                if o.state_index_map@.contains_key(state@) {
                    assert(state@.len() >= 7);
                    assert(state@ != seq!['0']);
                    assert(state@ != sn);
                    let k = choose|k: int| 0 <= k < i && state@ == path_name(k);
                    assert(state@.subrange(6, state@.len() as int) =~= decimal(i as nat));
                    assert(path_name(k).subrange(6, path_name(k).len() as int) =~= decimal(k as nat));
                    lemma_decimal_injective(i as nat, k as nat);
                }
                assert(!o.state_index_map@.contains_key(state@));
            }
            dfa.add_transition(&prev, &input[i], &state);
            proof {
                let om = o.state_index_map@;
                let fm = dfa.state_index_map@;
                assert(DFA::names_added(om, prev@, state@) =~= seq![state@]);
                lemma_alphabet_kept(o, dfa, input@[i as int]);
                assert(dfa.states@[o.states@.len() + 0int]@ == state@);
                let x = fm[state@];
                assert(dfa.states@[x as int]@ == state@);
                if x < o.n() {
                    assert(dfa.states@[x as int] == o.states@[x as int]);
                    assert(om.contains_key(o.states@[x as int]@));
                }
                assert forall|j: int| 0 <= j < dfa.states@.len() implies fm.contains_key(#[trigger] dfa.states@[j]@)
                    && fm[dfa.states@[j]@] == j by {
                    if j < o.states@.len() {
                        assert(dfa.states@[j] == o.states@[j]);
                        assert(om.contains_key(o.states@[j]@));
                        assert(fm[o.states@[j]@] == om[o.states@[j]@]);
                    } else {
                        assert(j == o.states@.len());
                        assert(dfa.states@[j]@ == state@);
                        assert(x == j);
                    }
                }
                assert forall|s: Seq<char>| #[trigger] fm.contains_key(s)
                    implies s == seq!['0'] || s == sn || exists|k: int| 0 <= k < i + 1 && s == path_name(k) by {
                    if s != state@ {
                        let jj = fm[s];
                        assert(dfa.states@[jj as int]@ == s);
                        if jj < o.n() {
                            assert(dfa.states@[jj as int] == o.states@[jj as int]);
                            assert(om.contains_key(o.states@[jj as int]@));
                            if exists|k: int| 0 <= k < i && s == path_name(k) {
                                let k = choose|k: int| 0 <= k < i && s == path_name(k);
                                assert(0 <= k < i + 1 && s == path_name(k));
                            }
                        }
                    } else {
                        assert(0 <= i < i + 1 && s == path_name(i as int));
                    }
                }
                let am = dfa.alphabet_index_map@;
                assert forall|k: int| 0 <= k < i + 1 implies am.contains_key(#[trigger] input@[k]@) by {
                    if k < i {
                        assert(o.alphabet_index_map@.contains_key(input@[k]@));
                    }
                }
                assert forall|p: int| 0 <= p < i + 3 implies #[trigger] dfa.row(p) == path_row(am, input@, i + 1, p) by {
                    if p < i + 2 {
                        assert(o.row(p) == path_row(o.alphabet_index_map@, input@, i as int, p));
                        if 1 <= p <= i {
                            assert(o.alphabet_index_map@.contains_key(input@[p - 1]@));
                        }
                        if p == i + 1 {
                            assert(dfa.row(p) =~= path_row(am, input@, i + 1, p));
                        }
                    }
                }
            }
            prev = state;
            i = i + 1;
        }
        let ghost o = dfa;
        dfa.add_accept_state(prev);
        proof {
            let n = input@.len();
            assert(i == n);
            assert(o.state_index_map@[prev@] == n + 1);
            assert forall|p: int| 0 <= p < n + 2 implies #[trigger] dfa.row(p) == path_row(dfa.alphabet_index_map@, input@, n as int, p) by {
                assert(dfa.transitions@[p] == o.transitions@[p]);
                assert(o.row(p) == path_row(o.alphabet_index_map@, input@, i as int, p));
            }
            assert(dfa.accept_states@ =~= set![(n + 1) as usize]);
            assert forall|p: int, a: usize| 0 <= p < dfa.transitions@.len() && #[trigger] dfa.transitions@[p]@.contains_key(a)
                implies dfa.alphabet_index_map@.contains_key(dfa.alphabet@[a as int]@) && dfa.alphabet_index_map@[dfa.alphabet@[a as int]@] == a by {}
            let m = dfa.alphabet_index_map@;
            assert forall|w: Seq<Seq<char>>| #[trigger] dfa.accepts_word(w) <==> w == word_of(input@) by {
                let u = dfa.symbol_indices(w);
                lemma_path_run(dfa, input@, u);
                if dfa.accepts_word(w) {
                    assert(u.len() == n);
                    assert forall|j: int| 0 <= j < w.len() implies #[trigger] w[j] == word_of(input@)[j] by {
                        assert(u[j] == m[input@[j]@]);
                        assert(m.contains_key(w[j]));
                        assert(dfa.alphabet@[m[w[j]] as int]@ == w[j]);
                        assert(dfa.alphabet@[m[input@[j]@] as int]@ == input@[j]@);
                    }
                    assert(w =~= word_of(input@));
                }
                if w == word_of(input@) {
                    assert forall|j: int| 0 <= j < u.len() implies #[trigger] u[j] == m[input@[j]@] by {}
                }
            }
        }
        dfa
    }

    /// Whether the grammar generates the word `input`: the empty word where
    /// the start variable is nullable; otherwise where the intersection with
    /// the (minimised) automaton of the word is not found empty within a minute.
    pub fn accepts(&self, input: &Vec<InputSymbol>) -> (r: bool)
        requires
            self.wf(),
            normalizable(*self),
        ensures
            input@.len() == 0 ==> r == is_nullable(self.g(), SymbolIndex::VariableIndex(self.start_symbol)),
            input@.len() == 0 ==> r == self.generates_word(word_of(input@)),
            distinct_names(self.terminals@) && r ==> self.generates_word(word_of(input@)),
    {
        if input.len() == 0 {
            let r = self.generates_epsilon();
            proof {
                let st = SymbolIndex::VariableIndex(self.start_symbol);
                let e = Seq::<usize>::empty();
                assert(terminal_names(self.terminals@, e) =~= word_of(input@));
                if self.generates_word(word_of(input@)) {
                    let u = choose|u: Seq<usize>| #[trigger] generates(self.g(), st, u) && terminal_names(self.terminals@, u) == word_of(input@);
                    assert(u =~= e);
                }
            }
            return r;
        }
        let wa = CFG::word_automaton(input);
        let dfa = wa.minimize();
        let r = !self.is_intersection_empty(&dfa, Some(seconds(60)));
        proof {
            if distinct_names(self.terminals@) && r {
                let w = choose|w: Seq<Seq<char>>| #[trigger] self.generates_word(w) && dfa.accepts_word(w);
                assert(wa.accepts_word(w));
            }
        }
        r
    }

    /// Whether the grammar generates the word of the bytes of `input`, each
    /// byte read as one symbol.
    pub fn accepts_string(&self, input: &str) -> (r: bool)
        requires
            self.wf(),
            normalizable(*self),
        ensures
            input@.len() == 0 ==> r == is_nullable(self.g(), SymbolIndex::VariableIndex(self.start_symbol)),
            distinct_names(self.terminals@) && r ==> self.generates_word(bytes_word(vstd::utf8::encode_utf8(input@))),
    {
        let bytes = input.as_bytes();
        let symbols = bytes_to_symbols(bytes);
        proof {
            if input@.len() == 0 {
                assert(vstd::utf8::encode_utf8(input@) =~= Seq::<u8>::empty());
                assert(bytes@.len() == 0);
                assert(crate::language::word_of(symbols@).len() == symbols@.len());
            }
        }
        self.accepts(&symbols)
    }
}

} // verus!
